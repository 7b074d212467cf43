//! The command line.
use macfand::cli::{parse, Command, Invocation};

fn args(args: &[&str]) -> Vec<String> {
    args.iter().map(|a| a.to_string()).collect()
}

fn parsed(list: &[&str]) -> Invocation {
    parse(&args(list)).expect("this command line must be understood")
}

fn rejected(list: &[&str]) -> String {
    parse(&args(list)).expect_err("this command line must be rejected")
}

#[test]
fn each_command_stands_on_its_own() {
    assert_eq!(parsed(&["daemon"]), Invocation::Run(Command::Daemon, None));
    assert_eq!(parsed(&["show"]), Invocation::Run(Command::Show, None));
    assert_eq!(parsed(&["restore"]), Invocation::Run(Command::Restore, None));
}

#[test]
fn nothing_at_all_is_help_rather_than_an_error() {
    // An operator typing the bare name expects to be told what the commands are, not to have
    // the SMC taken off its own fan curve.
    assert_eq!(parsed(&[]), Invocation::Help);
}

#[test]
fn help_and_version_are_spelled_every_usual_way() {
    for args in [&["-h"][..], &["--help"], &["help"]] {
        assert_eq!(parsed(args), Invocation::Help, "{args:?}");
    }
    for args in [&["-V"][..], &["--version"]] {
        assert_eq!(parsed(args), Invocation::Version, "{args:?}");
    }
}

#[test]
fn help_asked_for_after_a_command_is_still_help() {
    // Asking for help on the daemon must never be what drives the fans.
    assert_eq!(parsed(&["daemon", "--help"]), Invocation::Help);
    assert_eq!(parsed(&["show", "-h"]), Invocation::Help);
    assert_eq!(parsed(&["restore", "--help"]), Invocation::Help);
}

#[test]
fn the_commands_that_read_a_config_take_one() {
    let expected = Some("/tmp/macfand.toml".to_string());
    assert_eq!(
        parsed(&["daemon", "--config", "/tmp/macfand.toml"]),
        Invocation::Run(Command::Daemon, expected.clone())
    );
    assert_eq!(
        parsed(&["show", "--config", "/tmp/macfand.toml"]),
        Invocation::Run(Command::Show, expected)
    );
}

#[test]
fn a_config_restore_cannot_use_is_refused_rather_than_ignored() {
    // Accepting it silently would let an operator believe that their file had been read.
    assert!(rejected(&["restore", "--config", "/tmp/macfand.toml"]).contains("--config"));
}

#[test]
fn a_config_flag_with_no_path_is_a_usage_error() {
    // And not a run that quietly falls back to the default: the operator named a file.
    assert!(rejected(&["daemon", "--config"]).contains("needs a path"));
}

#[test]
fn unknown_commands_and_stray_arguments_are_refused() {
    assert!(rejected(&["bogus"]).contains("bogus"));
    assert!(rejected(&["daemon", "extra"]).contains("extra"));
    // A path where the command belongs must not be mistaken for a command.
    assert!(rejected(&["/etc/macfand.toml"]).contains("unknown command"));
}

#[test]
fn the_flags_the_subcommands_replaced_are_gone() {
    // These must fail loudly rather than be quietly accepted.
    for args in [&["--show"][..], &["--restore"], &["--config", "/tmp/macfand.toml"]] {
        let message = rejected(args);
        assert!(message.contains("unknown command"), "{args:?} gave: {message}");
    }
}

#[test]
fn the_messages_name_what_was_wrong() {
    assert_eq!(rejected(&["bogus"]), "unknown command `bogus`");
    assert_eq!(rejected(&["daemon", "--config"]), "--config needs a path");
    assert_eq!(rejected(&["show", "extra"]), "show: unexpected argument `extra`");
    assert_eq!(
        rejected(&["restore", "--config", "x"]),
        "restore: unexpected argument `--config`"
    );
}

#[test]
fn the_last_config_named_is_the_one_that_is_read() {
    assert_eq!(
        parsed(&["daemon", "--config", "a", "--config", "b"]),
        Invocation::Run(Command::Daemon, Some("b".to_string()))
    );
    // A flag where the path belongs is taken for the path.
    assert_eq!(
        parsed(&["daemon", "--config", "--help"]),
        Invocation::Run(Command::Daemon, Some("--help".to_string()))
    );
    assert_eq!(parsed(&["daemon", "--config", "a", "-h"]), Invocation::Help);
}

#[test]
fn what_is_behind_a_request_for_help_is_not_looked_at() {
    assert_eq!(parsed(&["help", "bogus"]), Invocation::Help);
    assert_eq!(parsed(&["daemon", "-h", "bogus"]), Invocation::Help);
    assert_eq!(parsed(&["-V", "bogus"]), Invocation::Version);
}
