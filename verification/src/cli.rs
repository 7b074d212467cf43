//! The command line.
use crate::text::{joined3, same, texts};
use vstd::prelude::*;

verus! {

/// What there is to do.
#[derive(Debug, Clone, Copy, PartialEq, Eq, Structural)]
pub enum Command {
    Daemon,
    Show,
    Restore,
}

/// What a command line asked for, once it has been understood.
///
/// Parsing answers with this rather than doing the work itself, so that the whole command line
/// can be tried without a process to leave or an SMC to talk to.
#[derive(Debug, PartialEq, Eq)]
pub enum Invocation {
    Help,
    Version,
    /// A command, and the path of the configuration it was told to read.
    Run(Command, Option<String>),
}

/// What a command line means: an invocation, or a message that says why it cannot be understood.
pub enum Meaning {
    Help,
    Version,
    Run(Command, Option<Seq<char>>),
    Rejected(Seq<char>),
}

/// What a result of parsing means.
pub open spec fn meaning_of(r: Result<Invocation, String>) -> Meaning {
    match r {
        Ok(Invocation::Help) => Meaning::Help,
        Ok(Invocation::Version) => Meaning::Version,
        Ok(Invocation::Run(command, path)) => Meaning::Run(
            command,
            match path {
                Some(p) => Some(p@),
                None => None,
            },
        ),
        Err(message) => Meaning::Rejected(message@),
    }
}

impl Command {
    /// The word for the command.
    pub open spec fn word(self) -> Seq<char> {
        match self {
            Command::Daemon => "daemon"@,
            Command::Show => "show"@,
            Command::Restore => "restore"@,
        }
    }

    /// That the command reads a configuration. Restoring talks to the hardware alone.
    pub open spec fn reads_config(self) -> bool {
        self is Daemon || self is Show
    }
}

/// That an argument asks for help.
pub open spec fn asks_help(arg: Seq<char>) -> bool {
    arg == "-h"@ || arg == "--help"@
}

/// What the arguments behind a command mean, where `path` is the configuration named so far.
pub open spec fn rest_meaning(
    command: Command,
    args: Seq<Seq<char>>,
    path: Option<Seq<char>>,
) -> Meaning
    decreases args.len(),
{
    if args.len() == 0 {
        Meaning::Run(command, path)
    } else if asks_help(args[0]) {
        Meaning::Help
    } else if args[0] == "--config"@ && command.reads_config() {
        if args.len() == 1 {
            Meaning::Rejected("--config needs a path"@)
        } else {
            rest_meaning(command, args.skip(2), Some(args[1]))
        }
    } else {
        Meaning::Rejected(command.word() + ": unexpected argument `"@ + args[0] + "`"@)
    }
}

/// What a command line means.
pub open spec fn meaning(args: Seq<Seq<char>>) -> Meaning {
    if args.len() == 0 {
        Meaning::Help
    } else {
        let first = args[0];
        let rest = args.skip(1);
        if asks_help(first) || first == "help"@ {
            Meaning::Help
        } else if first == "-V"@ || first == "--version"@ {
            Meaning::Version
        } else if first == "daemon"@ {
            rest_meaning(Command::Daemon, rest, None)
        } else if first == "show"@ {
            rest_meaning(Command::Show, rest, None)
        } else if first == "restore"@ {
            rest_meaning(Command::Restore, rest, None)
        } else {
            Meaning::Rejected("unknown command `"@ + first + "`"@)
        }
    }
}

fn is_help(arg: &str) -> (r: bool)
    ensures
        r == asks_help(arg@),
{
    same(arg, "-h") || same(arg, "--help")
}

/// Understands a command line, or says why it cannot be understood.
///
/// No command at all is someone finding their way around and not a mistake, so it gets the
/// help. A configuration for a command that reads none is a mistake worth reporting.
pub fn parse(args: &Vec<String>) -> (r: Result<Invocation, String>)
    ensures
        meaning_of(r) == meaning(texts(args@)),
{
    let ghost all = texts(args@);
    if args.len() == 0 {
        return Ok(Invocation::Help);
    }
    let n: usize = args.len();
    let first: &str = args[0].as_str();
    assert(all[0] == first@);
    if is_help(first) || same(first, "help") {
        return Ok(Invocation::Help);
    }
    if same(first, "-V") || same(first, "--version") {
        return Ok(Invocation::Version);
    }
    let command: Command = if same(first, "daemon") {
        Command::Daemon
    } else if same(first, "show") {
        Command::Show
    } else if same(first, "restore") {
        Command::Restore
    } else {
        return Err(joined3("unknown command `", first, "`"));
    };
    proof {
        lemma_words_differ();
        assert(meaning(all) == rest_meaning(command, all.skip(1), None));
    }
    let takes_config: bool = match command {
        Command::Restore => false,
        _ => true,
    };
    let mut path: Option<String> = None;
    let mut i: usize = 1;
    while i < n
        invariant
            1 <= i <= n,
            n == args@.len(),
            all == texts(args@),
            first@ == command.word(),
            takes_config == command.reads_config(),
            meaning(all) == rest_meaning(
                command,
                all.skip(i as int),
                match path {
                    Some(p) => Some(p@),
                    None => None,
                },
            ),
        decreases n - i,
    {
        let arg: &str = args[i].as_str();
        assert(all.skip(i as int)[0] == arg@);
        if is_help(arg) {
            return Ok(Invocation::Help);
        }
        if same(arg, "--config") && takes_config {
            if i == n - 1 {
                return Err("--config needs a path".to_owned());
            }
            assert(all.skip(i as int)[1] == args@[i + 1]@);
            assert(all.skip(i as int).skip(2) =~= all.skip(i + 2));
            path = Some(args[i + 1].clone());
            i += 2;
        } else {
            let opening: String = first.to_owned().concat(": unexpected argument `");
            return Err(opening.concat(arg).concat("`"));
        }
    }
    Ok(Invocation::Run(command, path))
}

/// The words of the commands are different, and none is an option.
proof fn lemma_words_differ()
    ensures
        "daemon"@ != "show"@,
        "daemon"@ != "restore"@,
        "show"@ != "restore"@,
        forall|c: Command| !asks_help(#[trigger] c.word()) && c.word() != "help"@,
        forall|c: Command| (#[trigger] c.word()) != "-V"@ && c.word() != "--version"@,
{
    reveal_strlit("daemon");
    reveal_strlit("show");
    reveal_strlit("restore");
    reveal_strlit("help");
    reveal_strlit("-h");
    reveal_strlit("--help");
    reveal_strlit("-V");
    reveal_strlit("--version");
    assert("show"@[0] != "restore"@[0]);
    assert forall|c: Command| !asks_help(#[trigger] c.word()) && c.word() != "help"@ by {
        assert(c.word()[0] != "-h"@[0]);
        assert(c.word()[0] != "--help"@[0]);
        assert(c.word()[0] != "help"@[0]);
    }
    assert forall|c: Command| (#[trigger] c.word()) != "-V"@ && c.word() != "--version"@ by {
        assert(c.word()[0] != "-V"@[0]);
        assert(c.word()[0] != "--version"@[0]);
    }
}

/// Only a command runs: what runs is what the first argument names, and a restore that runs was
/// told nothing else.
pub proof fn law_only_a_named_command_runs(args: Seq<Seq<char>>)
    requires
        meaning(args) is Run,
    ensures
        args.len() > 0,
        args[0] == meaning(args)->Run_0.word(),
        meaning(args)->Run_0 is Restore ==> args.len() == 1 && meaning(args)->Run_1 is None,
{
    let command = if args[0] == "daemon"@ {
        Command::Daemon
    } else if args[0] == "show"@ {
        Command::Show
    } else {
        Command::Restore
    };
    assert(meaning(args) == rest_meaning(command, args.skip(1), None));
    lemma_rest_runs(command, args.skip(1), None);
}

proof fn lemma_rest_runs(command: Command, args: Seq<Seq<char>>, path: Option<Seq<char>>)
    requires
        rest_meaning(command, args, path) is Run,
    ensures
        rest_meaning(command, args, path)->Run_0 == command,
        command is Restore ==> args.len() == 0 && rest_meaning(command, args, path)->Run_1 == path,
    decreases args.len(),
{
    if args.len() > 0 {
        lemma_rest_runs(command, args.skip(2), Some(args[1]));
    }
}

/// Help asked for right behind a command is help, whatever follows: it never drives the fans.
pub proof fn law_help_behind_a_command_is_help(command: Command, args: Seq<Seq<char>>)
    requires
        args.len() >= 2,
        args[0] == command.word(),
        asks_help(args[1]),
    ensures
        meaning(args) is Help,
{
    lemma_words_differ();
    assert(args.skip(1)[0] == args[1]);
    assert(meaning(args) == rest_meaning(command, args.skip(1), None));
}

/// A configuration that is named is the one that is read, in place of one named before it.
pub proof fn law_a_named_configuration_is_read(
    command: Command,
    path: Seq<char>,
    earlier: Option<Seq<char>>,
    args: Seq<Seq<char>>,
)
    requires
        command.reads_config(),
    ensures
        rest_meaning(command, seq!["--config"@, path] + args, earlier) == rest_meaning(
            command,
            args,
            Some(path),
        ),
{
    reveal_strlit("-h");
    reveal_strlit("--help");
    reveal_strlit("--config");
    let all = seq!["--config"@, path] + args;
    assert("--config"@.len() != "-h"@.len() && "--config"@.len() != "--help"@.len());
    assert(all[0] == "--config"@ && all[1] == path);
    assert(all.skip(2) =~= args);
}

/// The words and options of the command line are all different.
proof fn lemma_options_differ()
    ensures
        ({
            let all = seq![
                "-h"@,
                "--help"@,
                "help"@,
                "-V"@,
                "--version"@,
                "daemon"@,
                "show"@,
                "restore"@,
                "--config"@,
            ];
            forall|i: int, j: int| 0 <= i < j < 9 ==> #[trigger] all[i] != #[trigger] all[j]
        }),
{
    reveal_strlit("-h");
    reveal_strlit("--help");
    reveal_strlit("help");
    reveal_strlit("-V");
    reveal_strlit("--version");
    reveal_strlit("daemon");
    reveal_strlit("show");
    reveal_strlit("restore");
    reveal_strlit("--config");
    let all = seq![
        "-h"@,
        "--help"@,
        "help"@,
        "-V"@,
        "--version"@,
        "daemon"@,
        "show"@,
        "restore"@,
        "--config"@,
    ];
    assert forall|i: int, j: int| 0 <= i < j < 9 implies #[trigger] all[i] != #[trigger] all[j] by {
        assert(all[i].len() != all[j].len() || all[i][0] != all[j][0] || all[i][1] != all[j][1]
            || all[i][2] != all[j][2]);
    }
}

/// What the first argument alone settles: none at all and those that ask for help get the help,
/// those that ask for the version get it, and what is none of the commands is not understood.
pub proof fn law_the_first_argument_says_what_there_is_to_do(args: Seq<Seq<char>>)
    ensures
        args.len() == 0 ==> meaning(args) is Help,
        args.len() > 0 && (args[0] == "-h"@ || args[0] == "--help"@ || args[0] == "help"@)
            ==> meaning(args) is Help,
        args.len() > 0 && (args[0] == "-V"@ || args[0] == "--version"@) ==> meaning(
            args,
        ) is Version,
        args.len() > 0 && args[0] != "-h"@ && args[0] != "--help"@ && args[0] != "help"@ && args[0]
            != "-V"@ && args[0] != "--version"@ && args[0] != "daemon"@ && args[0] != "show"@
            && args[0] != "restore"@ ==> meaning(args) == Meaning::Rejected(
            "unknown command `"@ + args[0] + "`"@,
        ),
        meaning(args) is Version ==> args.len() > 0 && (args[0] == "-V"@ || args[0]
            == "--version"@),
{
    lemma_options_differ();
    let all = seq![
        "-h"@,
        "--help"@,
        "help"@,
        "-V"@,
        "--version"@,
        "daemon"@,
        "show"@,
        "restore"@,
        "--config"@,
    ];
    assert(all[0] != all[3] && all[0] != all[4] && all[1] != all[3] && all[1] != all[4] && all[2]
        != all[3] && all[2] != all[4]);
    if meaning(args) is Version {
        if args[0] == "daemon"@ {
            lemma_rest_is_no_version(Command::Daemon, args.skip(1), None);
        } else if args[0] == "show"@ {
            lemma_rest_is_no_version(Command::Show, args.skip(1), None);
        } else if args[0] == "restore"@ {
            lemma_rest_is_no_version(Command::Restore, args.skip(1), None);
        }
    }
}

proof fn lemma_rest_is_no_version(command: Command, args: Seq<Seq<char>>, path: Option<Seq<char>>)
    ensures
        !(rest_meaning(command, args, path) is Version),
    decreases args.len(),
{
    if args.len() >= 2 {
        lemma_rest_is_no_version(command, args.skip(2), Some(args[1]));
    }
}

/// What stands behind a command that was told of some configurations, one after the other: with
/// nothing more the command runs, by the configuration named last, if any; with a request for help
/// it is help; with `--config` and no path it is not understood; and with anything else neither.
pub proof fn law_a_command_runs_by_the_last_configuration_named(
    args: Seq<Seq<char>>,
    paths: Seq<Seq<char>>,
    more: Seq<Seq<char>>,
)
    requires
        args[0] == "daemon"@ || args[0] == "show"@,
        args == seq![args[0]] + Seq::new(
            2 * paths.len(),
            |k: int|
                if k % 2 == 0 {
                    "--config"@
                } else {
                    paths[k / 2]
                },
        ) + more,
    ensures
        ({
            let command = if args[0] == "daemon"@ {
                Command::Daemon
            } else {
                Command::Show
            };
            let path = if paths.len() == 0 {
                None
            } else {
                Some(paths.last())
            };
            &&& more.len() == 0 ==> meaning(args) == Meaning::Run(command, path)
            &&& more.len() > 0 && (more[0] == "-h"@ || more[0] == "--help"@) ==> meaning(
                args,
            ) is Help
            &&& more.len() == 1 && more[0] == "--config"@ ==> meaning(args) == Meaning::Rejected(
                "--config needs a path"@,
            )
            &&& more.len() > 0 && more[0] != "-h"@ && more[0] != "--help"@ && more[0] != "--config"@
                ==> meaning(args) == Meaning::Rejected(
                args[0] + ": unexpected argument `"@ + more[0] + "`"@,
            )
        }),
{
    lemma_options_differ();
    let all = seq![
        "-h"@,
        "--help"@,
        "help"@,
        "-V"@,
        "--version"@,
        "daemon"@,
        "show"@,
        "restore"@,
        "--config"@,
    ];
    assert(all[0] != all[8] && all[1] != all[8]);
    assert(all[0] != all[5] && all[1] != all[5] && all[2] != all[5] && all[3] != all[5] && all[4]
        != all[5]);
    assert(all[0] != all[6] && all[1] != all[6] && all[2] != all[6] && all[3] != all[6] && all[4]
        != all[6] && all[5] != all[6]);
    let command = if args[0] == "daemon"@ {
        Command::Daemon
    } else {
        Command::Show
    };
    assert(meaning(args) == rest_meaning(command, args.skip(1), None));
    lemma_configurations(command, args, paths, more, 0);
    let here = args.skip(1 + 2 * paths.len() as int);
    assert(here.len() == more.len());
    if more.len() > 0 {
        assert(here[0] == more[0]);
    }
}

proof fn lemma_configurations(
    command: Command,
    args: Seq<Seq<char>>,
    paths: Seq<Seq<char>>,
    more: Seq<Seq<char>>,
    k: int,
)
    requires
        command is Daemon || command is Show,
        0 <= k <= paths.len(),
        "--config"@ != "-h"@,
        "--config"@ != "--help"@,
        args == seq![args[0]] + Seq::new(
            2 * paths.len(),
            |k: int|
                if k % 2 == 0 {
                    "--config"@
                } else {
                    paths[k / 2]
                },
        ) + more,
    ensures
        rest_meaning(
            command,
            args.skip(1 + 2 * k),
            if k == 0 {
                None
            } else {
                Some(paths[k - 1])
            },
        ) == rest_meaning(
            command,
            args.skip(1 + 2 * paths.len() as int),
            if paths.len() == 0 {
                None
            } else {
                Some(paths.last())
            },
        ),
    decreases paths.len() - k,
{
    if k < paths.len() {
        lemma_configurations(command, args, paths, more, k + 1);
        let here = args.skip(1 + 2 * k);
        assert((2 * k) % 2 == 0 && (2 * k + 1) % 2 == 1 && (2 * k + 1) / 2 == k);
        assert(args[1 + 2 * k] == "--config"@ && args[2 + 2 * k] == paths[k]);
        assert(here[0] == "--config"@ && here[1] == paths[k]);
        assert(here.skip(2) =~= args.skip(1 + 2 * (k + 1)));
    }
}

/// A restore reads no configuration: alone it runs, with a request for help behind it it is help,
/// and with anything else behind it, `--config` too, it is not understood.
pub proof fn law_a_restore_takes_no_argument(args: Seq<Seq<char>>)
    requires
        args.len() > 0,
        args[0] == "restore"@,
    ensures
        args.len() == 1 ==> meaning(args) == Meaning::Run(Command::Restore, None),
        args.len() > 1 && (args[1] == "-h"@ || args[1] == "--help"@) ==> meaning(args) is Help,
        args.len() > 1 && args[1] != "-h"@ && args[1] != "--help"@ ==> meaning(args)
            == Meaning::Rejected("restore: unexpected argument `"@ + args[1] + "`"@),
{
    lemma_options_differ();
    let all = seq![
        "-h"@,
        "--help"@,
        "help"@,
        "-V"@,
        "--version"@,
        "daemon"@,
        "show"@,
        "restore"@,
        "--config"@,
    ];
    assert(all[0] != all[7] && all[1] != all[7] && all[2] != all[7] && all[3] != all[7] && all[4]
        != all[7] && all[5] != all[7] && all[6] != all[7]);
    assert(meaning(args) == rest_meaning(Command::Restore, args.skip(1), None));
    if args.len() > 1 {
        assert(args.skip(1)[0] == args[1]);
        reveal_strlit("restore");
        reveal_strlit(": unexpected argument `");
        reveal_strlit("restore: unexpected argument `");
        assert("restore"@ + ": unexpected argument `"@ =~= "restore: unexpected argument `"@);
    }
}

/// What a result of parsing says is what it means, its texts by their characters.
pub proof fn law_a_result_means_what_it_says(r: Result<Invocation, String>)
    ensures
        r matches Err(message) ==> meaning_of(r) == Meaning::Rejected(message@),
        r matches Ok(Invocation::Help) ==> meaning_of(r) is Help,
        r matches Ok(Invocation::Version) ==> meaning_of(r) is Version,
        r matches Ok(Invocation::Run(command, None)) ==> meaning_of(r) == Meaning::Run(
            command,
            None,
        ),
        r matches Ok(Invocation::Run(command, Some(path))) ==> meaning_of(r) == Meaning::Run(
            command,
            Some(path@),
        ),
{
}

} // verus!
