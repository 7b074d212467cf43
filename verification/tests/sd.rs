//! Notifications.
use macfand::sd::{Address, Notifier};

fn notifier(socket: Option<&str>, usec: Option<&str>) -> Notifier {
    Notifier::from_env(socket.map(|s| s.to_string()), usec.map(|s| s.to_string()))
}

#[test]
fn the_socket_is_in_the_file_system_or_in_the_abstract_namespace() {
    assert_eq!(
        notifier(Some("/run/systemd/notify"), None).socket,
        Some(Address::Path("/run/systemd/notify".to_string()))
    );
    assert_eq!(notifier(Some("@bus"), None).socket, Some(Address::Abstract("bus".to_string())));
    assert_eq!(notifier(Some("\0bus"), None).socket, Some(Address::Abstract("bus".to_string())));
    assert_eq!(notifier(Some("@@bus"), None).socket, Some(Address::Abstract("@bus".to_string())));
    assert_eq!(notifier(Some(""), None).socket, Some(Address::Path(String::new())));
    assert_eq!(notifier(None, None).socket, None);
}

#[test]
fn the_watchdog_is_pinged_at_half_its_interval() {
    for (raw, interval) in [
        ("30000000", Some(15_000_000)),
        ("+7", Some(3)),
        ("1", Some(0)),
        ("18446744073709551615", Some(9_223_372_036_854_775_807)),
        ("0", None),
        ("", None),
        ("-1", None),
        (" 5", None),
        ("18446744073709551616", None),
        ("soon", None),
    ] {
        assert_eq!(notifier(None, Some(raw)).watchdog_interval, interval, "{raw:?}");
    }
    assert_eq!(notifier(None, None).watchdog_interval, None);
}

#[test]
fn messages_are_those_of_the_protocol() {
    let n = notifier(Some("/s"), Some("2000"));
    assert_eq!(n.ready().as_deref(), Some("READY=1"));
    assert_eq!(n.watchdog().as_deref(), Some("WATCHDOG=1"));
    assert_eq!(n.status("3200 rpm").as_deref(), Some("STATUS=3200 rpm"));
    assert_eq!(n.stopping().as_deref(), Some("STOPPING=1"));
}

#[test]
fn without_a_socket_nothing_is_sent_and_without_a_watchdog_no_ping() {
    let n = notifier(None, Some("2000"));
    assert_eq!((n.ready(), n.watchdog(), n.status("x"), n.stopping()), (None, None, None, None));
    let n = notifier(Some("/s"), None);
    assert_eq!(n.watchdog(), None);
    assert!(n.ready().is_some());
}
