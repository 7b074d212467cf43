//! As much of the systemd notification protocol as a daemon with a watchdog needs.
//!
//! A fan daemon that wedges leaves the fans at whatever it last commanded. Letting systemd
//! notice and restart it is a much better failure than a silent stall.
use crate::text::{
    decimal, joined, law_a_number_is_digits_behind_a_sign, lemma_decimal_reads_back, natural_value,
    parse_u64,
};
use vstd::prelude::*;

verus! {

/// Where notifications go.
#[derive(Debug, PartialEq, Eq)]
pub enum Address {
    /// A socket in the abstract namespace.
    Abstract(String),
    /// A socket in the file system.
    Path(String),
}

/// Who to notify, and how often.
#[derive(Debug)]
pub struct Notifier {
    pub socket: Option<Address>,
    /// How often to ping the watchdog, in microseconds: half the time that systemd waits.
    pub watchdog_interval: Option<u64>,
}

/// That an address is the one that a text names: a leading `@` or a zero character marks the
/// abstract namespace.
pub open spec fn names(raw: Seq<char>, address: Address) -> bool {
    if raw.len() > 0 && (raw[0] == '@' || raw[0] == '\0') {
        address matches Address::Abstract(name) && name@ == raw.skip(1)
    } else {
        address matches Address::Path(path) && path@ == raw
    }
}

/// Half the time that a text gives, where it gives one.
pub open spec fn halved(raw: Seq<char>) -> Option<u64> {
    match natural_value(raw) {
        Some(usec) => if 0 < usec <= u64::MAX {
            Some((usec / 2) as u64)
        } else {
            None
        },
        None => None,
    }
}

impl Notifier {
    /// The notifier that the environment asks for, by the address of a socket and by how long
    /// systemd waits for a ping, in microseconds. Without a socket nothing is ever sent.
    pub fn from_env(notify_socket: Option<String>, watchdog_usec: Option<String>) -> (r: Notifier)
        ensures
            match notify_socket {
                Some(raw) => r.socket is Some && names(raw@, r.socket->0),
                None => r.socket is None,
            },
            r.watchdog_interval == (match watchdog_usec {
                Some(raw) => halved(raw@),
                None => None,
            }),
    {
        let socket: Option<Address> = match notify_socket {
            Some(raw) => {
                let marked: bool = raw.as_str().unicode_len() > 0 && {
                    let c: char = raw.as_str().get_char(0);
                    c == '@' || c == '\0'
                };
                if marked {
                    let n: usize = raw.as_str().unicode_len();
                    let name: String = raw.as_str().substring_char(1, n).to_owned();
                    assert(name@ =~= raw@.skip(1));
                    Some(Address::Abstract(name))
                } else {
                    Some(Address::Path(raw))
                }
            },
            None => None,
        };
        let watchdog_interval: Option<u64> = match watchdog_usec {
            Some(raw) => match parse_u64(raw.as_str()) {
                Some(usec) => if usec > 0 {
                    Some(usec / 2)
                } else {
                    None
                },
                None => None,
            },
            None => None,
        };
        Notifier { socket, watchdog_interval }
    }

    /// What to send: the message, where there is a socket to send it to.
    fn send(&self, message: &str) -> (r: Option<String>)
        ensures
            r is Some == self.socket is Some,
            r matches Some(m) ==> m@ == message@,
    {
        match self.socket {
            Some(_) => Some(message.to_owned()),
            None => None,
        }
    }

    /// What to send once the daemon drives the fans.
    pub fn ready(&self) -> (r: Option<String>)
        ensures
            r is Some == self.socket is Some,
            r matches Some(m) ==> m@ == "READY=1"@,
    {
        self.send("READY=1")
    }

    /// What to send to ping the watchdog, where there is one.
    pub fn watchdog(&self) -> (r: Option<String>)
        ensures
            r is Some == (self.socket is Some && self.watchdog_interval is Some),
            r matches Some(m) ==> m@ == "WATCHDOG=1"@,
    {
        if self.watchdog_interval.is_some() {
            self.send("WATCHDOG=1")
        } else {
            None
        }
    }

    /// What to send to say how things stand.
    pub fn status(&self, status: &str) -> (r: Option<String>)
        ensures
            r is Some == self.socket is Some,
            r matches Some(m) ==> m@ == "STATUS="@ + status@,
    {
        self.send(joined("STATUS=", status).as_str())
    }

    /// What to send before the fans are handed back.
    pub fn stopping(&self) -> (r: Option<String>)
        ensures
            r is Some == self.socket is Some,
            r matches Some(m) ==> m@ == "STOPPING=1"@,
    {
        self.send("STOPPING=1")
    }
}

/// The watchdog is pinged at least twice in the time that systemd waits.
pub proof fn law_the_watchdog_is_pinged_twice(raw: Seq<char>)
    ensures
        halved(raw) matches Some(interval) ==> 2 * interval <= natural_value(raw)->0,
{
}

/// An address that begins with `@` or a zero character is one in the abstract namespace, by the
/// name behind that; any other is a path, taken as it stands.
pub proof fn law_a_mark_tells_an_abstract_address(raw: Seq<char>, name: Seq<char>, address: Address)
    requires
        names(raw, address),
    ensures
        raw == seq!['@'] + name ==> address is Abstract && address->Abstract_0@ == name,
        raw == seq!['\0'] + name ==> address is Abstract && address->Abstract_0@ == name,
        raw.len() == 0 || (raw[0] != '@' && raw[0] != '\0') ==> address is Path
            && address->Path_0@ == raw,
{
    if raw == seq!['@'] + name || raw == seq!['\0'] + name {
        assert(raw.skip(1) =~= name);
    }
}

/// The watchdog is pinged at half the time that the environment gives in digits, rounded down;
/// and not at all where it gives nothing, no number, or one beyond the range of the type.
pub proof fn law_the_watchdog_is_pinged_at_half_its_time(usec: nat, raw: Seq<char>)
    ensures
        raw == decimal(usec) && 0 < usec <= u64::MAX ==> halved(raw) == Some((usec / 2) as u64),
        raw == decimal(usec) && (usec == 0 || usec > u64::MAX) ==> halved(raw) is None,
        natural_value(raw) is None ==> halved(raw) is None,
        halved(raw) matches Some(half) ==> natural_value(raw) is Some && (natural_value(raw)->0
            == 2 * half || natural_value(raw)->0 == 2 * half + 1),
{
    lemma_decimal_reads_back(usec);
    let s = decimal(usec);
    law_a_number_is_digits_behind_a_sign(s);
    assert(natural_value(s) == Some(usec as int));
}

} // verus!
