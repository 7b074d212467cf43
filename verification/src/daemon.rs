//! The control loop: what one poll reads, commands, writes and reports, and how the time until
//! the next one is slept through.
//!
//! Times are counted in nanoseconds from some point before the daemon started.
use crate::accuracy::{lemma_over_error, lemma_plus_error, lemma_rounded_error};
use crate::binary64::Binary64;
use crate::config::Config;
use crate::control::{
    approached, plausible, prevailing, reading_problem, sample_reports, Command, Governor, Problem,
    Reason, Sensor,
};
use crate::datum::{lemma_whole_order, magnitude, unit, Datum};
use crate::order::lemma_settled;
use crate::policy::{law_a_valid_configuration_can_always_step, lemma_product_sign_known};
use crate::rounding::{
    lemma_rounded_exact, lemma_rounded_monotone, lemma_spans, rounded, HALF_SPAN, SPAN,
};
use crate::sd::Notifier;
use crate::text::{decimal, decimal_text};
use vstd::arithmetic::power2::{
    lemma2_to64, lemma_pow2_adds, lemma_pow2_pos, lemma_pow2_strictly_increases, pow2,
};
use vstd::prelude::*;

verus! {

/// How many consecutive failed rounds of writes to give up after. A daemon that cannot write
/// holds the fans at whatever it last managed to command; leaving hands them back to the SMC.
pub const MAX_WRITE_FAILURES: u32 = 5;

/// How often to restate the current state when nothing has changed.
pub const HEARTBEAT: u128 = 300_000_000_000;

/// Signals are looked for this often, so that one is acted on promptly.
pub const SIGNAL_GRANULARITY: u128 = 100_000_000;

/// The speed to take over at: what the fans are doing, and the maximum where that is not known,
/// since guessing low on a hot machine is the expensive direction to be wrong in.
pub fn start_rpm(current: Option<u32>, max_rpm: u32) -> (r: u32)
    ensures
        r == (match current {
            Some(rpm) => rpm,
            None => max_rpm,
        }),
{
    match current {
        Some(rpm) => rpm,
        None => max_rpm,
    }
}

/// A time in seconds.
pub open spec fn elapsed(secs: u64, nanos: u32) -> Datum {
    Datum::nearest(secs as int).plus(Datum::whole(nanos as int).over(Datum::whole(1_000_000_000)))
}

/// A time in seconds.
pub fn seconds(secs: u64, nanos: u32) -> (r: Binary64)
    ensures
        r@ == elapsed(secs, nanos),
{
    Binary64::from_u64(secs).plus(Binary64::from_u32(nanos).over(Binary64::from_u32(1_000_000_000)))
}

/// A power of two is its own rounding.
proof fn lemma_power_rounded(k: nat, den: int)
    requires
        den > 0,
    ensures
        rounded(pow2(k) * den, den) == pow2(k),
{
    lemma_rounded_exact(1, k, den);
    assert(1 * pow2(k) == pow2(k));
}

/// A time is a finite number of seconds that is not negative.
pub proof fn law_time_does_not_run_backwards(secs: u64, nanos: u32)
    ensures
        elapsed(secs, nanos).is_finite(),
        Datum::whole(0).le(elapsed(secs, nanos)),
{
    let one = unit() as int;
    lemma_pow2_pos(1074);
    lemma_whole_order(0, 0);
    lemma2_to64();
    lemma_pow2_adds(64, 1074);
    lemma_pow2_adds(32, 1074);
    lemma_pow2_strictly_increases(1106, 1138);
    lemma_pow2_adds(1, 1138);
    lemma_pow2_strictly_increases(1139, 2098);
    // The whole seconds.
    let s = secs * one;
    assert(0 <= s <= pow2(1138)) by (nonlinear_arith)
        requires
            s == secs * one,
            0 <= secs < 0x1_0000_0000_0000_0000,
            one > 0,
            pow2(1138) == 0x1_0000_0000_0000_0000 * one,
    ;
    lemma_power_rounded(1138, 1);
    lemma_rounded_monotone(s, 1, pow2(1138) as int, 1);
    lemma_settled(false, s, 1);
    let whole = Datum::nearest(secs as int);
    assert(0 <= whole.place() <= pow2(1138) && whole.is_finite());
    // The fraction.
    let m = nanos * one;
    let den = 1_000_000_000 * one;
    assert(0 <= m * one && m * one * 1 <= pow2(1106) * den && den > 0) by (nonlinear_arith)
        requires
            m == nanos * one,
            den == 1_000_000_000 * one,
            0 <= nanos < 0x1_0000_0000,
            one > 0,
            pow2(1106) == 0x1_0000_0000 * one,
    ;
    assert((pow2(1106) * 1) * 1 == pow2(1106));
    lemma_power_rounded(1106, 1);
    lemma_rounded_monotone(m * one, den, pow2(1106) as int, 1);
    lemma_settled(false, m * one, den);
    lemma_whole_order(nanos as int, 1_000_000_000);
    let part = Datum::whole(nanos as int).over(Datum::whole(1_000_000_000));
    assert(0 <= part.place() <= pow2(1106) && part.is_finite());
    // Their sum.
    let sum = whole.place() + part.place();
    lemma_power_rounded(1139, 1);
    lemma_rounded_monotone(sum, 1, pow2(1139) as int, 1);
    lemma_settled(false, sum, 1);
}

/// The sensors once each has taken its reading.
pub open spec fn sampled_all(
    sensors: Seq<Sensor>,
    readings: Seq<Result<Binary64, String>>,
    range: [Binary64; 2],
    grace: u32,
) -> Seq<Sensor> {
    Seq::new(sensors.len(), |i: int| sensors[i].sampled(readings[i], range, grace))
}

/// That a command is to be written: it is far enough from what was last written, or urgent, or
/// the last round of writes failed. The deadband keeps the daemon off the SMC where nothing
/// meaningful changed; an outstanding failure is not left unreconciled for it.
pub open spec fn is_to_be_written(
    command: Command,
    written: Option<u32>,
    write_failures: u32,
    deadband_rpm: u32,
) -> bool {
    ||| written is None
    ||| written->0 - command.rpm >= deadband_rpm
    ||| command.rpm - written->0 >= deadband_rpm
    ||| command.reason.is_urgent()
    ||| write_failures > 0
}

/// What one poll gives.
pub struct Poll {
    /// The sensors that went bad, and how.
    pub reports: Vec<(String, Problem)>,
    pub command: Command,
    /// Whether the command is to be written to the fans.
    pub write: bool,
}

/// The state of the control loop.
pub struct Daemon {
    pub governor: Governor,
    pub deadband_rpm: u32,
    /// The speed that was last written to every fan.
    pub written: Option<u32>,
    /// How many rounds of writes have failed since one succeeded.
    pub write_failures: u32,
    /// The reason that was last reported, and when.
    pub last_reason: Option<Reason>,
    pub last_logged: u128,
}

impl Daemon {
    /// That the loop can take these readings, this long after the last ones.
    pub open spec fn takes(
        self,
        readings: Seq<Result<Binary64, String>>,
        secs: u64,
        nanos: u32,
    ) -> bool {
        &&& readings.len() == self.governor.sensors@.len()
        &&& forall|i: int|
            0 <= i < self.governor.sensors@.len() && reading_problem(
                readings[i],
                self.governor.plausible,
            ) is Some ==> (#[trigger] self.governor.sensors@[i]).consecutive_bad < u32::MAX
        &&& self.governor.limits(elapsed(secs, nanos))
    }

    /// The sensors once each has taken its reading.
    pub open spec fn sampled(self, readings: Seq<Result<Binary64, String>>) -> Seq<Sensor> {
        sampled_all(
            self.governor.sensors@,
            readings,
            self.governor.plausible,
            self.governor.grace,
        )
    }

    /// A loop that has not written or reported anything yet.
    pub fn new(governor: Governor, deadband_rpm: u32, now: u128) -> (r: Daemon)
        ensures
            r == (Daemon {
                governor,
                deadband_rpm,
                written: None,
                write_failures: 0,
                last_reason: None,
                last_logged: now,
            }),
    {
        Daemon {
            governor,
            deadband_rpm,
            written: None,
            write_failures: 0,
            last_reason: None,
            last_logged: now,
        }
    }

    /// Whether the loop can take these readings, this long after the last ones.
    pub fn can_poll(&self, readings: &Vec<Result<Binary64, String>>, secs: u64, nanos: u32) -> (r:
        bool)
        ensures
            r == self.takes(readings@, secs, nanos),
    {
        if readings.len() != self.governor.sensors.len() {
            return false;
        }
        let mut i: usize = 0;
        while i < self.governor.sensors.len()
            invariant
                i <= self.governor.sensors@.len(),
                readings@.len() == self.governor.sensors@.len(),
                forall|j: int|
                    0 <= j < i && reading_problem(readings@[j], self.governor.plausible) is Some
                        ==> (#[trigger] self.governor.sensors@[j]).consecutive_bad < u32::MAX,
            decreases self.governor.sensors@.len() - i,
        {
            let bad: bool = match &readings[i] {
                Ok(t) => !plausible(self.governor.plausible, *t),
                Err(_) => true,
            };
            if bad && self.governor.sensors[i].consecutive_bad == u32::MAX {
                assert(!(self.governor.sensors@[i as int].consecutive_bad < u32::MAX));
                return false;
            }
            i += 1;
        }
        self.governor.can_step(seconds(secs, nanos))
    }

    /// One poll: takes a reading of every sensor, in their order, so long after the last ones,
    /// and says what to command.
    pub fn poll(&mut self, readings: &Vec<Result<Binary64, String>>, secs: u64, nanos: u32) -> (r:
        Poll)
        requires
            old(self).governor.valid(),
            old(self).takes(readings@, secs, nanos),
        ensures
            ({
                let before = old(self).governor;
                let after = final(self).governor;
                let dt = elapsed(secs, nanos);
                let sensors = old(self).sampled(readings@);
                let (target, reason) = prevailing(sensors, dt, before.min_rpm@, before.max_rpm@);
                let speed = approached(
                    before.current@,
                    target,
                    reason.is_urgent(),
                    before.ramp_up@,
                    before.ramp_down@,
                    dt,
                    before.min_rpm@,
                    before.max_rpm@,
                );
                &&& r.reports@ == sample_reports(
                    before.sensors@,
                    readings@,
                    before.plausible,
                )
                &&& r.command.rpm == speed.whole_u32()
                &&& r.command.reason == reason
                &&& r.write == is_to_be_written(
                    r.command,
                    old(self).written,
                    old(self).write_failures,
                    old(self).deadband_rpm,
                )
                &&& after.valid()
                &&& after.same_settings(before)
                &&& after.current@ == speed
                &&& after.sensors@.len() == sensors.len()
                &&& forall|i: int|
                    0 <= i < sensors.len() ==> {
                        &&& (#[trigger] after.sensors@[i]).same_but_integral(sensors[i])
                        &&& after.sensors@[i].integral@ == sensors[i].integral_after(
                            dt,
                            before.min_rpm@,
                            before.max_rpm@,
                        )
                    }
            }),
            final(self).deadband_rpm == old(self).deadband_rpm,
            final(self).written == old(self).written,
            final(self).write_failures == old(self).write_failures,
            final(self).last_reason == old(self).last_reason,
            final(self).last_logged == old(self).last_logged,
    {
        let reports: Vec<(String, Problem)> = self.governor.sample(readings);
        assert(self.governor.sensors@ =~= old(self).sampled(readings@));
        let command: Command = self.governor.step(seconds(secs, nanos));
        let write: bool = self.wants_write(&command);
        Poll { reports, command, write }
    }

    /// Whether a command is to be written.
    pub fn wants_write(&self, command: &Command) -> (r: bool)
        ensures
            r == is_to_be_written(
                *command,
                self.written,
                self.write_failures,
                self.deadband_rpm,
            ),
    {
        let changed: bool = match self.written {
            None => true,
            Some(w) => if w < command.rpm {
                command.rpm - w >= self.deadband_rpm
            } else {
                w - command.rpm >= self.deadband_rpm
            },
        };
        changed || command.reason.urgent() || self.write_failures > 0
    }

    /// Takes the outcome of a round of writes; true means to give up. Losing one round is
    /// survivable; losing them persistently means that the fans are not driven at all.
    pub fn record_write(&mut self, rpm: u32, ok: bool) -> (r: bool)
        requires
            !ok ==> old(self).write_failures < u32::MAX,
        ensures
            *final(self) == old(self).recorded(rpm, ok),
            r == (!ok && final(self).write_failures >= MAX_WRITE_FAILURES),
    {
        if ok {
            self.written = Some(rpm);
            self.write_failures = 0;
            false
        } else {
            self.write_failures = self.write_failures + 1;
            self.write_failures >= MAX_WRITE_FAILURES
        }
    }

    /// The loop after a round of writes.
    pub open spec fn recorded(self, rpm: u32, ok: bool) -> Daemon {
        if ok {
            Daemon { written: Some(rpm), write_failures: 0, ..self }
        } else {
            Daemon { write_failures: (self.write_failures + 1) as u32, ..self }
        }
    }

    /// The loop after a run of rounds of writes, each of a speed and with its outcome.
    pub open spec fn recorded_all(self, rounds: Seq<(u32, bool)>) -> Daemon
        decreases rounds.len(),
    {
        if rounds.len() == 0 {
            self
        } else {
            self.recorded_all(rounds.drop_last()).recorded(rounds.last().0, rounds.last().1)
        }
    }

    /// That a command is to be reported: its reason is another than that last reported, or it is
    /// long since then.
    pub open spec fn is_news(self, command: Command, now: u128) -> bool {
        ||| !(self.last_reason matches Some(reason) && reason.same_as(command.reason))
        ||| now - self.last_logged >= HEARTBEAT
    }

    /// Whether a command is to be reported, in which case it counts as reported.
    pub fn log(&mut self, command: &Command, now: u128) -> (r: bool)
        ensures
            r == old(self).is_news(*command, now),
            *final(self) == (if r {
                Daemon {
                    last_reason: Some(command.reason),
                    last_logged: now,
                    ..*old(self)
                }
            } else {
                *old(self)
            }),
    {
        let changed: bool = match &self.last_reason {
            Some(reason) => !reason.same(&command.reason),
            None => true,
        };
        if changed || (now >= self.last_logged && now - self.last_logged >= HEARTBEAT) {
            self.last_reason = Some(command.reason.clone());
            self.last_logged = now;
            true
        } else {
            false
        }
    }

    /// Whether the daemon is in control of the fans. One that cannot write them is not healthy,
    /// however busy its loop is.
    pub fn healthy(&self) -> (r: bool)
        ensures
            r == (self.write_failures == 0),
    {
        self.write_failures == 0
    }

    /// What to send to the watchdog once a poll is done: nothing while the daemon is not healthy,
    /// so that it does not go on claiming that it is.
    pub fn ping(&self, notifier: &Notifier) -> (r: Option<String>)
        ensures
            r is Some == (self.write_failures == 0 && notifier.socket is Some
                && notifier.watchdog_interval is Some),
            r matches Some(m) ==> m@ == "WATCHDOG=1"@,
    {
        if self.healthy() {
            notifier.watchdog()
        } else {
            None
        }
    }

    /// How often to ping the watchdog while sleeping, in nanoseconds, given the interval it is to
    /// be pinged at, in microseconds: not at all while the daemon is not healthy.
    pub fn keepalive(&self, watchdog_interval: Option<u64>) -> (r: Option<u128>)
        ensures
            r == (match watchdog_interval {
                Some(usec) => if self.write_failures == 0 {
                    Some((usec * 1000) as u128)
                } else {
                    None
                },
                None => None,
            }),
    {
        match watchdog_interval {
            Some(usec) => if self.healthy() {
                Some(usec as u128 * 1000)
            } else {
                None
            },
            None => None,
        }
    }
}

/// The state of the fans in words.
pub open spec fn status_words(command: Command) -> Seq<char> {
    decimal(command.rpm as nat) + " rpm, "@ + command.reason.words()
}

/// The state of the fans in words.
pub fn status(command: &Command) -> (r: String)
    ensures
        r@ == status_words(*command),
{
    decimal_text(command.rpm as u64).concat(" rpm, ").concat(command.reason.describe().as_str())
}

/// An urgent command is always written, and so is any while the last round of writes failed.
pub proof fn law_urgency_and_failure_override_the_deadband(
    command: Command,
    written: Option<u32>,
    write_failures: u32,
    deadband_rpm: u32,
)
    requires
        command.reason.is_urgent() || write_failures > 0,
    ensures
        is_to_be_written(command, written, write_failures, deadband_rpm),
{
}

/// What the fans were last told is never as far as the deadband from what is commanded, once a
/// command has been written where it is to be.
pub proof fn law_the_fans_follow_the_command(
    command: Command,
    written: Option<u32>,
    write_failures: u32,
    deadband_rpm: u32,
)
    requires
        deadband_rpm > 0,
    ensures
        ({
            let after = if is_to_be_written(command, written, write_failures, deadband_rpm) {
                Some(command.rpm)
            } else {
                written
            };
            after matches Some(w) && w - command.rpm < deadband_rpm && command.rpm - w
                < deadband_rpm
        }),
{
}

/// The count of failed rounds of writes is as high as `n` exactly when the last `n` rounds all
/// failed: one success is enough to start over.
pub proof fn law_only_consecutive_failures_count(d: Daemon, rounds: Seq<(u32, bool)>, n: nat)
    requires
        d.write_failures == 0,
        rounds.len() < u32::MAX,
    ensures
        d.recorded_all(rounds).write_failures <= rounds.len(),
        d.recorded_all(rounds).write_failures >= n <==> (rounds.len() >= n && forall|i: int|
            rounds.len() - n <= i < rounds.len() ==> !(#[trigger] rounds[i]).1),
    decreases rounds.len(),
{
    if rounds.len() > 0 {
        let most = rounds.drop_last();
        let last = rounds.len() - 1;
        law_only_consecutive_failures_count(d, most, 0);
        if n > 0 {
            law_only_consecutive_failures_count(d, most, (n - 1) as nat);
            if !rounds[last].1 {
                if d.recorded_all(rounds).write_failures >= n {
                    assert forall|i: int| rounds.len() - n <= i < rounds.len() implies !(
                    #[trigger] rounds[i]).1 by {
                        if i < last {
                            assert(most[i] == rounds[i]);
                        }
                    }
                }
                if rounds.len() >= n && (forall|i: int|
                    rounds.len() - n <= i < rounds.len() ==> !(#[trigger] rounds[i]).1) {
                    assert forall|i: int| most.len() - (n - 1) <= i < most.len() implies !(
                    #[trigger] most[i]).1 by {
                        assert(most[i] == rounds[i]);
                    }
                }
            }
        }
    }
}

/// A daemon by a valid configuration can take the next poll whenever it comes, whether a moment
/// or a suspended night later.
pub proof fn law_every_poll_can_step(config: Config, governor: Governor, secs: u64, nanos: u32)
    requires
        config.problem() is None,
        governor.ramp_up == config.ramp_up_rpm_per_s,
        governor.ramp_down == config.ramp_down_rpm_per_s,
    ensures
        governor.limits(elapsed(secs, nanos)),
        governor.takes(elapsed(secs, nanos)),
{
    law_time_does_not_run_backwards(secs, nanos);
    law_a_valid_configuration_can_always_step(config, governor, elapsed(secs, nanos));
}

/// A sleep until a deadline, in slices, that keeps the watchdog fed. Pinging from here and not
/// once per poll is what lets the poll interval be longer than the watchdog's.
pub struct Nap {
    pub deadline: u128,
    /// How often to ping the watchdog, and when next.
    pub every: Option<u128>,
    pub next_ping: u128,
}

/// What a sleeper does next.
#[derive(Debug, Clone, Copy, PartialEq, Eq, Structural)]
pub enum NapStep {
    /// The sleep is over.
    Wake,
    /// Ping the watchdog, if so said, and then sleep this long.
    Sleep { ping: bool, nanos: u128 },
}

impl Nap {
    /// That the watchdog is to be pinged.
    pub open spec fn is_due(self, now: u128) -> bool {
        self.every is Some && now >= self.next_ping
    }

    /// How long to sleep before looking around again.
    pub open spec fn slice(self, now: u128) -> u128 {
        if self.deadline - now < SIGNAL_GRANULARITY {
            (self.deadline - now) as u128
        } else {
            SIGNAL_GRANULARITY
        }
    }

    /// The sleep once the watchdog has been pinged, where it was to be.
    pub open spec fn pinged(self, now: u128) -> Nap {
        if self.is_due(now) {
            Nap { next_ping: (now + self.every->0) as u128, ..self }
        } else {
            self
        }
    }

    /// A sleep that begins now.
    pub fn new(now: u128, deadline: u128, every: Option<u128>) -> (r: Nap)
        requires
            every matches Some(n) ==> now + n <= u128::MAX,
        ensures
            r.deadline == deadline,
            r.every == every,
            every matches Some(n) ==> r.next_ping == now + n,
    {
        Nap {
            deadline,
            every,
            next_ping: match every {
                Some(n) => now + n,
                None => 0,
            },
        }
    }

    /// What to do next; `stop` says that a signal asks the daemon to stop.
    pub fn step(&mut self, now: u128, stop: bool) -> (r: NapStep)
        requires
            !stop && now < old(self).deadline && old(self).is_due(now) ==> now + old(self).every->0
                <= u128::MAX,
        ensures
            if stop || now >= old(self).deadline {
                r == NapStep::Wake && *final(self) == *old(self)
            } else {
                &&& r == (NapStep::Sleep {
                    ping: old(self).is_due(now),
                    nanos: old(self).slice(now),
                })
                &&& *final(self) == old(self).pinged(now)
            },
    {
        if stop || now >= self.deadline {
            return NapStep::Wake;
        }
        let left: u128 = self.deadline - now;
        let ping: bool = match self.every {
            Some(n) => {
                let due: bool = now >= self.next_ping;
                if due {
                    self.next_ping = now + n;
                }
                due
            },
            None => false,
        };
        let nanos: u128 = if left < SIGNAL_GRANULARITY {
            left
        } else {
            SIGNAL_GRANULARITY
        };
        NapStep::Sleep { ping, nanos }
    }
}

/// A slice of sleep is not empty, does not run past the deadline, and is short enough for a
/// signal to be noticed.
pub proof fn law_a_slice_of_sleep_is_short(nap: Nap, now: u128)
    requires
        now < nap.deadline,
    ensures
        0 < nap.slice(now) <= SIGNAL_GRANULARITY,
        now + nap.slice(now) <= nap.deadline,
{
}

/// The watchdog is fed on its own schedule: after each look around the next ping lies ahead, by
/// no more than the interval, so that it is never later than by one slice of sleep.
pub proof fn law_the_watchdog_is_fed_on_its_own_schedule(nap: Nap, now: u128, interval: u128)
    requires
        nap.every == Some(interval),
        interval > 0,
        now + interval <= u128::MAX,
        nap.next_ping <= now + interval,
    ensures
        now < nap.pinged(now).next_ping <= now + interval,
{
}

/// A time is counted in seconds: a thousand million times as many nanoseconds, to within what the
/// format can tell.
pub proof fn law_a_time_is_counted_in_seconds(secs: u64, nanos: u32)
    ensures
        ({
            let exact = (secs * 1_000_000_000 + nanos) * unit();
            magnitude(elapsed(secs, nanos).place() * 1_000_000_000 - exact) * SPAN <= 4 * exact
                + SPAN * 1_000_000_000
        }),
{
    let one = unit() as int;
    let billion = 1_000_000_000int;
    lemma_pow2_pos(1074);
    lemma_whole_order(nanos as int, billion);
    lemma_whole_order(secs as int, 0);
    lemma2_to64();
    lemma_pow2_adds(64, 1074);
    lemma_pow2_adds(32, 1074);
    lemma_pow2_adds(1, 1138);
    lemma_pow2_strictly_increases(1106, 1138);
    lemma_pow2_strictly_increases(1139, 2097);
    lemma_pow2_strictly_increases(1138, 2098);
    // The whole seconds.
    let s = secs * one;
    assert(0 <= s <= pow2(1138)) by (nonlinear_arith)
        requires
            s == secs * one,
            0 <= secs < 0x1_0000_0000_0000_0000,
            one > 0,
            pow2(1138) == 0x1_0000_0000_0000_0000 * one,
    ;
    lemma_rounded_error(s, 1);
    lemma_power_rounded(1138, 1);
    lemma_rounded_monotone(s, 1, pow2(1138) as int, 1);
    lemma_settled(false, s, 1);
    let whole = Datum::nearest(secs as int);
    // The fraction.
    let m = nanos * one;
    let den = billion * one;
    assert(0 <= m && m * one <= pow2(2097) * den && m * one <= pow2(1106) * den && den > 0)
        by (nonlinear_arith)
        requires
            m == nanos * one,
            den == billion * one,
            billion == 1_000_000_000,
            0 <= nanos < 0x1_0000_0000,
            one > 0,
            pow2(1106) == 0x1_0000_0000 * one,
            pow2(1106) <= pow2(2097),
    ;
    let part = Datum::whole(nanos as int).over(Datum::whole(billion));
    lemma_over_error(Datum::whole(nanos as int), Datum::whole(billion));
    let p = part.place();
    let near = p * billion - m;
    assert(magnitude(near) * SPAN <= m + HALF_SPAN * billion) by {
        assert(p * den - m * one == near * one) by (nonlinear_arith)
            requires
                near == p * billion - m,
                den == billion * one,
        ;
        assert(magnitude(near * one) == magnitude(near) * one) by (nonlinear_arith)
            requires
                one > 0,
        ;
        assert(magnitude(near) * SPAN <= m + HALF_SPAN * billion) by (nonlinear_arith)
            requires
                (magnitude(near) * one) * SPAN <= m * one + HALF_SPAN * den,
                den == billion * one,
                one > 0,
        ;
    }
    assert(p <= pow2(1138)) by {
        assert(m <= 0x1_0000_0000 * one) by (nonlinear_arith)
            requires
                m == nanos * one,
                nanos < 0x1_0000_0000,
                one > 0,
        ;
        lemma_spans();
        lemma_pow2_strictly_increases(52, 1106);
    }
    // Their sum.
    let sum = whole.place() + p;
    lemma_plus_error(whole, part);
    let e = elapsed(secs, nanos).place();
    let exact = (secs * billion + nanos) * one;
    assert(exact == s * billion + m) by (nonlinear_arith)
        requires
            exact == (secs * billion + nanos) * one,
            s == secs * one,
            m == nanos * one,
    ;
}

/// What one round of writes changes: a success sets the speed that was written and clears the
/// count of failures, and a failure adds one to the count and leaves what was written.
pub proof fn law_a_round_of_writes_counts_once(d: Daemon, rpm: u32)
    requires
        d.write_failures < u32::MAX,
    ensures
        ({
            let good = d.recorded(rpm, true);
            let bad = d.recorded(rpm, false);
            &&& good.written == Some(rpm) && good.write_failures == 0
            &&& bad.written == d.written && bad.write_failures == d.write_failures + 1
            &&& good.governor == d.governor && bad.governor == d.governor
            &&& good.deadband_rpm == d.deadband_rpm && bad.deadband_rpm == d.deadband_rpm
            &&& good.last_reason == d.last_reason && bad.last_reason == d.last_reason
            &&& good.last_logged == d.last_logged && bad.last_logged == d.last_logged
        }),
{
}

/// A daemon gives up exactly once the last five rounds of writes have all failed.
pub proof fn law_five_failures_in_a_row_are_too_many(d: Daemon, rounds: Seq<(u32, bool)>)
    requires
        d.write_failures == 0,
        rounds.len() < u32::MAX,
    ensures
        d.recorded_all(rounds).write_failures >= MAX_WRITE_FAILURES <==> {
            &&& rounds.len() >= 5
            &&& forall|i: int| rounds.len() - 5 <= i < rounds.len() ==> !(#[trigger] rounds[i]).1
        },
        rounds.len() > 0 && rounds.last().1 ==> {
            &&& d.recorded_all(rounds).write_failures == 0
            &&& d.recorded_all(rounds).written == Some(rounds.last().0)
        },
{
    law_only_consecutive_failures_count(d, rounds, 5);
}

/// A command is written exactly where nothing was written yet, where it lies as far as the
/// deadband from what was, where it is urgent, or where the last round of writes failed.
pub proof fn law_a_command_is_written_where_it_has_to_be(
    command: Command,
    written: Option<u32>,
    write_failures: u32,
    deadband_rpm: u32,
)
    ensures
        is_to_be_written(command, written, write_failures, deadband_rpm) <==> {
            ||| written is None
            ||| magnitude(written->0 - command.rpm) >= deadband_rpm
            ||| command.reason is Critical
            ||| command.reason is Failed
            ||| write_failures > 0
        },
{
}

/// A command is reported exactly where none was yet, where its reason is another than that last
/// reported, or five minutes after that.
pub proof fn law_a_command_is_reported_on_a_change_or_after_five_minutes(
    d: Daemon,
    command: Command,
    now: u128,
)
    ensures
        d.is_news(command, now) <==> {
            ||| d.last_reason is None
            ||| now - d.last_logged >= 300_000_000_000
            ||| match (d.last_reason->0, command.reason) {
                (Reason::Idle, Reason::Idle) => false,
                (Reason::Steering(a), Reason::Steering(b)) => a@ != b@,
                (Reason::Critical(a), Reason::Critical(b)) => a@ != b@,
                (Reason::Failed(a), Reason::Failed(b)) => a@ != b@,
                _ => true,
            }
        },
{
}

/// A daemon whose ramps are finite and positive takes every poll that has a reading of each of
/// its sensors, however long after the last one, unless a bad reading would be one more than can
/// be counted. Each sensor takes its own reading.
pub proof fn law_a_daemon_takes_every_poll(
    d: Daemon,
    readings: Seq<Result<Binary64, String>>,
    secs: u64,
    nanos: u32,
)
    requires
        d.governor.ramp_up@ is Finite,
        d.governor.ramp_down@ is Finite,
        d.governor.ramp_up@.place() > 0,
        d.governor.ramp_down@.place() > 0,
    ensures
        ({
            let low = d.governor.plausible@[0]@;
            let high = d.governor.plausible@[1]@;
            d.takes(readings, secs, nanos) <==> {
                &&& readings.len() == d.governor.sensors@.len()
                &&& forall|i: int|
                    0 <= i < readings.len() ==> {
                        ||| (#[trigger] d.governor.sensors@[i]).consecutive_bad < u32::MAX
                        ||| readings[i] is Ok && ({
                            let t = readings[i]->Ok_0@;
                            &&& !(t is Nan) && !(low is Nan) && !(high is Nan)
                            &&& low.place() <= t.place() <= high.place()
                        })
                    }
            }
        }),
        d.sampled(readings).len() == d.governor.sensors@.len(),
        forall|i: int|
            0 <= i < d.governor.sensors@.len() ==> #[trigger] d.sampled(readings)[i]
                == d.governor.sensors@[i].sampled(
                readings[i],
                d.governor.plausible,
                d.governor.grace,
            ),
{
    let dt = elapsed(secs, nanos);
    law_time_does_not_run_backwards(secs, nanos);
    lemma_whole_order(0, 0);
    lemma_product_sign_known(d.governor.ramp_up@, dt);
    lemma_product_sign_known(d.governor.ramp_down@, dt);
}

/// A sleeper wakes at its deadline and looks around every tenth of a second until then, or at the
/// deadline where that comes first. It pings the watchdog, where there is one to ping, exactly
/// when the next ping is due, and then that is one interval from now.
pub proof fn law_a_sleeper_looks_around_every_tenth_of_a_second(nap: Nap, now: u128)
    requires
        now < nap.deadline,
        nap.every matches Some(n) ==> now + n <= u128::MAX,
    ensures
        nap.slice(now) == (if nap.deadline - now < 100_000_000 {
            nap.deadline - now
        } else {
            100_000_000
        }),
        nap.is_due(now) <==> nap.every is Some && nap.next_ping <= now,
        nap.pinged(now).deadline == nap.deadline,
        nap.pinged(now).every == nap.every,
        nap.pinged(now).next_ping == (if nap.every is Some && nap.next_ping <= now {
            now + nap.every->0
        } else {
            nap.next_ping as int
        }),
{
}

/// The state of the fans says the speed in rpm, and why.
pub proof fn law_the_state_says_the_speed_and_why(command: Command)
    ensures
        status_words(command) == decimal(command.rpm as nat) + " rpm, "@ + (match command.reason {
            Reason::Idle => "every sensor cold enough to ask for nothing"@,
            Reason::Steering(k) => "steering on "@ + k@,
            Reason::Critical(k) => k@ + " above critical"@,
            Reason::Failed(k) => k@ + " unreadable, failing safe"@,
        }),
{
}

} // verus!
