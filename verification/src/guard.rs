//! Taking the fans off the SMC's own curve, driving them, and giving them back.
//!
//! Once its curve is switched off the SMC keeps running whatever speed it was last told, so a
//! daemon that leaves without clearing the flag strands the fans.
use crate::fan::{fan_models, Fan, FanModel, Write, WriteModel};
use crate::sysfs::{speed_in, ReadError};
use crate::text::decimal;
use vstd::prelude::*;

verus! {

/// A write that failed twice, and why.
#[derive(Debug)]
pub struct Failure {
    /// Which write of the round it was.
    pub at: usize,
    pub first: String,
    pub second: String,
}

/// A round of writes, one after the other. A write that fails is tried once more: the SMC is
/// often busy, and one retry turns a failure into a delay.
#[derive(Debug)]
pub struct Round {
    pub writes: Vec<Write>,
    /// Whether the first write that fails twice ends the round.
    pub stops: bool,
    /// Which write is next.
    pub at: usize,
    /// Why the next write failed, where it is tried once more.
    pub retrying: Option<String>,
    pub failures: Vec<Failure>,
}

/// How far a round of `total` writes has come, and which of them have failed.
#[verifier::ext_equal]
pub struct Progress {
    pub total: nat,
    pub stops: bool,
    pub at: nat,
    pub retrying: bool,
    pub failed: Seq<nat>,
}

impl Progress {
    /// The progress of a round that has not begun.
    pub open spec fn start(total: nat, stops: bool) -> Progress {
        Progress { total, stops, at: 0, retrying: false, failed: Seq::empty() }
    }

    /// That the round is over.
    pub open spec fn is_over(self) -> bool {
        self.at >= self.total
    }

    /// The progress after an attempt.
    pub open spec fn after(self, ok: bool) -> Progress {
        if self.is_over() {
            self
        } else if ok {
            Progress { at: self.at + 1, retrying: false, ..self }
        } else if !self.retrying {
            Progress { retrying: true, ..self }
        } else {
            Progress {
                at: if self.stops {
                    self.total
                } else {
                    self.at + 1
                },
                retrying: false,
                failed: self.failed.push(self.at),
                ..self
            }
        }
    }

    /// The progress after a run of attempts.
    pub open spec fn after_all(self, outcomes: Seq<bool>) -> Progress
        decreases outcomes.len(),
    {
        if outcomes.len() == 0 {
            self
        } else {
            self.after_all(outcomes.drop_last()).after(outcomes.last())
        }
    }
}

impl View for Round {
    type V = Progress;

    open spec fn view(&self) -> Progress {
        Progress {
            total: self.writes@.len(),
            stops: self.stops,
            at: self.at as nat,
            retrying: self.retrying is Some,
            failed: self.failures@.map_values(|f: Failure| f.at as nat),
        }
    }
}

/// The models of a list of writes.
pub open spec fn write_models(writes: Seq<Write>) -> Seq<WriteModel> {
    writes.map_values(|w: Write| w@)
}

impl Round {
    /// That the failures are ones of writes of the round.
    pub open spec fn valid(self) -> bool {
        forall|i: int|
            0 <= i < self.failures@.len() ==> (#[trigger] self.failures@[i]).at
                < self.writes@.len()
    }

    /// That the round is what another becomes by the outcome of its next write.
    pub open spec fn follows(self, was: Round, outcome: Result<(), String>) -> bool {
        &&& self.writes == was.writes
        &&& self@ == was@.after(outcome is Ok)
        &&& match (outcome, was.retrying) {
            (Err(first), None) => self.retrying == Some(first) && self.failures == was.failures,
            (Err(second), Some(first)) => self.failures@ == was.failures@.push(
                Failure { at: was.at, first, second },
            ),
            (Ok(_), _) => self.failures == was.failures,
        }
    }

    /// A round that has not begun.
    pub fn new(writes: Vec<Write>, stops: bool) -> (r: Round)
        ensures
            r.writes == writes,
            r.valid(),
            r@ == Progress::start(writes@.len(), stops),
    {
        let r: Round = Round { writes, stops, at: 0, retrying: None, failures: Vec::new() };
        assert(r@ =~= Progress::start(writes@.len(), stops));
        r
    }

    /// What is to be written next; nothing when the round is over.
    pub fn next(&self) -> (r: Option<&Write>)
        ensures
            r is None == self@.is_over(),
            r matches Some(w) ==> *w == self.writes@[self.at as int],
    {
        if self.at < self.writes.len() {
            Some(&self.writes[self.at])
        } else {
            None
        }
    }

    /// Takes the outcome of the write that was next.
    pub fn record(&mut self, outcome: Result<(), String>)
        requires
            !old(self)@.is_over(),
        ensures
            final(self).follows(*old(self), outcome),
            old(self).valid() ==> final(self).valid(),
    {
        let total: usize = self.writes.len();
        match outcome {
            Ok(()) => {
                self.at = self.at + 1;
                self.retrying = None;
            },
            Err(e) => {
                let tried: Option<String> = self.retrying.take();
                match tried {
                    None => {
                        self.retrying = Some(e);
                    },
                    Some(first) => {
                        let at: usize = self.at;
                        self.failures.push(Failure { at, first, second: e });
                        self.at = if self.stops {
                            total
                        } else {
                            at + 1
                        };
                    },
                }
            },
        }
        assert(self@ =~= old(self)@.after(outcome is Ok));
    }

    /// Whether every write of a round that is over was made.
    pub fn succeeded(&self) -> (r: bool)
        ensures
            r == (self@.failed.len() == 0),
    {
        self.failures.len() == 0
    }
}

/// A write that fails once and then succeeds is one that succeeded.
pub proof fn law_a_retry_makes_good(p: Progress)
    requires
        !p.is_over(),
        !p.retrying,
    ensures
        p.after(false).after(true) == p.after(true),
{
    assert(p.after(false).after(true) =~= p.after(true));
}

/// A round is over after two attempts for each of its writes, at the latest.
pub proof fn law_a_round_ends(p: Progress, outcomes: Seq<bool>)
    requires
        !p.retrying,
        p.at <= p.total,
        outcomes.len() >= 2 * (p.total - p.at),
    ensures
        p.after_all(outcomes).is_over(),
{
    lemma_pace(p, outcomes);
}

proof fn lemma_pace(p: Progress, outcomes: Seq<bool>)
    requires
        !p.retrying,
        p.at <= p.total,
    ensures
        ({
            let q = p.after_all(outcomes);
            &&& q.total == p.total
            &&& q.stops == p.stops
            &&& q.at <= q.total
            &&& q.is_over() || 2 * q.at + (if q.retrying {
                1int
            } else {
                0int
            }) >= 2 * p.at + outcomes.len()
        }),
    decreases outcomes.len(),
{
    if outcomes.len() > 0 {
        lemma_pace(p, outcomes.drop_last());
    }
}

/// That the write `i` was attempted at the `k`th attempt.
pub open spec fn attempted(p: Progress, outcomes: Seq<bool>, i: nat, k: int) -> bool {
    &&& 0 <= k < outcomes.len()
    &&& p.after_all(outcomes.take(k)).at == i
}

/// A round leaves no write out: each that it has passed was attempted, and was made or is
/// among those that failed; unless the round was to stop at a failure, and one failed.
pub proof fn law_every_write_is_attempted(p: Progress, outcomes: Seq<bool>, i: nat)
    requires
        p.at <= i < p.after_all(outcomes).at,
        p.at <= p.total,
        i < p.total,
    ensures
        ({
            let q = p.after_all(outcomes);
            ||| p.stops && q.failed.len() > p.failed.len()
            ||| exists|k: int| #[trigger]
                attempted(p, outcomes, i, k) && (outcomes[k] || q.failed.contains(i))
        }),
    decreases outcomes.len(),
{
    let q = p.after_all(outcomes);
    if outcomes.len() > 0 {
        let most = outcomes.drop_last();
        let before = p.after_all(most);
        lemma_failures_stay(p, most);
        if i < before.at {
            law_every_write_is_attempted(p, most, i);
            if !(p.stops && before.failed.len() > p.failed.len()) {
                let k = choose|k: int| #[trigger]
                    attempted(p, most, i, k) && (most[k] || before.failed.contains(i));
                assert(most.take(k) =~= outcomes.take(k));
                assert(attempted(p, outcomes, i, k));
                if before.failed.contains(i) {
                    let j = choose|j: int| 0 <= j < before.failed.len() && before.failed[j] == i;
                    assert(q.failed[j] == i);
                }
            }
        } else {
            let k = outcomes.len() - 1;
            assert(outcomes.take(k) =~= most);
            if outcomes[k] {
                assert(attempted(p, outcomes, i, k));
            } else {
                assert(q.failed == before.failed.push(before.at));
                assert(q.failed[before.failed.len() as int] == before.at);
                if !p.stops {
                    assert(attempted(p, outcomes, i, k));
                }
            }
        }
    }
}

proof fn lemma_failures_stay(p: Progress, outcomes: Seq<bool>)
    ensures
        p.after_all(outcomes).failed.len() >= p.failed.len(),
        p.after_all(outcomes).stops == p.stops,
        p.after_all(outcomes).total == p.total,
    decreases outcomes.len(),
{
    if outcomes.len() > 0 {
        lemma_failures_stay(p, outcomes.drop_last());
    }
}

/// The fans that are driven.
#[derive(Debug)]
pub struct FanGuard {
    pub fans: Vec<Fan>,
}

/// The writes that hand every fan to software, or back to the SMC.
pub open spec fn control_writes(fans: Seq<FanModel>, software: bool) -> Seq<WriteModel> {
    fans.map_values(|f: FanModel| f.control_write(software))
}

/// The writes that command every fan to one speed.
pub open spec fn speed_writes(fans: Seq<FanModel>, rpm: u32) -> Seq<WriteModel> {
    fans.map_values(|f: FanModel| f.speed_write(rpm))
}

fn control_all(fans: &Vec<Fan>, software: bool) -> (r: Vec<Write>)
    ensures
        write_models(r@) == control_writes(fan_models(fans@), software),
{
    let mut writes: Vec<Write> = Vec::new();
    let mut i: usize = 0;
    while i < fans.len()
        invariant
            i <= fans@.len(),
            writes@.len() == i,
            forall|j: int|
                0 <= j < i ==> (#[trigger] writes@[j])@ == fans@[j]@.control_write(software),
        decreases fans@.len() - i,
    {
        writes.push(fans[i].set_software_control(software));
        i += 1;
    }
    assert(write_models(writes@) =~= control_writes(fan_models(fans@), software));
    writes
}

/// The fastest of the fans, unless one of them does not read.
pub open spec fn fastest(tachometers: Seq<Result<String, String>>) -> Option<u32>
    decreases tachometers.len(),
{
    if tachometers.len() == 0 {
        Some(0)
    } else {
        match (fastest(tachometers.drop_last()), speed_in(tachometers.last())) {
            (Some(a), Ok(b)) => Some(
                if a < b {
                    b
                } else {
                    a
                },
            ),
            _ => None,
        }
    }
}

impl FanGuard {
    /// The round that takes the fans off the SMC's own curve; it stops at a failure.
    pub fn take(&self) -> (r: Round)
        ensures
            write_models(r.writes@) == control_writes(fan_models(self.fans@), true),
            r.valid(),
            r@ == Progress::start(self.fans@.len(), true),
    {
        let writes: Vec<Write> = control_all(&self.fans, true);
        assert(write_models(writes@).len() == fan_models(self.fans@).len());
        Round::new(writes, true)
    }

    /// Takes the fans off the SMC's own curve, by the writes of a round that stops at a failure.
    pub fn engage(fans: Vec<Fan>) -> (r: (FanGuard, Round))
        ensures
            r.0.fans == fans,
            write_models(r.1.writes@) == control_writes(fan_models(fans@), true),
            r.1.valid(),
            r.1@ == Progress::start(fans@.len(), true),
    {
        let guard: FanGuard = FanGuard { fans };
        let round: Round = guard.take();
        (guard, round)
    }

    /// Gives the fans back to the SMC, by the writes of a round that goes on after a failure: one
    /// busy fan must not strand the rest.
    pub fn release(&self) -> (r: Round)
        ensures
            write_models(r.writes@) == control_writes(fan_models(self.fans@), false),
            r.valid(),
            r@ == Progress::start(self.fans@.len(), false),
    {
        let writes: Vec<Write> = control_all(&self.fans, false);
        assert(write_models(writes@).len() == fan_models(self.fans@).len());
        Round::new(writes, false)
    }

    /// What the fans are actually doing: the fastest of them, so that a handover never begins by
    /// slowing a fan that is already working. `None` unless every fan reads: a fan at idle is
    /// not the whole truth while one next to it, unreadable, is flat out.
    pub fn current_rpm(&self, tachometers: &Vec<Result<String, String>>) -> (r: Option<u32>)
        requires
            tachometers@.len() == self.fans@.len(),
        ensures
            r == fastest(tachometers@),
    {
        let mut r: Option<u32> = Some(0);
        let mut i: usize = 0;
        assert(tachometers@.take(0) =~= Seq::<Result<String, String>>::empty());
        while i < self.fans.len()
            invariant
                i <= self.fans@.len(),
                tachometers@.len() == self.fans@.len(),
                r == fastest(tachometers@.take(i as int)),
            decreases self.fans@.len() - i,
        {
            assert(tachometers@.take(i + 1).drop_last() =~= tachometers@.take(i as int));
            assert(tachometers@.take(i + 1).last() == tachometers@[i as int]);
            r = match (r, self.fans[i].rpm(&tachometers[i])) {
                (Some(a), Ok(b)) => Some(
                    if a < b {
                        b
                    } else {
                        a
                    },
                ),
                _ => None,
            };
            i += 1;
        }
        assert(tachometers@.take(i as int) =~= tachometers@);
        r
    }

    /// Commands every fan to one speed, by the writes of a round that stops at a failure.
    pub fn set_all(&self, rpm: u32) -> (r: Round)
        requires
            forall|i: int|
                0 <= i < self.fans@.len() ==> (#[trigger] self.fans@[i]).hw_min
                    <= self.fans@[i].hw_max,
        ensures
            write_models(r.writes@) == speed_writes(fan_models(self.fans@), rpm),
            r.valid(),
            r@ == Progress::start(self.fans@.len(), true),
    {
        let mut writes: Vec<Write> = Vec::new();
        let mut i: usize = 0;
        while i < self.fans.len()
            invariant
                i <= self.fans@.len(),
                writes@.len() == i,
                forall|j: int|
                    0 <= j < self.fans@.len() ==> (#[trigger] self.fans@[j]).hw_min
                        <= self.fans@[j].hw_max,
                forall|j: int|
                    0 <= j < i ==> (#[trigger] writes@[j])@ == self.fans@[j]@.speed_write(rpm),
            decreases self.fans@.len() - i,
        {
            writes.push(self.fans[i].set_rpm(rpm));
            i += 1;
        }
        assert(write_models(writes@) =~= speed_writes(fan_models(self.fans@), rpm));
        Round::new(writes, true)
    }

    /// The labels of the fans that a round did not give back.
    pub fn stranded(&self, round: &Round) -> (r: Vec<String>)
        requires
            round.valid(),
            round.writes@.len() == self.fans@.len(),
        ensures
            r@ == round.failures@.map_values(|f: Failure| self.fans@[f.at as int].label),
    {
        let mut labels: Vec<String> = Vec::new();
        let mut i: usize = 0;
        while i < round.failures.len()
            invariant
                i <= round.failures@.len(),
                labels@.len() == i,
                round.valid(),
                round.writes@.len() == self.fans@.len(),
                forall|j: int|
                    0 <= j < i ==> #[trigger] labels@[j]
                        == self.fans@[round.failures@[j].at as int].label,
            decreases round.failures@.len() - i,
        {
            labels.push(self.fans[round.failures[i].at].label.clone());
            i += 1;
        }
        assert(labels@ =~= round.failures@.map_values(
            |f: Failure| self.fans@[f.at as int].label,
        ));
        labels
    }
}

/// Giving the fans back attempts every one of them, even after another fails: once the round is
/// over, 0 was written to the control mode of each fan, or is among the writes that failed.
pub proof fn law_every_fan_is_given_back(fans: Seq<FanModel>, outcomes: Seq<bool>, i: int)
    requires
        0 <= i < fans.len(),
        Progress::start(fans.len(), false).after_all(outcomes).is_over(),
    ensures
        control_writes(fans, false)[i] == (WriteModel { path: fans[i].control_mode, text: "0"@ }),
        exists|k: int| #[trigger]
            attempted(Progress::start(fans.len(), false), outcomes, i as nat, k) && (outcomes[k]
                || Progress::start(fans.len(), false).after_all(outcomes).failed.contains(
                i as nat,
            )),
{
    let p = Progress::start(fans.len(), false);
    lemma_failures_stay(p, outcomes);
    law_every_write_is_attempted(p, outcomes, i as nat);
}

/// The speed to take over at is no less than that of any fan, and is known only where every
/// fan reads.
pub proof fn law_the_handover_slows_no_fan(tachometers: Seq<Result<String, String>>)
    ensures
        match fastest(tachometers) {
            Some(rpm) => forall|i: int|
                0 <= i < tachometers.len() ==> speed_in(#[trigger] tachometers[i]) is Ok
                    && speed_in(tachometers[i])->Ok_0 <= rpm,
            None => exists|i: int|
                0 <= i < tachometers.len() && speed_in(#[trigger] tachometers[i]) is Err,
        },
    decreases tachometers.len(),
{
    if tachometers.len() > 0 {
        let rest = tachometers.drop_last();
        law_the_handover_slows_no_fan(rest);
        match fastest(tachometers) {
            Some(rpm) => {
                assert forall|i: int| 0 <= i < tachometers.len() implies speed_in(
                    #[trigger] tachometers[i],
                ) is Ok && speed_in(tachometers[i])->Ok_0 <= rpm by {
                    if i < rest.len() {
                        assert(rest[i] == tachometers[i]);
                    }
                }
            },
            None => {
                if fastest(rest) is None {
                    let i = choose|i: int|
                        0 <= i < rest.len() && speed_in(#[trigger] rest[i]) is Err;
                    assert(tachometers[i] == rest[i]);
                } else {
                    assert(speed_in(tachometers[tachometers.len() - 1]) is Err);
                }
            },
        }
    }
}

/// What one attempt does to a round that is not over. A success goes on to the next write. A first
/// failure leaves the write to be tried once more. A second one counts the write among those that
/// failed, and then goes on to the next, or ends the round where it is to stop at a failure.
pub proof fn law_an_attempt_goes_on_or_is_tried_once_more(p: Progress)
    requires
        p.at < p.total,
    ensures
        ({
            let good = p.after(true);
            let bad = p.after(false);
            &&& good.at == p.at + 1 && !good.retrying && good.failed == p.failed
            &&& !p.retrying ==> bad.at == p.at && bad.retrying && bad.failed == p.failed
            &&& p.retrying ==> {
                &&& !bad.retrying
                &&& bad.failed == p.failed.push(p.at)
                &&& bad.at == (if p.stops {
                    p.total
                } else {
                    p.at + 1
                })
            }
            &&& good.total == p.total && bad.total == p.total
            &&& good.stops == p.stops && bad.stops == p.stops
        }),
{
}

/// A round in which every write succeeds at once is over after as many attempts as it has writes,
/// and none of them failed.
pub proof fn law_a_round_that_succeeds_takes_one_attempt_each(total: nat, stops: bool, n: nat)
    requires
        n <= total,
    ensures
        Progress::start(total, stops).after_all(Seq::new(n, |i: int| true)) == (Progress {
            total,
            stops,
            at: n,
            retrying: false,
            failed: Seq::empty(),
        }),
    decreases n,
{
    let p = Progress::start(total, stops);
    let all = Seq::new(n, |i: int| true);
    if n > 0 {
        let m = (n - 1) as nat;
        assert(all.drop_last() =~= Seq::new(m, |i: int| true));
        law_a_round_that_succeeds_takes_one_attempt_each(total, stops, m);
        assert(all.last());
    }
    assert(p.after_all(all) =~= (Progress {
        total,
        stops,
        at: n,
        retrying: false,
        failed: Seq::empty(),
    }));
}

/// What is kept of a write that failed: which one it was, and why it failed the first time and the
/// second. A round that follows another has the same writes.
pub proof fn law_a_failure_is_kept_with_both_its_causes(
    was: Round,
    round: Round,
    outcome: Result<(), String>,
)
    requires
        was.at < was.writes@.len(),
        round.follows(was, outcome),
    ensures
        round.writes == was.writes,
        round.stops == was.stops,
        outcome is Ok ==> round.at == was.at + 1 && round.retrying is None && round.failures
            == was.failures,
        outcome is Err && was.retrying is None ==> {
            &&& round.at == was.at
            &&& round.retrying == Some(outcome->Err_0)
            &&& round.failures == was.failures
        },
        outcome is Err && was.retrying is Some ==> {
            &&& round.retrying is None
            &&& round.failures@ == was.failures@.push(
                Failure { at: was.at, first: was.retrying->0, second: outcome->Err_0 },
            )
            &&& round.at == (if was.stops {
                was.writes@.len()
            } else {
                (was.at + 1) as nat
            })
        },
{
    law_an_attempt_goes_on_or_is_tried_once_more(was@);
}

/// The writes of a round are one for each fan, in order: 1 or 0 to its control mode, or to its
/// output the speed in digits, held to what the fan accepts.
pub proof fn law_each_fan_gets_its_own_write(fans: Seq<FanModel>, software: bool, rpm: u32, i: int)
    requires
        0 <= i < fans.len(),
    ensures
        control_writes(fans, software).len() == fans.len(),
        speed_writes(fans, rpm).len() == fans.len(),
        control_writes(fans, software)[i].path == fans[i].control_mode,
        control_writes(fans, software)[i].text == (if software {
            "1"@
        } else {
            "0"@
        }),
        speed_writes(fans, rpm)[i].path == fans[i].output,
        speed_writes(fans, rpm)[i].text == decimal(
            if rpm < fans[i].hw_min {
                fans[i].hw_min as nat
            } else if rpm > fans[i].hw_max {
                fans[i].hw_max as nat
            } else {
                rpm as nat
            },
        ),
{
}

/// The speed to take over at is that of one of the fans, unless there is none.
pub proof fn law_the_handover_is_at_the_speed_of_a_fan(tachometers: Seq<Result<String, String>>)
    ensures
        fastest(tachometers) matches Some(rpm) ==> {
            ||| tachometers.len() == 0 && rpm == 0
            ||| exists|i: int|
                0 <= i < tachometers.len() && speed_in(#[trigger] tachometers[i]) == Ok::<
                    u32,
                    ReadError,
                >(rpm)
        },
        (forall|i: int| 0 <= i < tachometers.len() ==> speed_in(#[trigger] tachometers[i]) is Ok)
            ==> fastest(tachometers) is Some,
    decreases tachometers.len(),
{
    law_the_handover_slows_no_fan(tachometers);
    if tachometers.len() > 0 && fastest(tachometers) is Some {
        let rest = tachometers.drop_last();
        let last = tachometers.len() - 1;
        law_the_handover_is_at_the_speed_of_a_fan(rest);
        let rpm = fastest(tachometers)->0;
        assert(tachometers.last() == tachometers[last]);
        if speed_in(tachometers[last]) != Ok::<u32, ReadError>(rpm) {
            if rest.len() > 0 {
                let i = choose|i: int|
                    0 <= i < rest.len() && speed_in(#[trigger] rest[i]) == Ok::<u32, ReadError>(
                        rpm,
                    );
                assert(tachometers[i] == rest[i]);
            }
        }
    }
}

/// The progress of a round is how far it has come, whether it is trying again and which of its
/// writes have failed; it is over where it has come to the end.
pub proof fn law_the_progress_of_a_round(round: Round, i: int)
    ensures
        round@.total == round.writes@.len(),
        round@.stops == round.stops,
        round@.at == round.at,
        round@.retrying == round.retrying is Some,
        round@.failed.len() == round.failures@.len(),
        0 <= i < round.failures@.len() ==> round@.failed[i] == round.failures@[i].at,
        round@.is_over() <==> round.at >= round.writes@.len(),
        0 <= i < round.writes@.len() ==> write_models(round.writes@)[i].path
            == round.writes@[i].path@ && write_models(round.writes@)[i].text
            == round.writes@[i].text@,
        write_models(round.writes@).len() == round.writes@.len(),
{
}

} // verus!
