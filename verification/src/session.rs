//! A session with the fans: taking the lock, taking the fans off the SMC's own curve, driving
//! them, giving them back, and only then letting go of the lock.
//!
//! The session says what to do next and is told how it went. However it comes to an end, by a
//! signal, by writes that fail, by a fan that cannot be taken over or by a panic, it is over only
//! once every fan has been given back.
use crate::fan::{fan_models, Fan, FanModel, Write};
use crate::guard::{
    control_writes, law_a_round_ends, speed_writes, write_models, FanGuard, Progress, Round,
};
use vstd::prelude::*;

verus! {

/// How far a session has come.
#[derive(Debug)]
pub enum Stage {
    /// Nothing has been done yet.
    Idle,
    /// The fans are being taken off the SMC's own curve.
    Engaging(Round),
    /// The fans are driven, and nothing is being written.
    Driving,
    /// A speed is being commanded.
    Commanding(Round),
    /// The fans are being given back.
    Releasing(Round),
    /// Every fan has been given back, and the lock is still held.
    Unlocking,
    /// Nothing is held.
    Over,
}

/// How far a session has come, its rounds by their progress.
pub enum StageModel {
    Idle,
    Engaging(Progress),
    Driving,
    Commanding(Progress),
    Releasing(Progress),
    Unlocking,
    Over,
}

impl View for Stage {
    type V = StageModel;

    open spec fn view(&self) -> StageModel {
        match *self {
            Stage::Idle => StageModel::Idle,
            Stage::Engaging(round) => StageModel::Engaging(round@),
            Stage::Driving => StageModel::Driving,
            Stage::Commanding(round) => StageModel::Commanding(round@),
            Stage::Releasing(round) => StageModel::Releasing(round@),
            Stage::Unlocking => StageModel::Unlocking,
            Stage::Over => StageModel::Over,
        }
    }
}

/// What a session is told.
pub enum Event {
    /// The lock was taken, or it was refused.
    Locked(bool),
    /// A write was attempted, and made or not.
    Wrote(bool),
    /// A speed is to be commanded.
    Command,
    /// The session is to end.
    End,
    /// The lock was let go of.
    Unlocked,
}

/// What is done to the lock and to the fans.
pub enum Deed {
    Lock,
    /// A fan is handed to software.
    Take(nat),
    /// A fan is commanded to a speed.
    Speed(nat),
    /// A fan is given back to the SMC.
    Give(nat),
    Unlock,
}

/// The stage of a round that takes over `n` fans, or the one behind it.
pub open spec fn engaging(n: nat) -> StageModel {
    if n == 0 {
        StageModel::Driving
    } else {
        StageModel::Engaging(Progress::start(n, true))
    }
}

/// The stage of a round that gives `n` fans back, or the one behind it.
pub open spec fn releasing(n: nat) -> StageModel {
    if n == 0 {
        StageModel::Unlocking
    } else {
        StageModel::Releasing(Progress::start(n, false))
    }
}

impl StageModel {
    /// The stage that follows when a session with `n` fans is told something. What does not fit
    /// the stage changes nothing.
    pub open spec fn after(self, n: nat, event: Event) -> StageModel {
        match (self, event) {
            (StageModel::Idle, Event::Locked(ok)) => if ok {
                engaging(n)
            } else {
                StageModel::Over
            },
            (StageModel::Idle, Event::End) => StageModel::Over,
            (StageModel::Engaging(p), Event::Wrote(ok)) => {
                let q = p.after(ok);
                if !q.is_over() {
                    StageModel::Engaging(q)
                } else if q.failed.len() == 0 {
                    StageModel::Driving
                } else {
                    releasing(n)
                }
            },
            (StageModel::Commanding(p), Event::Wrote(ok)) => {
                let q = p.after(ok);
                if !q.is_over() {
                    StageModel::Commanding(q)
                } else {
                    StageModel::Driving
                }
            },
            (StageModel::Releasing(p), Event::Wrote(ok)) => {
                let q = p.after(ok);
                if !q.is_over() {
                    StageModel::Releasing(q)
                } else {
                    StageModel::Unlocking
                }
            },
            (StageModel::Driving, Event::Command) => if n == 0 {
                StageModel::Driving
            } else {
                StageModel::Commanding(Progress::start(n, true))
            },
            (StageModel::Engaging(_), Event::End) => releasing(n),
            (StageModel::Driving, Event::End) => releasing(n),
            (StageModel::Commanding(_), Event::End) => releasing(n),
            (StageModel::Unlocking, Event::Unlocked) => StageModel::Over,
            _ => self,
        }
    }

    /// What was done when a session at this stage is told something.
    pub open spec fn done(self, event: Event) -> Option<Deed> {
        match (self, event) {
            (StageModel::Idle, Event::Locked(ok)) => if ok {
                Some(Deed::Lock)
            } else {
                None
            },
            (StageModel::Engaging(p), Event::Wrote(_)) => Some(Deed::Take(p.at)),
            (StageModel::Commanding(p), Event::Wrote(_)) => Some(Deed::Speed(p.at)),
            (StageModel::Releasing(p), Event::Wrote(_)) => Some(Deed::Give(p.at)),
            (StageModel::Unlocking, Event::Unlocked) => Some(Deed::Unlock),
            _ => None,
        }
    }

    /// That a round with `n` fans is under way, as its stage has it, and not over.
    pub open spec fn valid(self, n: nat) -> bool {
        match self {
            StageModel::Engaging(p) => p.total == n && p.stops && !p.is_over(),
            StageModel::Commanding(p) => p.total == n && p.stops && !p.is_over(),
            StageModel::Releasing(p) => p.total == n && !p.stops && !p.is_over(),
            _ => true,
        }
    }
}

/// What a session is to do next.
#[derive(Debug)]
pub enum Next<'a> {
    /// Take the lock.
    Lock,
    /// Make this write.
    Write(&'a Write),
    /// Poll, and then command a speed or end.
    Decide,
    /// Let go of the lock.
    Unlock,
    /// Nothing: it is over.
    Rest,
}

/// A session with the fans.
#[derive(Debug)]
pub struct Session {
    pub guard: FanGuard,
    pub stage: Stage,
}

impl Session {
    /// The fans of the session.
    pub open spec fn fans(self) -> Seq<FanModel> {
        fan_models(self.guard.fans@)
    }

    /// That a round under way writes what its stage is for, to every fan in order.
    pub open spec fn valid(self) -> bool {
        &&& self.stage@.valid(self.guard.fans@.len())
        &&& match self.stage {
            Stage::Engaging(round) => round.valid() && write_models(round.writes@)
                == control_writes(self.fans(), true),
            Stage::Commanding(round) => round.valid() && exists|rpm: u32|
                write_models(round.writes@) == #[trigger] speed_writes(self.fans(), rpm),
            Stage::Releasing(round) => round.valid() && write_models(round.writes@)
                == control_writes(self.fans(), false),
            _ => true,
        }
    }

    /// A session that has done nothing yet.
    pub fn new(fans: Vec<Fan>) -> (r: Session)
        ensures
            r.valid(),
            r.guard.fans == fans,
            r.stage is Idle,
    {
        Session { guard: FanGuard { fans }, stage: Stage::Idle }
    }

    /// What to do next.
    pub fn next(&self) -> (r: Next<'_>)
        requires
            self.valid(),
        ensures
            match self.stage {
                Stage::Idle => r is Lock,
                Stage::Engaging(round) => {
                    &&& r matches Next::Write(w)
                    &&& *w == round.writes@[round.at as int]
                    &&& w@ == self.fans()[round.at as int].control_write(true)
                },
                Stage::Driving => r is Decide,
                Stage::Commanding(round) => {
                    &&& r matches Next::Write(w)
                    &&& *w == round.writes@[round.at as int]
                    &&& exists|rpm: u32|
                        w@ == #[trigger] self.fans()[round.at as int].speed_write(rpm)
                },
                Stage::Releasing(round) => {
                    &&& r matches Next::Write(w)
                    &&& *w == round.writes@[round.at as int]
                    &&& w@ == self.fans()[round.at as int].control_write(false)
                },
                Stage::Unlocking => r is Unlock,
                Stage::Over => r is Rest,
            },
    {
        match &self.stage {
            Stage::Idle => Next::Lock,
            Stage::Engaging(round) => {
                assert(write_models(round.writes@)[round.at as int]
                    == round.writes@[round.at as int]@);
                Next::Write(&round.writes[round.at])
            },
            Stage::Driving => Next::Decide,
            Stage::Commanding(round) => {
                proof {
                    let rpm = choose|rpm: u32|
                        write_models(round.writes@) == #[trigger] speed_writes(self.fans(), rpm);
                    assert(write_models(round.writes@)[round.at as int]
                        == round.writes@[round.at as int]@);
                    assert(speed_writes(self.fans(), rpm)[round.at as int]
                        == self.fans()[round.at as int].speed_write(rpm));
                }
                Next::Write(&round.writes[round.at])
            },
            Stage::Releasing(round) => {
                assert(write_models(round.writes@)[round.at as int]
                    == round.writes@[round.at as int]@);
                Next::Write(&round.writes[round.at])
            },
            Stage::Unlocking => Next::Unlock,
            Stage::Over => Next::Rest,
        }
    }

    /// Says whether the lock was taken. Where it was refused, someone else has the fans, and
    /// none is touched.
    pub fn locked(&mut self, ok: bool)
        requires
            old(self).valid(),
            old(self).stage is Idle,
        ensures
            final(self).valid(),
            final(self).guard == old(self).guard,
            final(self).stage@ == old(self).stage@.after(
                old(self).guard.fans@.len(),
                Event::Locked(ok),
            ),
    {
        if !ok {
            self.stage = Stage::Over;
        } else if self.guard.fans.len() == 0 {
            self.stage = Stage::Driving;
        } else {
            self.stage = Stage::Engaging(self.guard.take());
        }
    }

    /// Takes the outcome of the write that was next. Gives the round back where that ends it.
    pub fn wrote(&mut self, outcome: Result<(), String>) -> (r: Option<Round>)
        requires
            old(self).valid(),
            old(self).stage is Engaging || old(self).stage is Commanding
                || old(self).stage is Releasing,
        ensures
            final(self).valid(),
            final(self).guard == old(self).guard,
            final(self).stage@ == old(self).stage@.after(
                old(self).guard.fans@.len(),
                Event::Wrote(outcome is Ok),
            ),
            match (old(self).stage, r) {
                (Stage::Engaging(was), Some(round)) => round.follows(was, outcome)
                    && round@.is_over(),
                (Stage::Commanding(was), Some(round)) => round.follows(was, outcome)
                    && round@.is_over(),
                (Stage::Releasing(was), Some(round)) => round.follows(was, outcome)
                    && round@.is_over(),
                (Stage::Engaging(was), None) => final(self).stage matches Stage::Engaging(round)
                    && round.follows(was, outcome),
                (Stage::Commanding(was), None) => final(self).stage matches Stage::Commanding(round)
                    && round.follows(was, outcome),
                (Stage::Releasing(was), None) => final(self).stage matches Stage::Releasing(round)
                    && round.follows(was, outcome),
                _ => true,
            },
    {
        let mut stage: Stage = Stage::Over;
        std::mem::swap(&mut stage, &mut self.stage);
        match stage {
            Stage::Engaging(was) => {
                let mut round: Round = was;
                round.record(outcome);
                if round.next().is_some() {
                    self.stage = Stage::Engaging(round);
                    None
                } else {
                    if round.succeeded() {
                        self.stage = Stage::Driving;
                    } else {
                        self.stage = self.giving_back();
                    }
                    Some(round)
                }
            },
            Stage::Commanding(was) => {
                let mut round: Round = was;
                round.record(outcome);
                if round.next().is_some() {
                    self.stage = Stage::Commanding(round);
                    assert(self.fans() == old(self).fans());
                    None
                } else {
                    self.stage = Stage::Driving;
                    Some(round)
                }
            },
            Stage::Releasing(was) => {
                let mut round: Round = was;
                round.record(outcome);
                if round.next().is_some() {
                    self.stage = Stage::Releasing(round);
                    None
                } else {
                    self.stage = Stage::Unlocking;
                    Some(round)
                }
            },
            other => {
                self.stage = other;
                None
            },
        }
    }

    /// Commands every fan to one speed.
    pub fn command(&mut self, rpm: u32)
        requires
            old(self).valid(),
            old(self).stage is Driving,
            forall|i: int|
                0 <= i < old(self).guard.fans@.len() ==> (
                #[trigger] old(self).guard.fans@[i]).hw_min <= old(self).guard.fans@[i].hw_max,
        ensures
            final(self).valid(),
            final(self).guard == old(self).guard,
            final(self).stage@ == old(self).stage@.after(
                old(self).guard.fans@.len(),
                Event::Command,
            ),
            final(self).stage matches Stage::Commanding(round) ==> write_models(round.writes@)
                == speed_writes(old(self).fans(), rpm),
    {
        if self.guard.fans.len() > 0 {
            let round: Round = self.guard.set_all(rpm);
            self.stage = Stage::Commanding(round);
            assert(write_models(round.writes@) == speed_writes(self.fans(), rpm));
        }
    }

    /// The stage in which the fans are given back.
    fn giving_back(&self) -> (r: Stage)
        ensures
            r@ == releasing(self.guard.fans@.len()),
            (Session { guard: self.guard, stage: r }).valid(),
    {
        if self.guard.fans.len() == 0 {
            Stage::Unlocking
        } else {
            Stage::Releasing(self.guard.release())
        }
    }

    /// Ends the session, from whatever stage it is at: fans that may have been taken over are
    /// given back, and a hand-back that is under way goes on.
    pub fn end(&mut self)
        requires
            old(self).valid(),
        ensures
            final(self).valid(),
            final(self).guard == old(self).guard,
            final(self).stage@ == old(self).stage@.after(old(self).guard.fans@.len(), Event::End),
    {
        let held: bool = match &self.stage {
            Stage::Engaging(_) => true,
            Stage::Driving => true,
            Stage::Commanding(_) => true,
            _ => false,
        };
        let idle: bool = match &self.stage {
            Stage::Idle => true,
            _ => false,
        };
        if held {
            self.stage = self.giving_back();
        } else if idle {
            self.stage = Stage::Over;
        }
    }

    /// Says that the lock was let go of.
    pub fn unlocked(&mut self)
        requires
            old(self).valid(),
            old(self).stage is Unlocking,
        ensures
            final(self).valid(),
            final(self).guard == old(self).guard,
            final(self).stage@ == old(self).stage@.after(
                old(self).guard.fans@.len(),
                Event::Unlocked,
            ),
    {
        self.stage = Stage::Over;
    }
}

/// The stage of a session with `n` fans that was told all this.
pub open spec fn stage_after(n: nat, events: Seq<Event>) -> StageModel
    decreases events.len(),
{
    if events.len() == 0 {
        StageModel::Idle
    } else {
        stage_after(n, events.drop_last()).after(n, events.last())
    }
}

/// What was done by then, in order.
pub open spec fn deeds(n: nat, events: Seq<Event>) -> Seq<Deed>
    decreases events.len(),
{
    if events.len() == 0 {
        Seq::empty()
    } else {
        let before = deeds(n, events.drop_last());
        match stage_after(n, events.drop_last()).done(events.last()) {
            Some(deed) => before.push(deed),
            None => before,
        }
    }
}

/// That a fan was given back and not taken again.
pub open spec fn is_given_back(deeds: Seq<Deed>, fan: nat) -> bool {
    exists|k: int|
        0 <= k < deeds.len() && #[trigger] deeds[k] == Deed::Give(fan) && forall|j: int|
            k < j < deeds.len() ==> #[trigger] deeds[j] != Deed::Take(fan)
}

/// That everything was done with the lock held: it was taken first, and it was let go of, if it
/// was, last.
pub open spec fn is_locked_throughout(deeds: Seq<Deed>) -> bool {
    &&& deeds.len() > 0 ==> deeds[0] == Deed::Lock
    &&& forall|k: int| 0 < k < deeds.len() ==> #[trigger] deeds[k] != Deed::Lock
    &&& forall|k: int| 0 <= k < deeds.len() - 1 ==> #[trigger] deeds[k] != Deed::Unlock
}

/// What holds of a session at each stage.
spec fn is_in_order(n: nat, stage: StageModel, done: Seq<Deed>) -> bool {
    let held = done.len() > 0 && done.last() != Deed::Unlock;
    &&& stage.valid(n)
    &&& is_locked_throughout(done)
    &&& match stage {
        StageModel::Idle => done.len() == 0,
        StageModel::Releasing(p) => held && forall|i: nat| i < p.at ==> is_given_back(done, i),
        StageModel::Unlocking => held && forall|i: nat| i < n ==> is_given_back(done, i),
        StageModel::Over => done.len() == 0 || (done.last() == Deed::Unlock && forall|i: nat|
            i < n ==> is_given_back(done, i)),
        _ => held,
    }
}

/// What was given back stays so, whatever is done next but taking it again.
proof fn lemma_stays_given(done: Seq<Deed>, deed: Deed, fan: nat)
    requires
        is_given_back(done, fan) || deed == Deed::Give(fan),
        deed != Deed::Take(fan),
    ensures
        is_given_back(done.push(deed), fan),
{
    let all = done.push(deed);
    if deed == Deed::Give(fan) {
        assert(all[done.len() as int] == Deed::Give(fan));
    } else {
        let k = choose|k: int|
            0 <= k < done.len() && #[trigger] done[k] == Deed::Give(fan) && forall|j: int|
                k < j < done.len() ==> #[trigger] done[j] != Deed::Take(fan);
        assert(all[k] == Deed::Give(fan));
        assert forall|j: int| k < j < all.len() implies #[trigger] all[j] != Deed::Take(fan) by {
            if j < done.len() {
                assert(all[j] == done[j]);
            }
        }
    }
}

proof fn lemma_in_order(n: nat, events: Seq<Event>)
    ensures
        is_in_order(n, stage_after(n, events), deeds(n, events)),
    decreases events.len(),
{
    if events.len() > 0 {
        let rest = events.drop_last();
        lemma_in_order(n, rest);
        let stage = stage_after(n, rest);
        let event = events.last();
        let before = deeds(n, rest);
        let after = deeds(n, events);
        let next = stage.after(n, event);
        if let Some(deed) = stage.done(event) {
            assert(after == before.push(deed));
            assert forall|k: int| 0 < k < after.len() implies #[trigger] after[k]
                != Deed::Lock by {
                if k < before.len() {
                    assert(after[k] == before[k]);
                }
            }
            assert forall|k: int| 0 <= k < after.len() - 1 implies #[trigger] after[k]
                != Deed::Unlock by {
                assert(after[k] == before[k]);
                if k == before.len() - 1 {
                    assert(before.last() == before[k]);
                }
            }
            if before.len() > 0 {
                assert(after[0] == before[0]);
            }
            assert(after.last() == deed);
            match (stage, event) {
                (StageModel::Releasing(p), Event::Wrote(ok)) => {
                    let q = p.after(ok);
                    assert forall|i: nat| i < q.at implies is_given_back(after, i) by {
                        lemma_stays_given(before, deed, i);
                    }
                },
                (StageModel::Unlocking, Event::Unlocked) => {
                    assert forall|i: nat| i < n implies is_given_back(after, i) by {
                        lemma_stays_given(before, deed, i);
                    }
                },
                _ => {},
            }
        }
    }
}

/// No fan is written to before the lock is held, nor after it is let go of, whatever a session
/// is told.
pub proof fn law_no_fan_is_touched_without_the_lock(n: nat, events: Seq<Event>)
    ensures
        is_locked_throughout(deeds(n, events)),
{
    lemma_in_order(n, events);
}

/// Every ending gives the fans back. Once a session that took the lock is over, whatever it was
/// told on the way there, the last thing that was tried on the control mode of each fan was to
/// give the fan back, for each even where it failed for another, and while the lock was held,
/// which was let go of last.
pub proof fn law_every_ending_gives_the_fans_back(n: nat, events: Seq<Event>, fan: nat)
    requires
        stage_after(n, events) is Over,
        deeds(n, events).len() > 0,
        fan < n,
    ensures
        is_given_back(deeds(n, events), fan),
        deeds(n, events)[0] == Deed::Lock,
        deeds(n, events).last() == Deed::Unlock,
{
    lemma_in_order(n, events);
}

/// A session that was never given the lock touches nothing.
pub proof fn law_a_refused_lock_touches_nothing(n: nat, events: Seq<Event>)
    requires
        events.len() > 0,
        events[0] == Event::Locked(false),
    ensures
        stage_after(n, events) is Over,
        deeds(n, events).len() == 0,
    decreases events.len(),
{
    if events.len() > 1 {
        assert(events.drop_last()[0] == events[0]);
        law_a_refused_lock_touches_nothing(n, events.drop_last());
    } else {
        assert(stage_after(n, events.drop_last()) is Idle);
        assert(deeds(n, events.drop_last()).len() == 0);
        assert(events.last() == events[0]);
    }
}

/// The stage of a session that was told of these writes.
pub open spec fn stage_after_writes(stage: StageModel, n: nat, outcomes: Seq<bool>) -> StageModel
    decreases outcomes.len(),
{
    if outcomes.len() == 0 {
        stage
    } else {
        stage_after_writes(stage, n, outcomes.drop_last()).after(
            n,
            Event::Wrote(outcomes.last()),
        )
    }
}

proof fn lemma_release_follows(n: nat, outcomes: Seq<bool>)
    requires
        n > 0,
    ensures
        stage_after_writes(releasing(n), n, outcomes) == ({
            let p = Progress::start(n, false).after_all(outcomes);
            if p.is_over() {
                StageModel::Unlocking
            } else {
                StageModel::Releasing(p)
            }
        }),
    decreases outcomes.len(),
{
    if outcomes.len() > 0 {
        lemma_release_follows(n, outcomes.drop_last());
    }
}

/// An ending comes to its end: told to end while it holds the fans, a session has given all of
/// them back after two attempts for each at the latest, and then lets go of the lock.
pub proof fn law_a_hand_back_ends(stage: StageModel, n: nat, outcomes: Seq<bool>)
    requires
        stage is Engaging || stage is Driving || stage is Commanding,
        outcomes.len() >= 2 * n,
    ensures
        stage_after_writes(stage.after(n, Event::End), n, outcomes) is Unlocking,
    decreases outcomes.len(),
{
    if n == 0 {
        lemma_unlocking_stays(n, outcomes);
    } else {
        lemma_release_follows(n, outcomes);
        law_a_round_ends(Progress::start(n, false), outcomes);
    }
}

proof fn lemma_unlocking_stays(n: nat, outcomes: Seq<bool>)
    ensures
        stage_after_writes(StageModel::Unlocking, n, outcomes) is Unlocking,
    decreases outcomes.len(),
{
    if outcomes.len() > 0 {
        lemma_unlocking_stays(n, outcomes.drop_last());
    }
}

/// What follows at each stage, for a session with a fan or more: the lock leads to taking the
/// fans over, and its refusal to the end; a round goes on until it is over, and leads to driving
/// where the fans were taken over or commanded, even where a command failed, to giving them back
/// where one could not be taken over, and to letting go of the lock where they were given back.
/// Told to end, a session that may hold a fan gives all of them back. All else changes nothing.
pub proof fn law_what_follows_at_each_stage(stage: StageModel, n: nat, ok: bool)
    requires
        n > 0,
    ensures
        StageModel::Idle.after(n, Event::Locked(true)) == StageModel::Engaging(
            Progress { total: n, stops: true, at: 0, retrying: false, failed: Seq::empty() },
        ),
        StageModel::Idle.after(n, Event::Locked(false)) is Over,
        StageModel::Idle.after(n, Event::End) is Over,
        StageModel::Driving.after(n, Event::Command) == StageModel::Commanding(
            Progress { total: n, stops: true, at: 0, retrying: false, failed: Seq::empty() },
        ),
        StageModel::Unlocking.after(n, Event::Unlocked) is Over,
        stage is Engaging || stage is Driving || stage is Commanding ==> stage.after(n, Event::End)
            == StageModel::Releasing(
            Progress { total: n, stops: false, at: 0, retrying: false, failed: Seq::empty() },
        ),
        stage matches StageModel::Engaging(p) ==> {
            let q = p.after(ok);
            let next = stage.after(n, Event::Wrote(ok));
            &&& q.at < q.total ==> next == StageModel::Engaging(q)
            &&& q.at >= q.total && q.failed.len() == 0 ==> next is Driving
            &&& q.at >= q.total && q.failed.len() > 0 ==> next == stage.after(n, Event::End)
        },
        stage matches StageModel::Commanding(p) ==> {
            let q = p.after(ok);
            stage.after(n, Event::Wrote(ok)) == (if q.at < q.total {
                StageModel::Commanding(q)
            } else {
                StageModel::Driving
            })
        },
        stage matches StageModel::Releasing(p) ==> {
            let q = p.after(ok);
            &&& stage.after(n, Event::Wrote(ok)) == (if q.at < q.total {
                StageModel::Releasing(q)
            } else {
                StageModel::Unlocking
            })
            &&& stage.after(n, Event::End) == stage
        },
        !(stage is Idle) ==> stage.after(n, Event::Locked(ok)) == stage,
        !(stage is Driving) ==> stage.after(n, Event::Command) == stage,
        !(stage is Unlocking) ==> stage.after(n, Event::Unlocked) == stage,
        stage is Unlocking || stage is Over ==> stage.after(n, Event::End) == stage,
        stage is Idle || stage is Driving || stage is Unlocking || stage is Over ==> stage.after(
            n,
            Event::Wrote(ok),
        ) == stage,
{
}

/// A session without fans has nothing to take over, to command or to give back.
pub proof fn law_a_session_without_fans_writes_nothing(stage: StageModel)
    ensures
        StageModel::Idle.after(0, Event::Locked(true)) is Driving,
        StageModel::Idle.after(0, Event::Locked(false)) is Over,
        StageModel::Driving.after(0, Event::Command) is Driving,
        StageModel::Driving.after(0, Event::End) is Unlocking,
        StageModel::Unlocking.after(0, Event::Unlocked) is Over,
{
}

/// What is done at each stage: the lock is taken where it is granted, each attempt at a write is
/// one on the fan whose turn it is, and the lock is let go of at the end. Nothing else is done.
pub proof fn law_what_is_done_at_each_stage(stage: StageModel, ok: bool)
    ensures
        stage.done(Event::Locked(ok)) == (if stage is Idle && ok {
            Some(Deed::Lock)
        } else {
            None
        }),
        stage.done(Event::Wrote(ok)) == (match stage {
            StageModel::Engaging(p) => Some(Deed::Take(p.at)),
            StageModel::Commanding(p) => Some(Deed::Speed(p.at)),
            StageModel::Releasing(p) => Some(Deed::Give(p.at)),
            _ => None,
        }),
        stage.done(Event::Unlocked) == (if stage is Unlocking {
            Some(Deed::Unlock)
        } else {
            None
        }),
        stage.done(Event::Command) is None,
        stage.done(Event::End) is None,
{
}

/// A session whose writes all succeed drives the fans once each of them has been written to, and
/// so does one that has commanded a speed; one that gives them back lets go of the lock then.
pub proof fn law_writes_that_succeed_lead_on(n: nat, k: nat)
    requires
        0 < k <= n,
    ensures
        ({
            let good = Seq::new(k, |i: int| true);
            let taking = StageModel::Idle.after(n, Event::Locked(true));
            let commanding = StageModel::Driving.after(n, Event::Command);
            let giving = StageModel::Driving.after(n, Event::End);
            &&& k == n ==> stage_after_writes(taking, n, good) is Driving
            &&& k == n ==> stage_after_writes(commanding, n, good) is Driving
            &&& k == n ==> stage_after_writes(giving, n, good) is Unlocking
            &&& k < n ==> stage_after_writes(taking, n, good) == StageModel::Engaging(
                Progress { total: n, stops: true, at: k, retrying: false, failed: Seq::empty() },
            )
            &&& k < n ==> stage_after_writes(commanding, n, good) == StageModel::Commanding(
                Progress { total: n, stops: true, at: k, retrying: false, failed: Seq::empty() },
            )
            &&& k < n ==> stage_after_writes(giving, n, good) == StageModel::Releasing(
                Progress { total: n, stops: false, at: k, retrying: false, failed: Seq::empty() },
            )
        }),
    decreases k,
{
    let good = Seq::new(k, |i: int| true);
    let m = (k - 1) as nat;
    let less = Seq::new(m, |i: int| true);
    assert(good.drop_last() =~= less);
    assert(good.last());
    let taking = StageModel::Idle.after(n, Event::Locked(true));
    let commanding = StageModel::Driving.after(n, Event::Command);
    let giving = StageModel::Driving.after(n, Event::End);
    if m > 0 {
        law_writes_that_succeed_lead_on(n, m);
    } else {
        assert(stage_after_writes(taking, n, less) == taking);
        assert(stage_after_writes(commanding, n, less) == commanding);
        assert(stage_after_writes(giving, n, less) == giving);
    }
}

/// The stage of a session is what it says, a round by its progress; and a session that is in order
/// writes to its fans what the stage is for.
pub proof fn law_a_stage_is_what_it_says(s: Session)
    requires
        s.valid(),
    ensures
        s.stage is Idle <==> s.stage@ is Idle,
        s.stage is Driving <==> s.stage@ is Driving,
        s.stage is Unlocking <==> s.stage@ is Unlocking,
        s.stage is Over <==> s.stage@ is Over,
        s.stage matches Stage::Engaging(round) ==> {
            &&& s.stage@ == StageModel::Engaging(round@)
            &&& round.stops && round.at < round.writes@.len()
            &&& write_models(round.writes@) == control_writes(fan_models(s.guard.fans@), true)
        },
        s.stage matches Stage::Commanding(round) ==> {
            &&& s.stage@ == StageModel::Commanding(round@)
            &&& round.stops && round.at < round.writes@.len()
            &&& exists|rpm: u32|
                write_models(round.writes@) == #[trigger] speed_writes(
                    fan_models(s.guard.fans@),
                    rpm,
                )
        },
        s.stage matches Stage::Releasing(round) ==> {
            &&& s.stage@ == StageModel::Releasing(round@)
            &&& !round.stops && round.at < round.writes@.len()
            &&& write_models(round.writes@) == control_writes(fan_models(s.guard.fans@), false)
        },
{
}

} // verus!
