//! What a sink is promised.
//!
//! Everything arrives in order, and the calls nest the way the run does. Each
//! promise is stated of every walk there is: whatever the pipeline holds, and
//! whatever comes of the things the walk asks for.

use vstd::prelude::*;

use crate::execute::{Secs, Status};
use crate::run;
use crate::run::{Action, Phase, Reply, Seat, StepState, Tell, Walk};
use crate::step;
use crate::step::OnError;

verus! {

/// How often the sinks were told this.
pub open spec fn times(told: Seq<Tell>, tell: Tell) -> nat
    decreases told.len(),
{
    if told.len() == 0 {
        0
    } else {
        times(told.drop_last(), tell) + if told.last() == tell {
            1nat
        } else {
            0
        }
    }
}

/// What a sink that follows along has made of it so far.
pub struct Heard {
    /// Whether it was told what is about to run.
    pub begun: bool,
    /// How many steps are over.
    pub steps: int,
    /// Whether the next one has started.
    pub inside: bool,
    /// Whether the run was given up on.
    pub given_up: bool,
    /// Whether it was told the run is over.
    pub over: bool,
}

/// What it makes of one more thing, or nothing if that is out of place.
pub open spec fn hear(heard: Heard, tell: Tell) -> Option<Heard> {
    let live = heard.begun && !heard.over;
    match tell {
        Tell::Start => if !heard.begun {
            Some(Heard { begun: true, ..heard })
        } else {
            None
        },
        Tell::StepStart { step } => if live && !heard.inside && step == heard.steps {
            Some(Heard { inside: true, ..heard })
        } else {
            None
        },
        Tell::ItemStart { step, .. } => if live && heard.inside && step == heard.steps
            && !heard.given_up {
            Some(heard)
        } else {
            None
        },
        Tell::ItemDone { step, .. } => if live && heard.inside && step == heard.steps {
            Some(heard)
        } else {
            None
        },
        Tell::StepDone { step } => if live && heard.inside && step == heard.steps {
            Some(Heard { inside: false, steps: heard.steps + 1, ..heard })
        } else {
            None
        },
        Tell::Abandoned => if live && !heard.inside && !heard.given_up && heard.steps > 0 {
            Some(Heard { given_up: true, ..heard })
        } else {
            None
        },
        Tell::Finish => if live {
            Some(Heard { over: true, ..heard })
        } else {
            None
        },
    }
}

/// What it makes of all of this, or nothing if any of it is out of place.
pub open spec fn heard(told: Seq<Tell>) -> Option<Heard>
    decreases told.len(),
{
    if told.len() == 0 {
        Some(Heard { begun: false, steps: 0, inside: false, given_up: false, over: false })
    } else {
        match heard(told.drop_last()) {
            Some(before) => hear(before, told.last()),
            None => None,
        }
    }
}

/// How often the sinks were told that an item is running.
pub open spec fn starts(told: Seq<Tell>, s: int, j: int) -> nat {
    times(told, Tell::ItemStart { step: s as usize, at: j as usize })
}

/// How often the sinks were told that an item reached its final state.
pub open spec fn dones(told: Seq<Tell>, s: int, j: int) -> nat {
    times(told, Tell::ItemDone { step: s as usize, at: j as usize })
}

proof fn lemma_say(told: Seq<Tell>, tell: Tell)
    ensures
        forall|other: Tell| #[trigger]
            times(told.push(tell), other) == times(told, other) + if other == tell {
                1nat
            } else {
                0
            },
        heard(told.push(tell)) == match heard(told) {
            Some(before) => hear(before, tell),
            None => None,
        },
{
    assert(told.push(tell).drop_last() =~= told);
}

impl Walk {
    /// Whether a sink that followed along is where the walk is.
    spec fn follows(self) -> bool {
        match self.phase {
            Phase::Starting => self.told.len() == 0,
            Phase::Making => self.followed(0, false, false),
            Phase::Opening { step, live } => self.followed(step as int, false, !live),
            Phase::ItemOpening { step, .. } => self.followed(step as int, true, false),
            Phase::Executing { step, .. } => self.followed(step as int, true, false),
            Phase::ItemClosing { step, .. } => self.followed(step as int, true, false),
            Phase::Batching { step, .. } => self.followed(step as int, true, false),
            Phase::Hearing { step, .. } => self.followed(step as int, true, false),
            Phase::Reporting { step, .. } => self.followed(step as int, true, false),
            Phase::Skipping { step, live, .. } => self.followed(step as int, true, !live),
            Phase::Closing { step, live } => self.followed(step as int, true, !live),
            Phase::Abandoning { step } => self.followed(step + 1, false, false),
            Phase::Leaving { .. } => heard(self.told) matches Some(h) && h.begun && !h.over
                && self.stopped,
            Phase::Finishing => heard(self.told) matches Some(h) && h.begun && !h.over && (
            !self.stopped ==> self.heard_all(h)),
            Phase::Tidying => heard(self.told) matches Some(h) && h.over && self.told.last()
                is Finish && (!self.stopped ==> self.heard_all(h)),
            Phase::Ended => heard(self.told) matches Some(h) && h.over && self.told.last()
                is Finish && (!self.stopped ==> self.heard_all(h)),
        }
    }

    spec fn heard_all(self, h: Heard) -> bool {
        h.steps == self.steps.len() && !h.inside && h.given_up == (self.failed is Some)
    }

    spec fn followed(self, steps: int, inside: bool, given_up: bool) -> bool {
        heard(self.told) == Some(Heard { begun: true, steps, inside, given_up, over: false })
    }
}

impl Walk {
    /// Whether what the walk remembers of how it went goes with its phase.
    pub open spec fn steady(self) -> bool {
        match self.phase {
            Phase::Leaving { .. } => self.stopped && self.failed is None,
            Phase::Finishing | Phase::Tidying | Phase::Ended => true,
            Phase::Opening { live, .. } => !self.stopped && live == (self.failed is None),
            Phase::Skipping { live, .. } => !self.stopped && live == (self.failed is None),
            Phase::Closing { live, .. } => !self.stopped && live == (self.failed is None),
            Phase::Abandoning { step } => !self.stopped && self.failed == Some(step),
            _ => !self.stopped && self.failed is None,
        }
    }
}

proof fn lemma_follows(w: Walk, reply: Reply)
    requires
        w.fits(),
        w.steady(),
        w.follows(),
    ensures
        w.after(reply).steady(),
        w.after(reply).follows(),
{
    match w.asks() {
        Action::Tell(tell) => {
            lemma_say(w.told, tell);
        },
        _ => {},
    }
    assert(heard(Seq::<Tell>::empty()) == Some(
        Heard { begun: false, steps: 0, inside: false, given_up: false, over: false },
    ));
    if w.phase is Starting {
        assert(w.told =~= Seq::<Tell>::empty());
    }
}

impl Walk {
    /// Whether the walk has yet to have anything to do with this item.
    spec fn untouched(self, s: int, j: int) -> bool {
        match self.phase {
            Phase::Starting | Phase::Making => true,
            Phase::Opening { step, .. } => s >= step,
            Phase::ItemOpening { step, at } => s > step || s == step && j >= at,
            Phase::Executing { step, at } => s > step || s == step && j > at,
            Phase::ItemClosing { step, at } => s > step || s == step && j > at,
            Phase::Batching { step, .. } => s > step || s == step && self.seats[j] == Seat::Waiting,
            Phase::Hearing { step, at } => s > step || s == step && (self.seats[j] == Seat::Waiting
                || j == at),
            Phase::Reporting { step, .. } => s > step || s == step && self.seats[j]
                == Seat::Waiting,
            Phase::Skipping { step, .. } => s > step,
            Phase::Closing { step, .. } => s > step,
            Phase::Abandoning { step } => s > step,
            _ => false,
        }
    }

    /// Whether this item is running and the sinks know.
    spec fn underway(self, s: int, j: int) -> bool {
        match self.phase {
            Phase::Executing { step, at } => s == step && j == at,
            Phase::Batching { step, .. } => s == step && self.seats[j] == Seat::Running,
            Phase::Hearing { step, at } => s == step && self.seats[j] == Seat::Running && j != at,
            Phase::Reporting { step, .. } => s == step && self.seats[j] == Seat::Running,
            _ => false,
        }
    }

    /// Whether this step is a batch the walk is in the middle of.
    spec fn batching(self, s: int) -> bool {
        match self.phase {
            Phase::Batching { step, .. } => s == step,
            Phase::Hearing { step, .. } => s == step,
            Phase::Reporting { step, .. } => s == step,
            _ => false,
        }
    }

    /// Whether this item reached its final state and the sinks are just about to
    /// hear of it.
    spec fn pending(self, s: int, j: int) -> bool {
        match self.phase {
            Phase::ItemClosing { step, at } => s == step && j == at,
            Phase::Reporting { step, at } => s == step && j == at,
            Phase::Skipping { step, at, .. } => s == step && j == at,
            _ => false,
        }
    }

    /// Whether the sinks heard of this item what its state says they did.
    spec fn item_ok(self, s: int, j: int) -> bool {
        let status = self.steps[s].statuses[j];
        &&& starts(self.told, s, j) <= 1
        &&& dones(self.told, s, j) == if status is NotRun || self.pending(s, j) {
            0nat
        } else {
            1
        }
        &&& self.pending(s, j) ==> !(status is NotRun)
        &&& self.batching(s) ==> !(status is Skipped)
        &&& status.has_run() ==> starts(self.told, s, j) == 1
        &&& self.untouched(s, j) ==> status is NotRun && starts(self.told, s, j) == 0
        &&& self.underway(s, j) ==> status is NotRun && starts(self.told, s, j) == 1
        &&& !self.stopped && !self.underway(s, j) && !status.has_run() ==> starts(
            self.told,
            s,
            j,
        ) == 0
    }

    spec fn items_ok(self) -> bool {
        forall|s: int, j: int| #[trigger] self.has(s, j) ==> self.item_ok(s, j)
    }
}

proof fn lemma_told_item(w: Walk, ok: bool, s: int, j: int)
    requires
        w.fits(),
        w.has(s, j),
        w.item_ok(s, j),
    ensures
        w.after_telling(ok).item_ok(s, j),
{
    match w.asks() {
        Action::Tell(tell) => {
            lemma_say(w.told, tell);
            run::lemma_skips(w);
        },
        _ => {},
    }
}

proof fn lemma_done_item(w: Walk, reply: Reply, s: int, j: int)
    requires
        w.fits(),
        w.has(s, j),
        w.item_ok(s, j),
        !(reply is Told),
    ensures
        w.after(reply).item_ok(s, j),
{
    run::lemma_skips(w);
}

proof fn lemma_items(w: Walk, reply: Reply)
    requires
        w.fits(),
        w.items_ok(),
    ensures
        w.after(reply).items_ok(),
{
    let next = w.after(reply);
    lemma_same_steps(w, reply);
    assert forall|s: int, j: int| #[trigger] next.has(s, j) implies next.item_ok(s, j) by {
        assert(w.has(s, j));
        match reply {
            Reply::Told(ok) => {
                lemma_told_item(w, ok, s, j);
            },
            _ => {
                lemma_done_item(w, reply, s, j);
            },
        }
    }
}

proof fn lemma_some_failed(statuses: Seq<Status>, i: int)
    requires
        0 <= i < statuses.len(),
        statuses[i].has_failed(),
    ensures
        step::any_failed(statuses),
    decreases i,
{
    if step::fails_first(statuses, i) {
    } else {
        let k = choose|k: int| 0 <= k < i && (#[trigger] statuses[k]).has_failed();
        lemma_some_failed(statuses, k);
    }
}

proof fn lemma_never_told(told: Seq<Tell>, tell: Tell)
    requires
        times(told, tell) == 0,
    ensures
        forall|i: int| 0 <= i < told.len() ==> #[trigger] told[i] != tell,
    decreases told.len(),
{
    if told.len() > 0 {
        lemma_never_told(told.drop_last(), tell);
        assert forall|i: int| 0 <= i < told.len() implies #[trigger] told[i] != tell by {
            if i < told.len() - 1 {
                assert(told.drop_last()[i] == told[i]);
            }
        }
    }
}

/// Whether no item was said to be running once it had been said to be done.
pub open spec fn starts_come_first(told: Seq<Tell>) -> bool {
    forall|i: int, k: int|
        0 <= i < told.len() && 0 <= k < told.len() && told_same_item(told[i], told[k]) ==> i < k
}

/// Whether these say of one item that it is running and that it is done.
pub open spec fn told_same_item(start: Tell, done: Tell) -> bool {
    start matches Tell::ItemStart { step, at } && done == (Tell::ItemDone { step, at })
}

proof fn lemma_order(w: Walk, reply: Reply)
    requires
        w.fits(),
        w.items_ok(),
        starts_come_first(w.told),
    ensures
        starts_come_first(w.after(reply).told),
{
    match w.phase {
        Phase::ItemOpening { step, at } => {
            assert(w.has(step as int, at as int));
            lemma_never_told(w.told, Tell::ItemDone { step, at });
        },
        Phase::Hearing { step, at } => {
            assert(w.has(step as int, at as int));
            lemma_never_told(w.told, Tell::ItemDone { step, at });
        },
        _ => {},
    }
}

/// Whether exactly the first `ran` of these ran, and for a reason: either that is
/// all of them, or the last of them failed and the step was not to carry on.
pub open spec fn ran_up_to(step: StepState, ran: int) -> bool {
    &&& 0 <= ran <= step.statuses.len()
    &&& forall|i: int| 0 <= i < ran ==> (#[trigger] step.statuses[i]).has_run()
    &&& forall|i: int|
        ran <= i < step.statuses.len() ==> !(#[trigger] step.statuses[i]).has_run()
    &&& step.on_error != OnError::Continue ==> forall|i: int|
        0 <= i < ran - 1 ==> !(#[trigger] step.statuses[i]).has_failed()
    &&& ran < step.statuses.len() ==> {
        &&& ran > 0
        &&& step.on_error != OnError::Continue
        &&& step.statuses[ran - 1].has_failed()
    }
}

/// Whether a step that was reached came out the way its `on_error` says. One
/// with nothing to stop it ran everything, and one that runs its items in turn
/// ran them up to the one that stopped it.
pub open spec fn ran_its_course(step: StepState) -> bool {
    &&& !step.stops() ==> forall|i: int|
        0 <= i < step.statuses.len() ==> (#[trigger] step.statuses[i]).has_run()
    &&& !step.batched() ==> exists|ran: int| ran_up_to(step, ran)
}

pub open spec fn all_settled(statuses: Seq<Status>) -> bool {
    forall|i: int| 0 <= i < statuses.len() ==> !(#[trigger] statuses[i] is NotRun)
}

pub open spec fn all_skipped(statuses: Seq<Status>) -> bool {
    forall|i: int| 0 <= i < statuses.len() ==> #[trigger] statuses[i] is Skipped
}

impl Walk {
    /// How many steps are over and done with.
    spec fn steps_over(self) -> int {
        match self.phase {
            Phase::Starting | Phase::Making => 0,
            Phase::Opening { step, .. } => step as int,
            Phase::ItemOpening { step, .. } => step as int,
            Phase::Executing { step, .. } => step as int,
            Phase::ItemClosing { step, .. } => step as int,
            Phase::Batching { step, .. } => step as int,
            Phase::Hearing { step, .. } => step as int,
            Phase::Reporting { step, .. } => step as int,
            Phase::Skipping { step, .. } => step as int,
            Phase::Closing { step, .. } => step as int,
            Phase::Abandoning { step } => step + 1,
            Phase::Leaving { .. } => 0,
            Phase::Finishing | Phase::Tidying | Phase::Ended => self.steps.len() as int,
        }
    }

    /// Whether this step is over, and came out the way it should have.
    spec fn step_over_ok(self, s: int) -> bool {
        let step = self.steps[s];
        match self.failed {
            Some(last) if s > last => all_skipped(step.statuses),
            Some(last) => {
                &&& all_settled(step.statuses)
                &&& ran_its_course(step)
                &&& step.ends_run() == (s == last)
            },
            None => {
                &&& all_settled(step.statuses)
                &&& ran_its_course(step)
                &&& !step.ends_run()
            },
        }
    }

    /// Whether the step the walk is in the middle of is coming out the way it
    /// should.
    spec fn step_under_way_ok(self) -> bool {
        match self.phase {
            Phase::ItemOpening { step, at } => self.steps[step as int].went_well(at as int),
            Phase::Executing { step, at } => self.steps[step as int].went_well(at as int),
            Phase::ItemClosing { step, at } => self.steps[step as int].went_well(at as int)
                && self.steps[step as int].statuses[at as int].has_run(),
            Phase::Batching { step, .. } => self.empty_seats_ok(step as int),
            Phase::Hearing { step, .. } => self.empty_seats_ok(step as int),
            Phase::Reporting { step, .. } => self.empty_seats_ok(step as int),
            Phase::Skipping { step, at, live } => {
                let statuses = self.steps[step as int].statuses;
                &&& forall|i: int| 0 <= i <= at ==> !(#[trigger] statuses[i] is NotRun)
                &&& if live {
                    ran_its_course(self.steps[step as int])
                } else {
                    forall|i: int|
                        0 <= i < statuses.len() ==> if i <= at {
                            statuses[i] is Skipped
                        } else {
                            #[trigger] statuses[i] is NotRun
                        }
                }
            },
            Phase::Closing { step, live } => {
                &&& all_settled(self.steps[step as int].statuses)
                &&& if live {
                    ran_its_course(self.steps[step as int])
                } else {
                    all_skipped(self.steps[step as int].statuses)
                }
            },
            _ => true,
        }
    }

    spec fn empty_seats_ok(self, step: int) -> bool {
        forall|j: int|
            0 <= j < self.seats.len() && #[trigger] self.seats[j] == Seat::Empty ==> {
                ||| self.steps[step].stops()
                ||| self.steps[step].statuses[j].has_run()
            }
    }

    spec fn outcomes_ok(self) -> bool {
        !self.stopped ==> {
            &&& forall|s: int|
                0 <= s < self.steps_over() && s < self.steps.len()
                    ==> #[trigger] self.step_over_ok(s)
            &&& self.failed matches Some(last) ==> last < self.steps_over()
            &&& self.step_under_way_ok()
        }
    }
}

impl StepState {
    /// Whether everything before `at` ran, with nothing to stop the step.
    spec fn went_well(self, at: int) -> bool {
        &&& forall|i: int| 0 <= i < at ==> (#[trigger] self.statuses[i]).has_run()
        &&& self.on_error != OnError::Continue ==> forall|i: int|
            0 <= i < at ==> !(#[trigger] self.statuses[i]).has_failed()
    }
}

/// A failure stays one when something that never ran changes.
proof fn lemma_still_failed(statuses: Seq<Status>, at: int, status: Status)
    requires
        0 <= at < statuses.len(),
        statuses[at] is NotRun,
        step::any_failed(statuses),
    ensures
        step::any_failed(statuses.update(at, status)),
{
    let j = choose|j: int| #[trigger] step::fails_first(statuses, j);
    lemma_some_failed(statuses.update(at, status), j);
}

impl Walk {
    spec fn earlier_ok(self, step: int) -> bool {
        &&& forall|s: int| 0 <= s < step ==> #[trigger] self.step_over_ok(s)
        &&& self.failed matches Some(last) ==> last < step
    }
}

proof fn lemma_skip_outcomes(w: Walk, step: int, from: int, live: bool)
    requires
        0 <= step < w.steps.len() <= usize::MAX,
        w.steps[step].statuses.len() <= usize::MAX,
        w.earlier_ok(step),
        0 <= from <= w.steps[step].statuses.len(),
        forall|i: int| 0 <= i < from ==> !(#[trigger] w.steps[step].statuses[i] is NotRun),
        live ==> ran_its_course(w.steps[step]),
        !live ==> forall|i: int|
            0 <= i < w.steps[step].statuses.len() ==> if i < from {
                w.steps[step].statuses[i] is Skipped
            } else {
                #[trigger] w.steps[step].statuses[i] is NotRun
            },
    ensures
        w.skip_rest(step, from, live).outcomes_ok(),
{
    let before = w.steps[step];
    run::lemma_next_not_run(before.statuses, from);
    let at = run::next_not_run(before.statuses, from);
    let next = w.skip_rest(step, from, live);
    if at < before.statuses.len() {
        let now = next.steps[step];
        if live {
            if before.stops() {
                lemma_still_failed(before.statuses, at, Status::Skipped);
            }
            if !before.batched() {
                let ran = choose|ran: int| ran_up_to(before, ran);
                assert(ran_up_to(now, ran));
            }
        }
    }
    assert forall|s: int| 0 <= s < step implies #[trigger] next.step_over_ok(s) by {
        assert(w.step_over_ok(s));
        assert(next.steps[s] == w.steps[s]);
    }
}

proof fn lemma_outcomes(w: Walk, reply: Reply)
    requires
        w.fits(),
        w.steady(),
        w.items_ok(),
        w.outcomes_ok(),
    ensures
        w.after(reply).outcomes_ok(),
{
    let next = w.after(reply);
    let here = w.steps_over();
    if !next.stopped {
        assert(!w.stopped);
        assert(w.earlier_ok(here));
        match (w.phase, reply) {
            (Phase::Opening { step, live }, Reply::Told(_)) => {
                let told = w.say(Tell::StepStart { step });
                let statuses = w.steps[step as int].statuses;
                assert forall|i: int| 0 <= i < statuses.len() implies #[trigger] statuses[i]
                    is NotRun by {
                    assert(w.has(step as int, i));
                }
                lemma_same_past(w, told, step as int);
                if live {
                    lemma_enter_outcomes(told, step as int);
                } else {
                    lemma_skip_outcomes(told, step as int, 0, false);
                }
            },
            (Phase::ItemClosing { step, at }, Reply::Told(_)) => {
                lemma_item_closed(w, step, at);
            },
            (Phase::Skipping { step, at, live }, Reply::Told(_)) => {
                let told = w.say(Tell::ItemDone { step, at });
                lemma_same_past(w, told, step as int);
                lemma_skip_outcomes(told, step as int, at + 1, live);
            },
            (Phase::Closing { step, live }, Reply::Told(_)) => {
                lemma_closed(w, step, live);
            },
            (Phase::Batching { step, .. }, Reply::Drained) => {
                lemma_drained(w, step as int);
            },
            (Phase::Batching { step, .. }, Reply::Back { at, ran: Some(ran), .. }) => {
                lemma_back(w, reply);
            },
            (Phase::Executing { step, at }, Reply::Ran { ran, .. }) => {
                lemma_ran(w, reply);
            },
            _ => {
                lemma_same_past(w, next, next.steps_over());
            },
        }
    }
}

/// Steps that are over came out the same whatever else the walk remembers.
proof fn lemma_same_past(w: Walk, next: Walk, step: int)
    requires
        w.earlier_ok(step),
        next.failed == w.failed,
        0 <= step <= w.steps.len(),
        next.steps.len() == w.steps.len(),
        forall|s: int| 0 <= s < step ==> #[trigger] next.steps[s] == w.steps[s],
    ensures
        next.earlier_ok(step),
{
    assert forall|s: int| 0 <= s < step implies #[trigger] next.step_over_ok(s) by {
        assert(w.step_over_ok(s));
        assert(next.steps[s] == w.steps[s]);
    }
}

proof fn lemma_enter_outcomes(w: Walk, step: int)
    requires
        0 <= step < w.steps.len() <= usize::MAX,
        w.steps[step].statuses.len() <= usize::MAX,
        w.earlier_ok(step),
    ensures
        w.enter(step).outcomes_ok(),
{
    let next = w.enter(step);
    if !w.steps[step].batched() && w.steps[step].statuses.len() == 0 {
        assert(ran_up_to(w.steps[step], 0));
        lemma_skip_outcomes(w, step, 0, true);
    } else {
        lemma_same_past(w, next, step);
    }
}

proof fn lemma_item_closed(w: Walk, step: usize, at: usize)
    requires
        w.fits(),
        w.phase == (Phase::ItemClosing { step, at }),
        w.items_ok(),
        w.earlier_ok(step as int),
        w.step_under_way_ok(),
    ensures
        w.after_telling(true).outcomes_ok(),
{
    let told = w.say(Tell::ItemDone { step, at });
    let here = w.steps[step as int];
    lemma_same_past(w, told, step as int);
    assert forall|i: int| at < i < here.statuses.len() implies #[trigger] here.statuses[i]
        is NotRun by {
        assert(w.has(step as int, i));
    }
    if here.stops() {
        let j = choose|j: int| #[trigger] step::fails_first(here.statuses, j);
        assert(j == at);
        assert(ran_up_to(here, at + 1));
        lemma_skip_outcomes(told, step as int, 0, true);
    } else {
        if here.on_error != OnError::Continue && here.statuses[at as int].has_failed() {
            lemma_some_failed(here.statuses, at as int);
        }
        if at + 1 < here.statuses.len() {
            lemma_same_past(w, w.after_telling(true), step as int);
        } else {
            assert(ran_up_to(here, at + 1));
            lemma_skip_outcomes(told, step as int, 0, true);
        }
    }
}

proof fn lemma_closed(w: Walk, step: usize, live: bool)
    requires
        w.fits(),
        w.steady(),
        w.phase == (Phase::Closing { step, live }),
        w.earlier_ok(step as int),
        w.step_under_way_ok(),
    ensures
        w.after_telling(true).outcomes_ok(),
{
    let next = w.after_telling(true);
    assert forall|s: int| 0 <= s <= step implies #[trigger] next.step_over_ok(s) by {
        assert(next.steps == w.steps);
        if s < step {
            assert(w.step_over_ok(s));
        }
    }
}

proof fn lemma_drained(w: Walk, step: int)
    requires
        w.fits(),
        w.phase matches Phase::Batching { step: s, .. } && s == step,
        w.earlier_ok(step),
        w.step_under_way_ok(),
    ensures
        w.after(Reply::Drained).outcomes_ok() || !w.drained(step),
{
    if w.drained(step) {
        let here = w.steps[step];
        if !here.stops() {
            assert forall|i: int| 0 <= i < here.statuses.len() implies (
            #[trigger] here.statuses[i]).has_run() by {
                assert(w.seats.contains(w.seats[i]));
                assert(w.seats[i] == Seat::Empty);
            }
        }
        lemma_skip_outcomes(w, step, 0, true);
    }
}

proof fn lemma_back(w: Walk, reply: Reply)
    requires
        w.fits(),
        w.items_ok(),
        !w.stopped,
        w.phase is Batching,
        w.earlier_ok(w.steps_over()),
        w.step_under_way_ok(),
        reply matches Reply::Back { ran: Some(_), .. },
    ensures
        w.after(reply).outcomes_ok(),
{
    let next = w.after(reply);
    let step = w.steps_over();
    lemma_same_past(w, next, step);
    match reply {
        Reply::Back { at, ran: Some(ran), .. } => {
            if w.seated(at, Seat::Running) && ran.status.has_run() {
                assert(w.has(step, at as int));
                let before = w.steps[step];
                let now = next.steps[step];
                if before.stops() {
                    lemma_still_failed(before.statuses, at as int, ran.status);
                }
                assert forall|j: int|
                    0 <= j < next.seats.len() && #[trigger] next.seats[j]
                        == Seat::Empty implies now.stops() || now.statuses[j].has_run() by {
                    if j != at {
                        assert(w.seats[j] == Seat::Empty);
                    }
                }
            }
        },
        _ => {},
    }
}

proof fn lemma_ran(w: Walk, reply: Reply)
    requires
        w.fits(),
        !w.stopped,
        w.phase is Executing,
        w.earlier_ok(w.steps_over()),
        w.step_under_way_ok(),
        reply is Ran,
    ensures
        w.after(reply).outcomes_ok(),
{
    lemma_same_past(w, w.after(reply), w.steps_over());
}

impl Walk {
    /// Everything that holds all along a walk.
    spec fn sound(self) -> bool {
        &&& self.fits()
        &&& self.steady()
        &&& self.follows()
        &&& self.items_ok()
        &&& starts_come_first(self.told)
        &&& self.outcomes_ok()
    }

    /// Whether this walk is through the same steps, however far either has got.
    pub open spec fn same_steps(self, other: Walk) -> bool {
        &&& self.steps.len() == other.steps.len()
        &&& forall|s: int|
            0 <= s < self.steps.len() ==> {
                &&& (#[trigger] self.steps[s]).on_error == other.steps[s].on_error
                &&& self.steps[s].strategy == other.steps[s].strategy
                &&& self.steps[s].statuses.len() == other.steps[s].statuses.len()
            }
    }
}

proof fn lemma_same_steps(w: Walk, reply: Reply)
    requires
        w.fits(),
    ensures
        w.after(reply).same_steps(w),
{
    run::lemma_skips(w);
}

proof fn lemma_walked(start: Walk, replies: Seq<Reply>)
    requires
        start.is_fresh(),
    ensures
        run::walked(start, replies).sound(),
        run::walked(start, replies).same_steps(start),
        heard(run::walked(start, replies).told) is Some,
    decreases replies.len(),
{
    if replies.len() == 0 {
        assert forall|s: int, j: int| #[trigger] start.has(s, j) implies start.item_ok(s, j) by {
        }
    } else {
        let before = run::walked(start, replies.drop_last());
        let reply = replies.last();
        lemma_walked(start, replies.drop_last());
        run::lemma_fits(before, reply);
        lemma_follows(before, reply);
        lemma_items(before, reply);
        lemma_order(before, reply);
        lemma_outcomes(before, reply);
        lemma_same_steps(before, reply);
    }
}

/// What holds all along a walk, as far as how far it has got goes by it.
pub proof fn lemma_along_the_way(start: Walk, replies: Seq<Reply>)
    requires
        start.is_fresh(),
    ensures
        run::walked(start, replies).fits(),
        run::walked(start, replies).steady(),
        run::walked(start, replies).same_steps(start),
        run::walked(start, replies).phase matches Phase::ItemClosing { step, at } ==> forall|i: int|
            0 <= i <= at ==> !(#[trigger] run::walked(start, replies).steps[step as int].statuses[i]
                is NotRun),
{
    let w = run::walked(start, replies);
    lemma_walked(start, replies);
    if let Phase::ItemClosing { step, at } = w.phase {
        let statuses = w.steps[step as int].statuses;
        assert forall|i: int| 0 <= i <= at implies !(#[trigger] statuses[i] is NotRun) by {
            assert(statuses[i].has_run());
        }
    }
}

/// A sink that follows along knows how often it was told the things that frame
/// the items.
proof fn lemma_heard_counts(told: Seq<Tell>)
    requires
        heard(told) is Some,
    ensures
        ({
            let h = heard(told)->0;
            &&& 0 <= h.steps <= told.len()
            &&& times(told, Tell::Start) == if h.begun {
                1nat
            } else {
                0
            }
            &&& times(told, Tell::Abandoned) == if h.given_up {
                1nat
            } else {
                0
            }
            &&& times(told, Tell::Finish) == if h.over {
                1nat
            } else {
                0
            }
            &&& forall|s: usize| #[trigger]
                times(told, Tell::StepStart { step: s }) == if s < h.steps || h.inside && s
                    == h.steps {
                    1nat
                } else {
                    0
                }
            &&& forall|s: usize| #[trigger]
                times(told, Tell::StepDone { step: s }) == if s < h.steps {
                    1nat
                } else {
                    0
                }
        }),
    decreases told.len(),
{
    if told.len() > 0 {
        lemma_heard_counts(told.drop_last());
        assert(told.drop_last().push(told.last()) =~= told);
        lemma_say(told.drop_last(), told.last());
    }
}

/// The calls nest the way the run does. The run starts once, before anything
/// else; then every step in turn starts, has its items, and is done; giving up
/// comes at most once, between one step and the next, and nothing is said to be
/// running from there on; and nothing comes after the finish.
pub proof fn calls_nest_the_way_the_run_does(start: Walk, replies: Seq<Reply>)
    requires
        start.is_fresh(),
    ensures
        heard(run::walked(start, replies).told) is Some,
{
    lemma_walked(start, replies);
}

/// A run that was not cut short starts once, and every step of it gets one start
/// and one done, the steps a failed run never reached among them.
pub proof fn every_step_gets_a_start_and_a_done(start: Walk, replies: Seq<Reply>, s: usize)
    requires
        start.is_fresh(),
        s < start.steps.len(),
        run::walked(start, replies).phase is Ended,
        !run::walked(start, replies).stopped,
    ensures
        times(run::walked(start, replies).told, Tell::Start) == 1,
        times(run::walked(start, replies).told, Tell::StepStart { step: s }) == 1,
        times(run::walked(start, replies).told, Tell::StepDone { step: s }) == 1,
{
    lemma_walked(start, replies);
    lemma_heard_counts(run::walked(start, replies).told);
}

/// Each item is announced at most once, and exactly once by the end of a run
/// that was not cut short.
pub proof fn each_item_is_announced_once(start: Walk, replies: Seq<Reply>, s: int, j: int)
    requires
        start.is_fresh(),
        start.has(s, j),
    ensures
        dones(run::walked(start, replies).told, s, j) <= 1,
        run::walked(start, replies).phase is Ended && !run::walked(start, replies).stopped ==> dones(
            run::walked(start, replies).told,
            s,
            j,
        ) == 1,
{
    let w = run::walked(start, replies);
    lemma_walked(start, replies);
    assert(w.has(s, j));
    if w.phase is Ended && !w.stopped {
        assert(w.step_over_ok(s));
    }
}

/// By the time an item is announced it has finished, failed to start, or been
/// skipped.
pub proof fn nothing_is_announced_as_not_run(start: Walk, replies: Seq<Reply>)
    requires
        start.is_fresh(),
    ensures
        run::walked(start, replies).asks() matches Action::Tell(Tell::ItemDone { step, at }) ==> {
            &&& start.has(step as int, at as int)
            &&& !(run::walked(start, replies).steps[step as int].statuses[at as int] is NotRun)
        },
{
    let w = run::walked(start, replies);
    lemma_walked(start, replies);
    match w.asks() {
        Action::Tell(Tell::ItemDone { step, at }) => {
            assert(w.has(step as int, at as int));
        },
        _ => {},
    }
}

/// An item gets at most one start, before its done. One that ran got one, and by
/// the end of a run that was not cut short no other did.
pub proof fn only_what_ran_was_started(start: Walk, replies: Seq<Reply>, s: int, j: int)
    requires
        start.is_fresh(),
        start.has(s, j),
    ensures
        starts(run::walked(start, replies).told, s, j) <= 1,
        starts_come_first(run::walked(start, replies).told),
        run::walked(start, replies).steps[s].statuses[j].has_run() ==> starts(
            run::walked(start, replies).told,
            s,
            j,
        ) == 1,
        run::walked(start, replies).phase is Ended && !run::walked(start, replies).stopped ==> (starts(
            run::walked(start, replies).told,
            s,
            j,
        ) == 1 <==> run::walked(start, replies).steps[s].statuses[j].has_run()),
{
    lemma_walked(start, replies);
    assert(run::walked(start, replies).has(s, j));
}

/// By the time the workers of a batch are all gone, every command that ran was
/// said to be running once and then to be done once, with what it came to by
/// then; and of one that never ran nobody has heard.
pub proof fn a_batch_announces_what_it_ran_and_nothing_else(
    start: Walk,
    replies: Seq<Reply>,
    step: usize,
    j: int,
)
    requires
        start.is_fresh(),
        start.has(step as int, j),
        run::walked(start, replies).phase matches Phase::Batching { step: here, .. } && here
            == step,
        run::walked(start, replies).drained(step as int),
    ensures
        ({
            let w = run::walked(start, replies);
            let status = w.steps[step as int].statuses[j];
            &&& starts_come_first(w.told)
            &&& if status is NotRun {
                starts(w.told, step as int, j) == 0 && dones(w.told, step as int, j) == 0
            } else {
                &&& status.has_run()
                &&& starts(w.told, step as int, j) == 1
                &&& dones(w.told, step as int, j) == 1
            }
        }),
{
    let w = run::walked(start, replies);
    lemma_walked(start, replies);
    assert(w.has(step as int, j));
    assert(w.item_ok(step as int, j));
    assert(w.seats.contains(w.seats[j]));
}

/// A command whose batch was called off before it started comes back as nothing:
/// it stays as it was, which is never run, and nobody has heard of it or hears
/// of it for that.
pub proof fn a_command_called_off_before_it_started_stays_not_run(
    start: Walk,
    replies: Seq<Reply>,
    at: usize,
    elapsed_s: Secs,
)
    requires
        start.is_fresh(),
        run::walked(start, replies).phase is Batching,
        run::walked(start, replies).seated(at, Seat::Waiting),
    ensures
        ({
            let w = run::walked(start, replies);
            let next = run::walked(start, replies.push(Reply::Back { at, ran: None, elapsed_s }));
            let step = w.phase->Batching_step as int;
            &&& next.steps == w.steps
            &&& next.told == w.told
            &&& next.steps[step].statuses[at as int] is NotRun
            &&& starts(next.told, step, at as int) == 0
            &&& dones(next.told, step, at as int) == 0
        }),
{
    let w = run::walked(start, replies);
    let reply = Reply::Back { at, ran: None, elapsed_s };
    let step = w.phase->Batching_step as int;
    lemma_walked(start, replies);
    assert(replies.push(reply).drop_last() =~= replies);
    assert(w.has(step, at as int));
    assert(w.item_ok(step, at as int));
}

/// The run is over once, however it ended, and that is the last anyone hears.
pub proof fn the_finish_comes_last_and_once(start: Walk, replies: Seq<Reply>)
    requires
        start.is_fresh(),
        run::walked(start, replies).phase is Ended,
    ensures
        run::walked(start, replies).told.last() is Finish,
        times(run::walked(start, replies).told, Tell::Finish) == 1,
{
    lemma_walked(start, replies);
    lemma_heard_counts(run::walked(start, replies).told);
}

/// The run is given up on at most once, and by the end of one that was not cut
/// short, exactly when a step ended it.
pub proof fn giving_up_is_said_once(start: Walk, replies: Seq<Reply>)
    requires
        start.is_fresh(),
    ensures
        times(run::walked(start, replies).told, Tell::Abandoned) <= 1,
        run::walked(start, replies).phase is Ended && !run::walked(start, replies).stopped ==> (times(
            run::walked(start, replies).told,
            Tell::Abandoned,
        ) == 1 <==> run::walked(start, replies).failed is Some),
{
    lemma_walked(start, replies);
    lemma_heard_counts(run::walked(start, replies).told);
}

/// Whether whatever was said of giving up was said right after the step that
/// caused it.
spec fn gives_up_in_place(w: Walk) -> bool {
    &&& forall|i: int|
        0 <= i < w.told.len() && #[trigger] w.told[i] is Abandoned ==> {
            &&& i > 0
            &&& w.failed is Some
            &&& w.told[i - 1] == (Tell::StepDone { step: w.failed->0 })
        }
    &&& w.phase matches Phase::Abandoning { step } ==> {
        &&& w.failed == Some(step)
        &&& w.told.len() > 0
        &&& w.told.last() == (Tell::StepDone { step })
    }
}

proof fn lemma_gives_up_in_place(start: Walk, replies: Seq<Reply>)
    requires
        start.is_fresh(),
    ensures
        gives_up_in_place(run::walked(start, replies)),
    decreases replies.len(),
{
    if replies.len() > 0 {
        let w = run::walked(start, replies.drop_last());
        lemma_walked(start, replies.drop_last());
        lemma_gives_up_in_place(start, replies.drop_last());
        run::lemma_skips(w);
    }
}

/// Giving up comes right after the step that caused it is done, and that step is
/// the one that ended the run.
pub proof fn giving_up_comes_right_after_the_step_that_caused_it(
    start: Walk,
    replies: Seq<Reply>,
    i: int,
)
    requires
        start.is_fresh(),
        0 <= i < run::walked(start, replies).told.len(),
        run::walked(start, replies).told[i] is Abandoned,
    ensures
        i > 0,
        run::walked(start, replies).failed is Some,
        run::walked(start, replies).told[i - 1] == (Tell::StepDone {
            step: run::walked(start, replies).failed->0,
        }),
{
    lemma_gives_up_in_place(start, replies);
}

/// Whether the directory for failure logs was asked for and made along the way.
pub open spec fn dir_made(start: Walk, replies: Seq<Reply>) -> bool {
    exists|k: int|
        0 <= k < replies.len() && #[trigger] replies[k] == Reply::Made(true) && run::walked(
            start,
            replies.take(k),
        ).asks() is MakeDir
}

proof fn lemma_dir_made(start: Walk, replies: Seq<Reply>)
    requires
        start.is_fresh(),
    ensures
        run::walked(start, replies).made == dir_made(start, replies),
        run::walked(start, replies).phase is Making ==> start.dir,
        run::walked(start, replies).dir == start.dir,
        run::walked(start, replies).made ==> start.dir,
        run::walked(start, replies).phase is Tidying ==> run::walked(start, replies).made,
    decreases replies.len(),
{
    if replies.len() > 0 {
        let most = replies.drop_last();
        let n = most.len() as int;
        lemma_dir_made(start, most);
        lemma_walked(start, most);
        run::lemma_skips(run::walked(start, most));
        assert(replies.take(n) =~= most);
        assert forall|k: int| 0 <= k < n implies replies.take(k) == most.take(k) by {
            assert(replies.take(k) =~= most.take(k));
        }
        if dir_made(start, most) {
            let k = choose|k: int|
                0 <= k < most.len() && #[trigger] most[k] == Reply::Made(true) && run::walked(
                    start,
                    most.take(k),
                ).asks() is MakeDir;
            assert(replies[k] == Reply::Made(true));
        }
        if dir_made(start, replies) {
            let k = choose|k: int|
                0 <= k < replies.len() && #[trigger] replies[k] == Reply::Made(true)
                    && run::walked(start, replies.take(k)).asks() is MakeDir;
            if k < n {
                assert(most[k] == Reply::Made(true));
            }
        }
    } else {
        assert(!dir_made(start, replies));
    }
}

/// A directory is seen to at the end only if there was one to make and it was
/// made, so nothing is removed that the run did not put there.
pub proof fn only_a_directory_that_was_made_is_removed(start: Walk, replies: Seq<Reply>)
    requires
        start.is_fresh(),
        run::walked(start, replies).asks() is Tidy,
    ensures
        start.dir,
        dir_made(start, replies),
{
    lemma_dir_made(start, replies);
}

/// A run that made its directory sees to it once everyone was told it is over,
/// and one that did not is then over.
pub proof fn a_directory_that_was_made_is_seen_to(start: Walk, replies: Seq<Reply>, ok: bool)
    requires
        start.is_fresh(),
        run::walked(start, replies).asks() == Action::Tell(Tell::Finish),
    ensures
        dir_made(start, replies) ==> run::walked(start, replies.push(Reply::Told(ok))).asks()
            is Tidy,
        !dir_made(start, replies) ==> run::walked(start, replies.push(Reply::Told(ok))).asks()
            is End,
{
    lemma_dir_made(start, replies);
    assert(replies.push(Reply::Told(ok)).drop_last() =~= replies);
}

proof fn lemma_settled_stays(w: Walk, reply: Reply, s: int, j: int)
    requires
        w.fits(),
        w.items_ok(),
        w.has(s, j),
        !(w.steps[s].statuses[j] is NotRun),
    ensures
        w.after(reply).steps[s].statuses[j] == w.steps[s].statuses[j],
{
    run::lemma_skips(w);
    assert(w.item_ok(s, j));
}

/// A walk can be taken up where it was left.
pub proof fn lemma_walked_on(start: Walk, replies: Seq<Reply>, more: Seq<Reply>)
    ensures
        run::walked(start, replies + more) == run::walked(run::walked(start, replies), more),
    decreases more.len(),
{
    if more.len() == 0 {
        assert(replies + more =~= replies);
    } else {
        lemma_walked_on(start, replies, more.drop_last());
        assert((replies + more).drop_last() =~= replies + more.drop_last());
        assert((replies + more).last() == more.last());
    }
}

/// What an item is announced as is what it stays, however the run goes on.
pub proof fn an_announced_item_is_final(
    start: Walk,
    replies: Seq<Reply>,
    more: Seq<Reply>,
    s: int,
    j: int,
)
    requires
        start.is_fresh(),
        start.has(s, j),
        dones(run::walked(start, replies).told, s, j) > 0,
    ensures
        run::walked(start, replies + more).steps[s].statuses[j] == run::walked(
            start,
            replies,
        ).steps[s].statuses[j],
    decreases more.len(),
{
    let w = run::walked(start, replies);
    lemma_walked(start, replies);
    assert(w.has(s, j));
    assert(w.item_ok(s, j));
    if more.len() == 0 {
        assert(replies + more =~= replies);
    } else {
        let most = replies + more.drop_last();
        an_announced_item_is_final(start, replies, more.drop_last(), s, j);
        lemma_walked(start, most);
        assert(run::walked(start, most).has(s, j));
        lemma_settled_stays(run::walked(start, most), more.last(), s, j);
        assert((replies + more).drop_last() =~= most);
        assert((replies + more).last() == more.last());
    }
}

/// How far a failure reaches. In a run that was not cut short, every step up to
/// the one that ended it ran the way its `on_error` says, every step after that
/// was skipped whole, and the one that ended it is the only one that would have.
pub proof fn a_failure_reaches_as_far_as_it_should(start: Walk, replies: Seq<Reply>, s: int)
    requires
        start.is_fresh(),
        0 <= s < start.steps.len(),
        run::walked(start, replies).phase is Ended,
        !run::walked(start, replies).stopped,
    ensures
        ({
            let w = run::walked(start, replies);
            let step = w.steps[s];
            match w.failed {
                Some(last) if s > last => all_skipped(step.statuses) && !step.ends_run(),
                Some(last) => {
                    &&& last < w.steps.len()
                    &&& all_settled(step.statuses)
                    &&& ran_its_course(step)
                    &&& step.ends_run() == (s == last)
                },
                None => {
                    &&& all_settled(step.statuses)
                    &&& ran_its_course(step)
                    &&& !step.ends_run()
                },
            }
        }),
{
    let w = run::walked(start, replies);
    lemma_walked(start, replies);
    assert(w.step_over_ok(s));
}

/// A run that was not cut short fails exactly when one of its steps was set to
/// end the run and something in it failed.
pub proof fn a_run_fails_when_a_step_ends_it(start: Walk, replies: Seq<Reply>)
    requires
        start.is_fresh(),
        run::walked(start, replies).phase is Ended,
        !run::walked(start, replies).stopped,
    ensures
        run::walked(start, replies).failed is Some <==> exists|s: int|
            0 <= s < start.steps.len() && (#[trigger] run::walked(start, replies).steps[s]).ends_run(),
{
    let w = run::walked(start, replies);
    lemma_walked(start, replies);
    if let Some(last) = w.failed {
        a_failure_reaches_as_far_as_it_should(start, replies, last as int);
        assert(w.steps[last as int].ends_run());
    }
    if exists|s: int| 0 <= s < start.steps.len() && (#[trigger] w.steps[s]).ends_run() {
        let s = choose|s: int| 0 <= s < start.steps.len() && (#[trigger] w.steps[s]).ends_run();
        a_failure_reaches_as_far_as_it_should(start, replies, s);
    }
}

proof fn lemma_nothing_after_finish(w: Walk, more: Seq<Reply>)
    requires
        w.phase is Tidying || w.phase is Ended,
    ensures
        run::walked(w, more).told == w.told,
        run::walked(w, more).steps == w.steps,
        run::walked(w, more).unfinished == w.unfinished,
        run::walked(w, more).phase is Tidying || run::walked(w, more).phase is Ended,
    decreases more.len(),
{
    if more.len() > 0 {
        lemma_nothing_after_finish(w, more.drop_last());
    }
}

proof fn lemma_only_the_finish(w: Walk, more: Seq<Reply>)
    requires
        w.phase is Leaving || w.phase is Finishing,
    ensures
        run::walked(w, more).stopped == w.stopped,
        run::walked(w, more).steps == w.steps,
        run::walked(w, more).made == w.made,
        run::walked(w, more).phase is Tidying ==> w.made,
        ({
            let end = run::walked(w, more);
            ||| end.told == w.told && (end.phase is Leaving || end.phase is Finishing)
            ||| end.told == w.told.push(Tell::Finish) && (end.phase is Tidying || end.phase
                is Ended)
        }),
    decreases more.len(),
{
    if more.len() > 0 {
        lemma_only_the_finish(w, more.drop_last());
    }
}

/// A sink that cannot take what it is told stops the run: from there on nothing
/// is run and nothing skipped, the sinks hear nothing but that it is over, and
/// the run does not pass.
pub proof fn a_refusal_leaves_only_the_finish(start: Walk, replies: Seq<Reply>, more: Seq<Reply>)
    requires
        start.is_fresh(),
        run::walked(start, replies).asks() is Tell,
    ensures
        ({
            let refused = run::walked(start, replies.push(Reply::Told(false)));
            let end = run::walked(start, replies.push(Reply::Told(false)) + more);
            &&& end.told == refused.told || end.told == refused.told.push(Tell::Finish)
            &&& end.phase is Ended ==> end.told.last() is Finish
            &&& end.steps == refused.steps
            &&& end.stopped || end.unfinished
        }),
{
    let w = run::walked(start, replies);
    let refused = replies.push(Reply::Told(false));
    assert(refused.drop_last() =~= replies);
    assert(run::walked(start, refused) == w.after(Reply::Told(false)));
    lemma_walked_on(start, refused, more);
    if w.phase is Finishing {
        lemma_nothing_after_finish(run::walked(start, refused), more);
    } else {
        lemma_only_the_finish(run::walked(start, refused), more);
    }
}

/// The replies to a run that cannot get going: its start is refused, or it has a
/// directory to make and that cannot be made.
pub open spec fn cannot_get_going(start: Walk, replies: Seq<Reply>) -> bool {
    ||| replies == seq![Reply::Told(false)]
    ||| start.dir && replies == seq![Reply::Told(true), Reply::Made(false)]
}

/// A run that cannot get going runs nothing and removes nothing, and its sinks are
/// still told that it is over: they hear the start and the finish, and nothing
/// between.
pub proof fn a_run_that_cannot_get_going_still_finishes(
    start: Walk,
    replies: Seq<Reply>,
    more: Seq<Reply>,
)
    requires
        start.is_fresh(),
        cannot_get_going(start, replies),
    ensures
        ({
            let end = run::walked(start, replies + more);
            &&& end.stopped
            &&& end.steps == start.steps
            &&& end.told == seq![Tell::Start] || end.told == seq![Tell::Start, Tell::Finish]
            &&& end.phase is Ended ==> end.told == seq![Tell::Start, Tell::Finish]
            &&& !(end.asks() is Tidy)
        }),
{
    let none = Seq::<Reply>::empty();
    let stuck = run::walked(start, replies);
    assert(start.told.push(Tell::Start) =~= seq![Tell::Start]);
    assert(seq![Tell::Start].push(Tell::Finish) =~= seq![Tell::Start, Tell::Finish]);
    assert(run::walked(start, none) == start);
    assert(stuck == start.say(Tell::Start).give_up()) by {
        if replies == seq![Reply::Told(false)] {
            assert(replies.drop_last() =~= none);
        } else {
            let one = seq![Reply::Told(true)];
            assert(replies.drop_last() =~= one);
            assert(one.drop_last() =~= none);
            assert(run::walked(start, one) == start.after(Reply::Told(true)));
        }
    }
    lemma_walked_on(start, replies, more);
    lemma_only_the_finish(stuck, more);
}

/// Whether a walk that is listening to a batch calls it off exactly when it is to be.
spec fn calls_off_in_time(w: Walk) -> bool {
    w.phase matches Phase::Batching { step, fresh, cancel } ==> {
        &&& fresh ==> !cancel
        &&& !fresh ==> cancel == w.steps[step as int].stops()
    }
}

proof fn lemma_calls_off_in_time(start: Walk, replies: Seq<Reply>)
    requires
        start.is_fresh(),
    ensures
        calls_off_in_time(run::walked(start, replies)),
    decreases replies.len(),
{
    if replies.len() > 0 {
        let w = run::walked(start, replies.drop_last());
        lemma_walked(start, replies.drop_last());
        lemma_calls_off_in_time(start, replies.drop_last());
        run::lemma_skips(w);
    }
}

/// A batch is called off as soon as something in it failed, if its step is not to
/// carry on, and not for any other reason.
pub proof fn a_batch_is_called_off_only_for_a_failure(
    start: Walk,
    replies: Seq<Reply>,
    step: usize,
    cancel: bool,
)
    requires
        start.is_fresh(),
        run::walked(start, replies).asks() == (Action::Listen { step, cancel }),
    ensures
        ({
            let w = run::walked(start, replies);
            cancel <==> !(start.steps[step as int].on_error is Continue) && exists|i: int|
                0 <= i < w.steps[step as int].statuses.len()
                    && (#[trigger] w.steps[step as int].statuses[i]).has_failed()
        }),
{
    let w = run::walked(start, replies);
    lemma_walked(start, replies);
    lemma_calls_off_in_time(start, replies);
    run::a_failure_stops_what_it_was_set_to_stop(w.steps[step as int]);
}

/// Workers are set on a step only if it is batched, and as many as it asked for,
/// whatever came before.
pub proof fn every_batch_gets_the_workers_it_asked_for(
    start: Walk,
    replies: Seq<Reply>,
    step: usize,
    jobs: usize,
)
    requires
        start.is_fresh(),
        run::walked(start, replies).asks() == (Action::Batch { step, jobs }),
    ensures
        step < start.steps.len(),
        start.steps[step as int].strategy == Some(step::Strategy::Batched { jobs }),
{
    lemma_walked(start, replies);
}

} // verus!
