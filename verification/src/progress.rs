//! A run comes to an end: nothing it is told leaves it going round in circles,
//! and there is always something to tell it that gets it further.

use vstd::prelude::*;

use crate::execute::{Ran, Secs, Status};
use crate::promise;
use crate::run;
use crate::run::{Phase, Reply, Seat, StepState, Walk};

verus! {

/// The most replies the steps from `s` on can take.
pub open spec fn longest(steps: Seq<StepState>, s: int) -> nat
    decreases steps.len() - s,
{
    if s < 0 || s >= steps.len() {
        0
    } else {
        4 * steps[s].statuses.len() + 4 + longest(steps, s + 1)
    }
}

/// How many of these from `from` on never ran.
pub open spec fn not_run(statuses: Seq<Status>, from: int) -> nat
    decreases statuses.len() - from,
{
    if from < 0 || from >= statuses.len() {
        0
    } else {
        not_run(statuses, from + 1) + if statuses[from] is NotRun {
            1nat
        } else {
            0
        }
    }
}

/// The most replies a command of a batch can still take.
spec fn left_in(seat: Seat, status: Status) -> nat {
    match seat {
        Seat::Waiting => 4,
        Seat::Running => 2,
        Seat::Empty => if status is NotRun {
            1
        } else {
            0
        },
    }
}

/// The most replies the commands of a batch from `from` on can still take.
spec fn left_from(seats: Seq<Seat>, statuses: Seq<Status>, from: int) -> nat
    decreases seats.len() - from,
{
    if from < 0 || from >= seats.len() {
        0
    } else {
        left_in(seats[from], statuses[from]) + left_from(seats, statuses, from + 1)
    }
}

impl Walk {
    /// The most replies the current step can still take, with this many left in
    /// its items.
    spec fn rank_in(self, step: int, left: int) -> int {
        longest(self.steps, step + 1) + self.may_give_up() + 2 + left
    }

    spec fn may_give_up(self) -> int {
        if self.failed is None {
            1
        } else {
            0
        }
    }

    spec fn rank_in_batch(self, step: int, left: int) -> int {
        self.rank_in(
            step,
            left_from(self.seats, self.steps[step].statuses, 0) + left,
        )
    }

    /// The most replies this walk can still take.
    spec fn rank(self) -> int {
        match self.phase {
            Phase::Starting => longest(self.steps, 0) + self.may_give_up() + 4,
            Phase::Making => longest(self.steps, 0) + self.may_give_up() + 3,
            Phase::Opening { step, .. } => longest(self.steps, step as int) + self.may_give_up()
                + 2,
            Phase::ItemOpening { step, at } => self.rank_in(
                step as int,
                4 * (self.steps[step as int].statuses.len() - at) + 2,
            ),
            Phase::Executing { step, at } => self.rank_in(
                step as int,
                4 * (self.steps[step as int].statuses.len() - at) + 1,
            ),
            Phase::ItemClosing { step, at } => self.rank_in(
                step as int,
                4 * (self.steps[step as int].statuses.len() - at),
            ),
            Phase::Batching { step, .. } => self.rank_in_batch(step as int, 2),
            Phase::Hearing { step, .. } => self.rank_in_batch(step as int, 3),
            Phase::Reporting { step, .. } => self.rank_in_batch(step as int, 3),
            Phase::Skipping { step, at, .. } => self.rank_in(
                step as int,
                not_run(self.steps[step as int].statuses, at + 1) as int + 2,
            ),
            Phase::Closing { step, .. } => self.rank_in(step as int, 1),
            Phase::Abandoning { step } => longest(self.steps, step + 1) as int + 3,
            Phase::Leaving { .. } => 3,
            Phase::Finishing => 2,
            Phase::Tidying => 1,
            Phase::Ended => 0,
        }
    }
}

proof fn lemma_not_run_bound(statuses: Seq<Status>, from: int)
    requires
        0 <= from <= statuses.len(),
    ensures
        not_run(statuses, from) <= statuses.len() - from,
    decreases statuses.len() - from,
{
    if from < statuses.len() {
        lemma_not_run_bound(statuses, from + 1);
    }
}

proof fn lemma_not_run_same(a: Seq<Status>, b: Seq<Status>, from: int)
    requires
        0 <= from <= a.len(),
        a.len() == b.len(),
        forall|i: int| from <= i < a.len() ==> #[trigger] a[i] == b[i],
    ensures
        not_run(a, from) == not_run(b, from),
    decreases a.len() - from,
{
    if from < a.len() {
        lemma_not_run_same(a, b, from + 1);
        assert(a[from] == b[from]);
    }
}

proof fn lemma_not_run_next(statuses: Seq<Status>, from: int)
    requires
        0 <= from <= statuses.len(),
    ensures
        ({
            let at = run::next_not_run(statuses, from);
            &&& from <= at <= statuses.len()
            &&& at < statuses.len() ==> not_run(statuses, from) == not_run(statuses, at + 1) + 1
            &&& at == statuses.len() ==> not_run(statuses, from) == 0
        }),
    decreases statuses.len() - from,
{
    if from < statuses.len() && !(statuses[from] is NotRun) {
        lemma_not_run_next(statuses, from + 1);
    }
}

proof fn lemma_longest_same(a: Seq<StepState>, b: Seq<StepState>, s: int)
    requires
        0 <= s,
        a.len() == b.len(),
        forall|k: int|
            s <= k < a.len() ==> (#[trigger] a[k]).statuses.len() == b[k].statuses.len(),
    ensures
        longest(a, s) == longest(b, s),
    decreases a.len() - s,
{
    if s < a.len() {
        lemma_longest_same(a, b, s + 1);
        assert(a[s].statuses.len() == b[s].statuses.len());
    }
}

/// The rank after skipping on from `from`.
proof fn lemma_skip_rank(w: Walk, step: int, from: int, live: bool)
    requires
        0 <= step < w.steps.len() <= usize::MAX,
        w.steps[step].statuses.len() <= usize::MAX,
        0 <= from <= w.steps[step].statuses.len(),
    ensures
        w.skip_rest(step, from, live).rank() <= w.rank_in(
            step,
            not_run(w.steps[step].statuses, from) as int + 1,
        ),
{
    let statuses = w.steps[step].statuses;
    let at = run::next_not_run(statuses, from);
    lemma_not_run_next(statuses, from);
    let next = w.skip_rest(step, from, live);
    lemma_longest_same(next.steps, w.steps, step + 1);
    if at < statuses.len() {
        lemma_not_run_same(next.steps[step].statuses, statuses, at + 1);
    }
}

proof fn lemma_left_update(
    seats: Seq<Seat>,
    statuses: Seq<Status>,
    at: int,
    seat: Seat,
    status: Status,
    from: int,
)
    requires
        0 <= from <= seats.len(),
        0 <= at < seats.len(),
        seats.len() == statuses.len(),
    ensures
        left_from(seats.update(at, seat), statuses.update(at, status), from) == left_from(
            seats,
            statuses,
            from,
        ) + if from <= at {
            left_in(seat, status) - left_in(seats[at], statuses[at])
        } else {
            0
        },
    decreases seats.len() - from,
{
    if from < seats.len() {
        lemma_left_update(seats, statuses, at, seat, status, from + 1);
    }
}

proof fn lemma_left_waiting(seats: Seq<Seat>, statuses: Seq<Status>, from: int)
    requires
        0 <= from <= seats.len(),
        forall|i: int| 0 <= i < seats.len() ==> #[trigger] seats[i] == Seat::Waiting,
    ensures
        left_from(seats, statuses, from) == 4 * (seats.len() - from),
    decreases seats.len() - from,
{
    if from < seats.len() {
        assert(seats[from] == Seat::Waiting);
        lemma_left_waiting(seats, statuses, from + 1);
    }
}

/// Everything that never ran is still to be heard of.
proof fn lemma_left_covers(seats: Seq<Seat>, statuses: Seq<Status>, from: int)
    requires
        0 <= from <= seats.len(),
        seats.len() == statuses.len(),
    ensures
        not_run(statuses, from) <= left_from(seats, statuses, from),
    decreases seats.len() - from,
{
    if from < seats.len() {
        lemma_left_covers(seats, statuses, from + 1);
    }
}

proof fn lemma_item_closed_rank(w: Walk, step: usize, at: usize)
    requires
        w.fits(),
        w.phase == (Phase::ItemClosing { step, at }),
        forall|i: int|
            0 <= i <= at ==> !(#[trigger] w.steps[step as int].statuses[i] is NotRun),
    ensures
        w.after_telling(true).rank() < w.rank(),
{
    let statuses = w.steps[step as int].statuses;
    let told = w.say(run::Tell::ItemDone { step, at });
    lemma_skip_rank(told, step as int, 0, true);
    lemma_not_run_skip(statuses, 0, at + 1);
    lemma_not_run_bound(statuses, at + 1);
}

proof fn lemma_not_run_skip(statuses: Seq<Status>, from: int, to: int)
    requires
        0 <= from <= to <= statuses.len(),
        forall|i: int| from <= i < to ==> !(#[trigger] statuses[i] is NotRun),
    ensures
        not_run(statuses, from) == not_run(statuses, to),
    decreases to - from,
{
    if from < to {
        assert(!(statuses[from] is NotRun));
        lemma_not_run_skip(statuses, from + 1, to);
    }
}

proof fn lemma_told_rank(w: Walk, ok: bool)
    requires
        w.fits(),
        w.steady(),
        w.asks() is Tell,
        w.settled_here(),
    ensures
        w.after_telling(ok).rank() < w.rank(),
{
    let next = w.after_telling(ok);
    match w.phase {
        Phase::Opening { step, live } => {
            let told = w.say(run::Tell::StepStart { step });
            let statuses = w.steps[step as int].statuses;
            lemma_skip_rank(told, step as int, 0, live);
            lemma_skip_rank(told, step as int, 0, true);
            lemma_not_run_bound(statuses, 0);
            if ok && live && w.steps[step as int].batched() {
                lemma_left_waiting(next.seats, statuses, 0);
            }
        },
        Phase::ItemClosing { step, at } => {
            if ok {
                lemma_item_closed_rank(w, step, at);
            }
        },
        Phase::Skipping { step, at, live } => {
            let told = w.say(run::Tell::ItemDone { step, at });
            lemma_skip_rank(told, step as int, at + 1, live);
        },
        _ => {},
    }
}

impl Walk {
    /// Whether nothing up to the item just run is left to skip.
    spec fn settled_here(self) -> bool {
        self.phase matches Phase::ItemClosing { step, at } ==> forall|i: int|
            0 <= i <= at ==> !(#[trigger] self.steps[step as int].statuses[i] is NotRun)
    }
}

proof fn lemma_done_rank(w: Walk, reply: Reply)
    requires
        w.fits(),
        w.steady(),
        !(reply is Told),
    ensures
        w.after(reply) == w || w.after(reply).rank() < w.rank(),
{
    let next = w.after(reply);
    match (w.phase, reply) {
        (Phase::Executing { step, at }, Reply::Ran { ran, .. }) => {
            lemma_longest_same(next.steps, w.steps, step + 1);
        },
        (Phase::Batching { step, .. }, Reply::Started { at }) => {
            let statuses = w.steps[step as int].statuses;
            if w.seated(at, Seat::Waiting) {
                lemma_left_update(
                    w.seats,
                    statuses,
                    at as int,
                    Seat::Running,
                    statuses[at as int],
                    0,
                );
                assert(statuses.update(at as int, statuses[at as int]) =~= statuses);
            }
        },
        (Phase::Batching { step, .. }, Reply::Back { at, ran: Some(ran), .. }) => {
            let statuses = w.steps[step as int].statuses;
            lemma_longest_same(next.steps, w.steps, step + 1);
            if w.seated(at, Seat::Running) && ran.status.has_run() {
                lemma_left_update(w.seats, statuses, at as int, Seat::Empty, ran.status, 0);
            }
        },
        (Phase::Batching { step, .. }, Reply::Back { at, ran: None, .. }) => {
            let statuses = w.steps[step as int].statuses;
            if w.seated(at, Seat::Waiting) {
                lemma_left_update(
                    w.seats,
                    statuses,
                    at as int,
                    Seat::Empty,
                    statuses[at as int],
                    0,
                );
                assert(statuses.update(at as int, statuses[at as int]) =~= statuses);
            }
        },
        (Phase::Batching { step, .. }, Reply::Drained) => {
            let statuses = w.steps[step as int].statuses;
            lemma_skip_rank(w, step as int, 0, true);
            lemma_left_covers(w.seats, statuses, 0);
        },
        _ => {},
    }
}

proof fn lemma_rank_falls(w: Walk, reply: Reply)
    requires
        w.fits(),
        w.steady(),
        w.settled_here(),
    ensures
        w.after(reply) == w || w.after(reply).rank() < w.rank(),
{
    match reply {
        Reply::Told(ok) => {
            if w.asks() is Tell {
                lemma_told_rank(w, ok);
            }
        },
        _ => {
            lemma_done_rank(w, reply);
        },
    }
}

/// Whether every one of these replies got the walk further.
pub open spec fn all_count(start: Walk, replies: Seq<Reply>) -> bool
    decreases replies.len(),
{
    replies.len() == 0 || all_count(start, replies.drop_last()) && run::walked(start, replies)
        != run::walked(start, replies.drop_last())
}

proof fn lemma_rank_after(start: Walk, replies: Seq<Reply>)
    requires
        start.is_fresh(),
        all_count(start, replies),
    ensures
        run::walked(start, replies).rank() + replies.len() <= start.rank(),
    decreases replies.len(),
{
    if replies.len() > 0 {
        lemma_rank_after(start, replies.drop_last());
        promise::lemma_along_the_way(start, replies.drop_last());
        lemma_rank_falls(run::walked(start, replies.drop_last()), replies.last());
    }
}

proof fn lemma_rank_is_not_negative(w: Walk)
    requires
        w.fits(),
    ensures
        w.rank() >= 0,
{
}

/// A run comes to an end. Whatever comes of what it asks for, it takes no more
/// replies that get it further than its steps have room for: four and four more
/// for each thing they hold, and five for the run itself.
pub proof fn a_run_comes_to_an_end(start: Walk, replies: Seq<Reply>)
    requires
        start.is_fresh(),
        all_count(start, replies),
    ensures
        replies.len() <= longest(start.steps, 0) + 5,
{
    lemma_rank_after(start, replies);
    promise::lemma_along_the_way(start, replies);
    lemma_rank_is_not_negative(run::walked(start, replies));
}

/// A run is never stuck. Until it is over, there is a reply to what it asks for
/// that gets it further.
pub proof fn a_run_is_never_stuck(start: Walk, replies: Seq<Reply>)
    requires
        start.is_fresh(),
        !(run::walked(start, replies).phase is Ended),
    ensures
        exists|reply: Reply| #[trigger]
            run::walked(start, replies).after(reply) != run::walked(start, replies),
{
    let w = run::walked(start, replies);
    promise::lemma_along_the_way(start, replies);
    let some = Secs { nanos: 0 };
    let ran = Ran { status: Status::Failed(arbitrary()), ..arbitrary() };
    match w.phase {
        Phase::Making => {
            assert(w.after(Reply::Made(false)) != w);
        },
        Phase::Executing { .. } => {
            assert(w.after(Reply::Ran { ran, elapsed_s: some }) != w);
        },
        Phase::Batching { step, .. } => {
            if w.drained(step as int) {
                lemma_done_rank(w, Reply::Drained);
                assert(w.after(Reply::Drained).phase != w.phase);
            } else if w.seats.contains(Seat::Running) {
                let i = choose|i: int| 0 <= i < w.seats.len() && w.seats[i] == Seat::Running;
                let reply = Reply::Back { at: i as usize, ran: Some(ran), elapsed_s: some };
                assert(w.after(reply).phase != w.phase);
            } else {
                let i = choose|i: int| 0 <= i < w.seats.len() && w.seats[i] == Seat::Waiting;
                let reply = Reply::Started { at: i as usize };
                assert(w.after(reply).phase != w.phase);
            }
        },
        Phase::Leaving { .. } => {
            assert(w.after(Reply::Left) != w);
        },
        Phase::Tidying => {
            assert(w.after(Reply::Tidied) != w);
        },
        _ => {
            lemma_told_rank(w, true);
            assert(w.after(Reply::Told(true)) != w);
        },
    }
}

} // verus!
