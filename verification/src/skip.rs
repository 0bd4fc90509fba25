//! Skipping the rest of a step: everything in it that never ran is marked so and
//! announced, one after another, and nothing else changes.

use vstd::prelude::*;

use crate::execute::Status;
use crate::promise;
use crate::run;
use crate::run::{Action, Phase, Reply, StepState, Tell, Walk};

verus! {

/// Where the things from `from` on that never ran are, in order.
pub open spec fn left_out(statuses: Seq<Status>, from: int) -> Seq<int>
    decreases statuses.len() - from,
{
    if from < 0 || from >= statuses.len() {
        Seq::empty()
    } else if statuses[from] is NotRun {
        seq![from] + left_out(statuses, from + 1)
    } else {
        left_out(statuses, from + 1)
    }
}

/// How everything has gone once what never ran is skipped.
pub open spec fn with_skipped(statuses: Seq<Status>) -> Seq<Status> {
    Seq::new(
        statuses.len(),
        |i: int|
            if statuses[i] is NotRun {
                Status::Skipped
            } else {
                statuses[i]
            },
    )
}

/// What the sinks are told of these places in a step.
pub open spec fn announced(step: int, places: Seq<int>) -> Seq<Tell> {
    Seq::new(
        places.len(),
        |k: int| Tell::ItemDone { step: step as usize, at: places[k] as usize },
    )
}

/// The sinks taking everything they are told, this often.
pub open spec fn all_taken(n: nat) -> Seq<Reply> {
    Seq::new(n, |k: int| Reply::Told(true))
}

/// A step with everything in it skipped that never ran, everything told of that,
/// and nothing else changed.
pub open spec fn rest_skipped(w: Walk, step: int, live: bool) -> Walk {
    let before = w.steps[step];
    Walk {
        steps: w.steps.update(
            step,
            StepState { statuses: with_skipped(before.statuses), ..before },
        ),
        told: w.told + announced(step, left_out(before.statuses, 0)),
        phase: Phase::Closing { step: step as usize, live },
        ..w
    }
}

/// Everything from `from` on.
spec fn skipped_from(statuses: Seq<Status>, from: int) -> Seq<Status> {
    Seq::new(
        statuses.len(),
        |i: int|
            if from <= i && statuses[i] is NotRun {
                Status::Skipped
            } else {
                statuses[i]
            },
    )
}

proof fn lemma_left_out(statuses: Seq<Status>, from: int)
    requires
        0 <= from <= statuses.len(),
    ensures
        ({
            let at = run::next_not_run(statuses, from);
            let rest = left_out(statuses, from);
            &&& from <= at <= statuses.len()
            &&& forall|i: int| from <= i < at ==> !(#[trigger] statuses[i] is NotRun)
            &&& if at < statuses.len() {
                statuses[at] is NotRun && rest == seq![at] + left_out(statuses, at + 1)
            } else {
                rest == Seq::<int>::empty()
            }
        }),
    decreases statuses.len() - from,
{
    if from < statuses.len() && !(statuses[from] is NotRun) {
        lemma_left_out(statuses, from + 1);
    }
}

proof fn lemma_left_out_same(a: Seq<Status>, b: Seq<Status>, from: int)
    requires
        0 <= from <= a.len(),
        a.len() == b.len(),
        forall|i: int| from <= i < a.len() ==> #[trigger] a[i] == b[i],
    ensures
        left_out(a, from) == left_out(b, from),
    decreases a.len() - from,
{
    if from < a.len() {
        assert(a[from] == b[from]);
        lemma_left_out_same(a, b, from + 1);
    }
}

/// One tell taken, and then the rest.
proof fn lemma_one_taken(w: Walk, n: nat)
    requires
        n > 0,
    ensures
        run::walked(w, all_taken(n)) == run::walked(
            w.after(Reply::Told(true)),
            all_taken((n - 1) as nat),
        ),
{
    let one = all_taken(1);
    let rest = all_taken((n - 1) as nat);
    assert(all_taken(n) =~= one + rest);
    promise::lemma_walked_on(w, one, rest);
    assert(one.drop_last() =~= Seq::<Reply>::empty());
    assert(run::walked(w, Seq::<Reply>::empty()) == w);
    assert(run::walked(w, one) == w.after(Reply::Told(true)));
}

proof fn lemma_skip_on(w: Walk, step: int, from: int, live: bool)
    requires
        0 <= step < w.steps.len() <= usize::MAX,
        w.steps[step].statuses.len() <= usize::MAX,
        0 <= from <= w.steps[step].statuses.len(),
    ensures
        ({
            let before = w.steps[step];
            let places = left_out(before.statuses, from);
            run::walked(w.skip_rest(step, from, live), all_taken(places.len())) == (Walk {
                steps: w.steps.update(
                    step,
                    StepState { statuses: skipped_from(before.statuses, from), ..before },
                ),
                told: w.told + announced(step, places),
                phase: Phase::Closing { step: step as usize, live },
                ..w
            })
        }),
    decreases w.steps[step].statuses.len() - from,
{
    let before = w.steps[step];
    let statuses = before.statuses;
    let at = run::next_not_run(statuses, from);
    let places = left_out(statuses, from);
    let first = w.skip_rest(step, from, live);
    lemma_left_out(statuses, from);
    if at < statuses.len() {
        let next = first.say(Tell::ItemDone { step: step as usize, at: at as usize });
        assert(first.after(Reply::Told(true)) == next.skip_rest(step, at + 1, live));
        lemma_one_taken(first, places.len());
        lemma_skip_on(next, step, at + 1, live);
        let now = next.steps[step].statuses;
        lemma_left_out_same(now, statuses, at + 1);
        assert(skipped_from(now, at + 1) =~= skipped_from(statuses, from));
        let end = run::walked(first, all_taken(places.len()));
        assert(end.steps =~= w.steps.update(
            step,
            StepState { statuses: skipped_from(statuses, from), ..before },
        ));
        assert(end.told =~= w.told + announced(step, places));
    } else {
        assert(all_taken(0) =~= Seq::<Reply>::empty());
        assert(run::walked(first, Seq::<Reply>::empty()) == first);
        assert(skipped_from(statuses, from) =~= statuses);
        assert(first.steps =~= w.steps.update(
            step,
            StepState { statuses: skipped_from(statuses, from), ..before },
        ));
        assert(first.told =~= w.told + announced(step, places));
    }
}

/// Skipping the rest of a step, with sinks that take everything: every item that
/// never ran is now skipped and was announced once, in the order the step holds
/// them; every other keeps its status and is not spoken of; and nothing else
/// changes. Nothing in the step is left that never ran.
pub proof fn skipping_the_rest_leaves_nothing_not_run(w: Walk, step: int, live: bool)
    requires
        0 <= step < w.steps.len() <= usize::MAX,
        w.steps[step].statuses.len() <= usize::MAX,
    ensures
        run::walked(
            w.skip_rest(step, 0, live),
            all_taken(left_out(w.steps[step].statuses, 0).len()),
        ) == rest_skipped(w, step, live),
        promise::all_settled(rest_skipped(w, step, live).steps[step].statuses),
{
    lemma_skip_on(w, step, 0, live);
    assert(skipped_from(w.steps[step].statuses, 0) =~= with_skipped(w.steps[step].statuses));
}

/// Skipping the rest of a step whose rest was skipped changes nothing and says
/// nothing.
pub proof fn skipping_the_rest_again_does_nothing(w: Walk, step: int, live: bool)
    requires
        0 <= step < w.steps.len(),
    ensures
        rest_skipped(w, step, live).skip_rest(step, 0, live) == rest_skipped(w, step, live),
        left_out(rest_skipped(w, step, live).steps[step].statuses, 0) == Seq::<int>::empty(),
{
    let done = rest_skipped(w, step, live);
    lemma_left_out(done.steps[step].statuses, 0);
}

proof fn lemma_left_out_places(statuses: Seq<Status>, from: int)
    requires
        0 <= from <= statuses.len(),
    ensures
        forall|k: int|
            0 <= k < left_out(statuses, from).len() ==> {
                &&& from <= #[trigger] left_out(statuses, from)[k] < statuses.len()
                &&& statuses[left_out(statuses, from)[k]] is NotRun
            },
        forall|j: int, k: int|
            0 <= j < k < left_out(statuses, from).len() ==> #[trigger] left_out(statuses, from)[j]
                < #[trigger] left_out(statuses, from)[k],
        forall|i: int|
            from <= i < statuses.len() && #[trigger] statuses[i] is NotRun ==> left_out(
                statuses,
                from,
            ).contains(i),
    decreases statuses.len() - from,
{
    if from < statuses.len() {
        lemma_left_out_places(statuses, from + 1);
        let rest = left_out(statuses, from + 1);
        let all = left_out(statuses, from);
        if statuses[from] is NotRun {
            assert(all[0] == from);
            assert forall|k: int| 0 < k < all.len() implies #[trigger] all[k] == rest[k - 1] by {}
        }
        assert forall|i: int| from <= i < statuses.len() && #[trigger] statuses[i]
            is NotRun implies all.contains(i) by {
            if i > from {
                assert(rest.contains(i));
                let k = choose|k: int| 0 <= k < rest.len() && rest[k] == i;
                if statuses[from] is NotRun {
                    assert(all[k + 1] == i);
                }
            }
        }
    }
}

/// What is announced by skipping the rest of a step is exactly what never ran,
/// each once and in the order the step holds them.
pub proof fn exactly_what_never_ran_is_announced(statuses: Seq<Status>)
    ensures
        forall|i: int|
            0 <= i < statuses.len() ==> (#[trigger] statuses[i] is NotRun <==> left_out(
                statuses,
                0,
            ).contains(i)),
        forall|j: int, k: int|
            0 <= j < k < left_out(statuses, 0).len() ==> #[trigger] left_out(statuses, 0)[j]
                < #[trigger] left_out(statuses, 0)[k],
{
    lemma_left_out_places(statuses, 0);
    let places = left_out(statuses, 0);
    assert forall|i: int| 0 <= i < statuses.len() implies (#[trigger] statuses[i]
        is NotRun <==> places.contains(i)) by {
        if places.contains(i) {
            let k = choose|k: int| 0 <= k < places.len() && places[k] == i;
            assert(statuses[places[k]] is NotRun);
        }
    }
}

/// Whatever is announced along the way of skipping is announced as skipped.
pub proof fn what_is_skipped_is_announced_as_skipped(w: Walk, step: int, from: int, live: bool)
    requires
        0 <= step < w.steps.len() <= usize::MAX,
        w.steps[step].statuses.len() <= usize::MAX,
        0 <= from <= w.steps[step].statuses.len(),
    ensures
        w.skip_rest(step, from, live).asks() matches Action::Tell(
            Tell::ItemDone { step: s, at },
        ) ==> s == step && w.skip_rest(step, from, live).steps[step].statuses[at as int] is Skipped,
{
    lemma_left_out(w.steps[step].statuses, from);
}

} // verus!
