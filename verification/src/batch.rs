//! Stopping what is running: a batch that is called off, and a command that
//! outstays its deadline.

use vstd::prelude::*;

verus! {

/// How many seconds anything gets to leave on a SIGTERM before it gets a
/// SIGKILL.
pub const SIGTERM_GRACE_S: u64 = 5;

/// What a batch knows: how many of its commands workers have taken, whether it
/// has been called off, the processes it has running, and every one it has asked
/// to terminate.
pub struct Roll {
    pub taken: int,
    pub cancelled: bool,
    pub running: Seq<i32>,
    pub asked: Seq<i32>,
}

/// These without any that is `pid`.
pub open spec fn without(pids: Seq<i32>, pid: i32) -> Seq<i32>
    decreases pids.len(),
{
    if pids.len() == 0 {
        Seq::empty()
    } else if pids.last() == pid {
        without(pids.drop_last(), pid)
    } else {
        without(pids.drop_last(), pid).push(pids.last())
    }
}

/// Something that happens to a batch.
pub enum Event {
    /// A free worker asks for the next command, of this many.
    Claim(usize),
    /// A process starts.
    Add(i32),
    /// A process is over, and its number about to be given up.
    Remove(i32),
    /// It is called off.
    Cancel,
}

impl Roll {
    /// With nothing running.
    pub open spec fn empty() -> Roll {
        Roll { taken: 0, cancelled: false, running: Seq::empty(), asked: Seq::empty() }
    }

    /// The command the next free worker gets, of this many. None once they are
    /// all taken, or the batch is called off.
    pub open spec fn claims(self, of: usize) -> Option<usize> {
        if !self.cancelled && 0 <= self.taken < of {
            Some(self.taken as usize)
        } else {
            None
        }
    }

    /// The processes that get a SIGKILL, by whether the grace is up.
    pub open spec fn to_kill(self, timed_out: bool) -> Seq<i32> {
        if timed_out {
            self.running
        } else {
            Seq::empty()
        }
    }

    pub open spec fn after(self, event: Event) -> Roll {
        match event {
            Event::Claim(of) => if self.claims(of) is Some {
                Roll { taken: self.taken + 1, ..self }
            } else {
                self
            },
            Event::Add(pid) => Roll {
                running: self.running.push(pid),
                // one that started while the batch was being called off still
                // has to go
                asked: if self.cancelled {
                    self.asked.push(pid)
                } else {
                    self.asked
                },
                ..self
            },
            Event::Remove(pid) => Roll { running: without(self.running, pid), ..self },
            Event::Cancel => if self.cancelled {
                self
            } else {
                Roll { cancelled: true, asked: self.asked + self.running, ..self }
            },
        }
    }
}

/// What a batch knows after all of this.
pub open spec fn roll_after(events: Seq<Event>) -> Roll
    decreases events.len(),
{
    if events.len() == 0 {
        Roll::empty()
    } else {
        roll_after(events.drop_last()).after(events.last())
    }
}

/// One batch step: whether it has been cancelled, and the pids it has running.
///
/// Both are made fresh for the step, so cancelling reaches that step's commands
/// and nothing else, and leaves nothing behind for the next step.
pub struct Batch {
    taken: usize,
    cancelled: bool,
    /// A cancel has to reach every process at once, and this is the only place
    /// their pids are collected.
    running: Vec<i32>,
    asked: Ghost<Seq<i32>>,
}

impl View for Batch {
    type V = Roll;

    closed spec fn view(&self) -> Roll {
        Roll {
            taken: self.taken as int,
            cancelled: self.cancelled,
            running: self.running@,
            asked: self.asked@,
        }
    }
}

impl Batch {
    pub fn new() -> (r: Batch)
        ensures
            r@ == Roll::empty(),
    {
        let r = Batch {
            taken: 0,
            cancelled: false,
            running: Vec::new(),
            asked: Ghost(Seq::empty()),
        };
        assert(r@.running =~= Seq::empty());
        r
    }

    pub fn cancelled(&self) -> (r: bool)
        ensures
            r == self@.cancelled,
    {
        self.cancelled
    }

    /// The next command for a free worker, out of `of` of them. Workers take the
    /// next whenever they are free, so one slow command does not idle the rest.
    pub fn claim(&mut self, of: usize) -> (r: Option<usize>)
        ensures
            r == old(self)@.claims(of),
            final(self)@ == old(self)@.after(Event::Claim(of)),
    {
        if !self.cancelled && self.taken < of {
            let at = self.taken;
            self.taken = at + 1;
            Some(at)
        } else {
            None
        }
    }

    /// Whether a command that has its cores is to be started. One whose batch was
    /// cancelled while it waited for them is not, and comes back never having
    /// run, like the ones no worker reached.
    pub fn starts(&self) -> (r: bool)
        ensures
            r == !self@.cancelled,
    {
        !self.cancelled
    }

    /// Nothing new starts, and everything running is to be terminated: these
    /// processes. Calling this more than once does nothing extra, which a batch
    /// relies on: it cancels once per result after the first failure.
    pub fn cancel(&mut self) -> (r: Option<Vec<i32>>)
        ensures
            final(self)@ == old(self)@.after(Event::Cancel),
            r is None <==> old(self)@.cancelled,
            r matches Some(pids) ==> pids@ == old(self)@.running,
    {
        if self.cancelled {
            return None;
        }
        self.cancelled = true;
        self.asked = Ghost(self.asked@ + self.running@);
        Some(listed(&self.running))
    }

    /// The processes that get a SIGKILL once the grace is up, if it is up before
    /// they have all gone. Only pids still listed, and a listed pid has not been
    /// reaped, so this cannot reach a process that stopped being ours.
    pub fn kill_remaining(&self, timed_out: bool) -> (r: Vec<i32>)
        ensures
            r@ == if timed_out {
                self@.running
            } else {
                Seq::empty()
            },
            r@ == self@.to_kill(timed_out),
    {
        if timed_out {
            listed(&self.running)
        } else {
            let none: Vec<i32> = Vec::new();
            assert(none@ =~= Seq::empty());
            none
        }
    }

    /// A process started. Says whether it is to be terminated there and then,
    /// having started while the batch was being cancelled.
    pub fn add(&mut self, pid: i32) -> (r: bool)
        ensures
            final(self)@ == old(self)@.after(Event::Add(pid)),
            r == old(self)@.cancelled,
    {
        self.running.push(pid);
        if self.cancelled {
            self.asked = Ghost(self.asked@.push(pid));
        }
        self.cancelled
    }

    /// A process is over. Says whether that leaves none.
    pub fn remove(&mut self, pid: i32) -> (r: bool)
        ensures
            final(self)@ == old(self)@.after(Event::Remove(pid)),
            r == (final(self)@.running.len() == 0),
    {
        let mut left: Vec<i32> = Vec::new();
        assert(without(self.running@.take(0), pid) =~= left@);
        for i in 0..self.running.len()
            invariant
                left@ == without(self.running@.take(i as int), pid),
        {
            assert(self.running@.take(i + 1).drop_last() =~= self.running@.take(i as int));
            if self.running[i] != pid {
                left.push(self.running[i]);
            }
        }
        assert(self.running@.take(self.running@.len() as int) =~= self.running@);
        self.running = left;
        self.running.len() == 0
    }
}

fn listed(pids: &Vec<i32>) -> (r: Vec<i32>)
    ensures
        r@ == pids@,
{
    let mut out: Vec<i32> = Vec::new();
    for i in 0..pids.len()
        invariant
            out@ == pids@.take(i as int),
    {
        out.push(pids[i]);
        assert(out@ =~= pids@.take(i + 1));
    }
    assert(out@ =~= pids@);
    out
}

proof fn lemma_without(pids: Seq<i32>, pid: i32, other: i32)
    ensures
        without(pids, pid).contains(other) <==> pids.contains(other) && other != pid,
    decreases pids.len(),
{
    if pids.len() > 0 {
        let most = pids.drop_last();
        lemma_without(most, pid, other);
        assert(most.push(pids.last()) =~= pids);
        lemma_push(most, pids.last(), other);
        lemma_push(without(most, pid), pids.last(), other);
    }
}

proof fn lemma_push(pids: Seq<i32>, last: i32, other: i32)
    ensures
        pids.push(last).contains(other) <==> pids.contains(other) || other == last,
{
    let more = pids.push(last);
    assert(more[pids.len() as int] == last);
    if pids.contains(other) {
        let i = choose|i: int| 0 <= i < pids.len() && pids[i] == other;
        assert(more[i] == other);
    }
}

proof fn lemma_both(a: Seq<i32>, b: Seq<i32>, other: i32)
    ensures
        (a + b).contains(other) <==> a.contains(other) || b.contains(other),
{
    if a.contains(other) {
        let i = choose|i: int| 0 <= i < a.len() && a[i] == other;
        assert((a + b)[i] == other);
    }
    if b.contains(other) {
        let i = choose|i: int| 0 <= i < b.len() && b[i] == other;
        assert((a + b)[a.len() + i] == other);
    }
}

/// Calling a batch off reaches everything it runs, whatever order things happen
/// in: once it is called off, every process still running has been asked to
/// terminate, the ones that started since among them. Until then none has.
pub proof fn a_cancel_reaches_everything_running(events: Seq<Event>, pid: i32)
    ensures
        ({
            let roll = roll_after(events);
            &&& roll.cancelled && roll.running.contains(pid) ==> roll.asked.contains(pid)
            &&& !roll.cancelled ==> roll.asked.len() == 0
            &&& roll.cancelled <==> exists|i: int|
                0 <= i < events.len() && #[trigger] events[i] is Cancel
        }),
    decreases events.len(),
{
    if events.len() > 0 {
        let most = events.drop_last();
        a_cancel_reaches_everything_running(most, pid);
        let before = roll_after(most);
        match events.last() {
            Event::Claim(_) => {},
            Event::Add(new) => {
                lemma_push(before.running, new, pid);
                lemma_push(before.asked, new, pid);
            },
            Event::Remove(gone) => {
                lemma_without(before.running, gone, pid);
            },
            Event::Cancel => {
                lemma_both(before.asked, before.running, pid);
                assert(events[events.len() - 1] is Cancel);
            },
        }
        if before.cancelled {
            let i = choose|i: int| 0 <= i < most.len() && #[trigger] most[i] is Cancel;
            assert(events[i] is Cancel);
        }
        if exists|i: int| 0 <= i < events.len() && #[trigger] events[i] is Cancel {
            let i = choose|i: int| 0 <= i < events.len() && #[trigger] events[i] is Cancel;
            if i < most.len() {
                assert(most[i] is Cancel);
            }
        }
    }
}

/// What the workers were given along the way, in the order they asked.
pub open spec fn handed_out(events: Seq<Event>) -> Seq<usize>
    decreases events.len(),
{
    if events.len() == 0 {
        Seq::empty()
    } else {
        let before = handed_out(events.drop_last());
        match events.last() {
            Event::Claim(of) => match roll_after(events.drop_last()).claims(of) {
                Some(at) => before.push(at),
                None => before,
            },
            _ => before,
        }
    }
}

/// Commands are handed out in order, and none of them twice.
pub proof fn commands_are_handed_out_in_order(events: Seq<Event>)
    ensures
        handed_out(events) == Seq::new(handed_out(events).len(), |i: int| i as usize),
        roll_after(events).taken == handed_out(events).len(),
    decreases events.len(),
{
    if events.len() > 0 {
        commands_are_handed_out_in_order(events.drop_last());
        let before = handed_out(events.drop_last());
        let after = handed_out(events);
        assert(after =~= Seq::new(after.len(), |i: int| i as usize));
    } else {
        assert(handed_out(events) =~= Seq::new(0, |i: int| i as usize));
    }
}

/// Calling a batch off again does nothing extra.
pub proof fn cancelling_again_does_nothing(events: Seq<Event>)
    requires
        roll_after(events).cancelled,
    ensures
        roll_after(events.push(Event::Cancel)) == roll_after(events),
{
    assert(events.push(Event::Cancel).drop_last() =~= events);
}

/// Nothing is handed out and nothing starts once a batch is called off, whatever
/// happens after.
pub proof fn nothing_starts_once_cancelled(events: Seq<Event>, more: Seq<Event>, of: usize)
    requires
        roll_after(events).cancelled,
    ensures
        roll_after(events + more).cancelled,
        roll_after(events + more).claims(of) is None,
        handed_out(events + more) == handed_out(events),
    decreases more.len(),
{
    if more.len() == 0 {
        assert(events + more =~= events);
    } else {
        nothing_starts_once_cancelled(events, more.drop_last(), of);
        assert((events + more).drop_last() =~= events + more.drop_last());
        assert((events + more).last() == more.last());
    }
}

/// A signal to stop.
#[derive(Clone, Copy, Debug, PartialEq, Eq, Structural)]
pub enum Signal {
    Term,
    Kill,
}

/// What minding a deadline wants done next.
#[derive(Clone, Copy, Debug, PartialEq, Eq, Structural)]
pub enum Minding {
    /// Wait for the process, up to its limit.
    Wait,
    /// Send it this.
    Send(Signal),
    /// Wait for it, up to the grace it gets after a SIGTERM.
    WaitGrace,
    /// Nothing: this is how it came out, and whether it had to be killed.
    Over { killed: bool },
}

/// A process with a deadline on it: what minding it has come to, and what it has
/// been sent.
pub struct Deadline {
    next: Minding,
    sent: Ghost<Seq<Signal>>,
}

/// What minding a deadline has come to.
pub struct Watch {
    pub next: Minding,
    pub sent: Seq<Signal>,
}

impl View for Deadline {
    type V = Watch;

    closed spec fn view(&self) -> Watch {
        Watch { next: self.next, sent: self.sent@ }
    }
}

impl Watch {
    pub open spec fn fresh() -> Watch {
        Watch { next: Minding::Wait, sent: Seq::empty() }
    }

    /// After a wait, with the process over by the end of it or not.
    pub open spec fn waited(self, finished: bool) -> Watch {
        let next = match self.next {
            Minding::Wait => if finished {
                Minding::Over { killed: false }
            } else {
                Minding::Send(Signal::Term)
            },
            Minding::WaitGrace => if finished {
                Minding::Over { killed: true }
            } else {
                Minding::Send(Signal::Kill)
            },
            next => next,
        };
        Watch { next, ..self }
    }

    /// After a signal was sent.
    pub open spec fn signalled(self) -> Watch {
        match self.next {
            Minding::Send(Signal::Term) => Watch {
                next: Minding::WaitGrace,
                sent: self.sent.push(Signal::Term),
            },
            Minding::Send(Signal::Kill) => Watch {
                next: Minding::Over { killed: true },
                sent: self.sent.push(Signal::Kill),
            },
            _ => self,
        }
    }
}

impl Deadline {
    pub fn new() -> (r: Deadline)
        ensures
            r@ == Watch::fresh(),
    {
        Deadline { next: Minding::Wait, sent: Ghost(Seq::empty()) }
    }

    /// What is to be done next.
    pub fn next(&self) -> (r: Minding)
        ensures
            r == self@.next,
    {
        self.next
    }

    /// A wait is over, and so is the process if `finished`.
    pub fn waited(&mut self, finished: bool)
        ensures
            final(self)@ == old(self)@.waited(finished),
    {
        self.next =
        match self.next {
            Minding::Wait => {
                if finished {
                    Minding::Over { killed: false }
                } else {
                    Minding::Send(Signal::Term)
                }
            },
            Minding::WaitGrace => {
                if finished {
                    Minding::Over { killed: true }
                } else {
                    Minding::Send(Signal::Kill)
                }
            },
            next => next,
        };
    }

    /// A signal was sent.
    pub fn signalled(&mut self)
        ensures
            final(self)@ == old(self)@.signalled(),
    {
        match self.next {
            Minding::Send(Signal::Term) => {
                self.sent = Ghost(self.sent@.push(Signal::Term));
                self.next = Minding::WaitGrace;
            },
            Minding::Send(Signal::Kill) => {
                self.sent = Ghost(self.sent@.push(Signal::Kill));
                self.next = Minding::Over { killed: true };
            },
            _ => {},
        }
    }
}

/// Something minding a deadline hears of.
pub enum Noticed {
    Waited(bool),
    Signalled,
}

/// What minding a deadline has come to after all of this.
pub open spec fn watch_after(events: Seq<Noticed>) -> Watch
    decreases events.len(),
{
    if events.len() == 0 {
        Watch::fresh()
    } else {
        let before = watch_after(events.drop_last());
        match events.last() {
            Noticed::Waited(finished) => before.waited(finished),
            Noticed::Signalled => before.signalled(),
        }
    }
}

/// A process gets a SIGTERM before it gets a SIGKILL, one of each at most, and
/// the SIGKILL only once it has sat out the grace; and it counts as killed
/// exactly when it was sent anything.
pub proof fn a_kill_comes_only_after_a_term_and_the_grace(events: Seq<Noticed>)
    ensures
        ({
            let watch = watch_after(events);
            match watch.next {
                Minding::Wait => watch.sent == Seq::<Signal>::empty(),
                Minding::Send(Signal::Term) => watch.sent == Seq::<Signal>::empty(),
                Minding::WaitGrace => watch.sent == seq![Signal::Term],
                Minding::Send(Signal::Kill) => watch.sent == seq![Signal::Term],
                Minding::Over { killed: false } => watch.sent == Seq::<Signal>::empty(),
                Minding::Over { killed: true } => watch.sent == seq![Signal::Term] || watch.sent
                    == seq![Signal::Term, Signal::Kill],
            }
        }),
    decreases events.len(),
{
    if events.len() > 0 {
        a_kill_comes_only_after_a_term_and_the_grace(events.drop_last());
        assert(Seq::<Signal>::empty().push(Signal::Term) =~= seq![Signal::Term]);
        assert(seq![Signal::Term].push(Signal::Kill) =~= seq![Signal::Term, Signal::Kill]);
    }
}

/// A free worker goes without only if the batch was called off or everything is
/// taken; otherwise it gets the first that nobody has.
pub proof fn no_worker_goes_without(events: Seq<Event>, of: usize)
    ensures
        ({
            let roll = roll_after(events);
            let given = handed_out(events);
            &&& roll.claims(of) is None <==> roll.cancelled || given.len() >= of
            &&& roll.claims(of) matches Some(at) ==> at == given.len() && at < of
                && !given.contains(at)
        }),
{
    commands_are_handed_out_in_order(events);
    let given = handed_out(events);
    if let Some(at) = roll_after(events).claims(of) {
        if given.contains(at) {
            let i = choose|i: int| 0 <= i < given.len() && given[i] == at;
            assert(given[i] == i as usize);
        }
    }
}

/// A process that is over is no longer listed, and every other stays, as often and in
/// the order it was.
pub proof fn only_what_is_over_leaves_the_list(pids: Seq<i32>, more: Seq<i32>, pid: i32, other: i32)
    ensures
        !without(pids, pid).contains(pid),
        other != pid ==> (without(pids, pid).contains(other) <==> pids.contains(other)),
        !pids.contains(pid) ==> without(pids, pid) == pids,
        without(pids + more, pid) == without(pids, pid) + without(more, pid),
        without(seq![pid], pid).len() == 0,
    decreases pids.len() + more.len(),
{
    lemma_without(pids, pid, pid);
    lemma_without(pids, pid, other);
    assert(seq![pid].drop_last() =~= Seq::<i32>::empty());
    assert(without(Seq::<i32>::empty(), pid).len() == 0);
    assert(without(seq![pid], pid) == without(seq![pid].drop_last(), pid));
    if !pids.contains(pid) {
        lemma_without_none(pids, pid);
    }
    if more.len() == 0 {
        assert(pids + more =~= pids);
        assert(without(pids, pid) + without(more, pid) =~= without(pids, pid));
    } else {
        only_what_is_over_leaves_the_list(pids, more.drop_last(), pid, other);
        assert((pids + more).drop_last() =~= pids + more.drop_last());
        assert(without(pids + more, pid) =~= without(pids, pid) + without(more, pid));
    }
}

proof fn lemma_without_none(pids: Seq<i32>, pid: i32)
    requires
        !pids.contains(pid),
    ensures
        without(pids, pid) == pids,
    decreases pids.len(),
{
    if pids.len() > 0 {
        let most = pids.drop_last();
        assert(pids[pids.len() - 1] != pid);
        if most.contains(pid) {
            let i = choose|i: int| 0 <= i < most.len() && most[i] == pid;
            assert(pids[i] == pid);
        }
        lemma_without_none(most, pid);
        assert(most.push(pids.last()) =~= pids);
    }
}

/// What is running is what started and is not over: a process that starts is listed
/// from then on, and one that is over is not.
pub proof fn what_is_running_is_listed(events: Seq<Event>, pid: i32)
    ensures
        roll_after(events.push(Event::Add(pid))).running == roll_after(events).running.push(pid),
        roll_after(events.push(Event::Remove(pid))).running == without(
            roll_after(events).running,
            pid,
        ),
        roll_after(events.push(Event::Cancel)).running == roll_after(events).running,
        roll_after(Seq::empty()).running.len() == 0,
{
    assert(events.push(Event::Add(pid)).drop_last() =~= events);
    assert(events.push(Event::Remove(pid)).drop_last() =~= events);
    assert(events.push(Event::Cancel).drop_last() =~= events);
}

/// A process over within its limit is left alone. One that is not is asked to go, and
/// given the grace; one over by the end of that was still killed, and one that is not
/// is made to go. There is nothing to do after that.
pub proof fn what_a_deadline_leads_to(more: Seq<Noticed>)
    ensures
        watch_after(Seq::empty()).next is Wait,
        watch_after(seq![Noticed::Waited(true)]).next == (Minding::Over { killed: false }),
        watch_after(seq![Noticed::Waited(false)]).next == Minding::Send(Signal::Term),
        watch_after(seq![Noticed::Waited(false), Noticed::Signalled]).next is WaitGrace,
        watch_after(
            seq![Noticed::Waited(false), Noticed::Signalled, Noticed::Waited(true)],
        ).next == (Minding::Over { killed: true }),
        watch_after(
            seq![Noticed::Waited(false), Noticed::Signalled, Noticed::Waited(false)],
        ).next == Minding::Send(Signal::Kill),
        watch_after(
            seq![
                Noticed::Waited(false),
                Noticed::Signalled,
                Noticed::Waited(false),
                Noticed::Signalled,
            ],
        ).next == (Minding::Over { killed: true }),
        watch_after(more).next is Over ==> forall|finished: bool| #[trigger]
            watch_after(more.push(Noticed::Waited(finished))).next == watch_after(more).next,
        watch_after(more).next is Over ==> watch_after(more.push(Noticed::Signalled)).next
            == watch_after(more).next,
{
    let one = seq![Noticed::Waited(false)];
    let two = one.push(Noticed::Signalled);
    let three = two.push(Noticed::Waited(false));
    assert(watch_after(Seq::empty()) == Watch::fresh());
    assert(seq![Noticed::Waited(true)].drop_last() =~= Seq::<Noticed>::empty());
    assert(one.drop_last() =~= Seq::<Noticed>::empty());
    assert(two =~= seq![Noticed::Waited(false), Noticed::Signalled]);
    assert(two.drop_last() =~= one);
    assert(two.push(Noticed::Waited(true)) =~= seq![
        Noticed::Waited(false),
        Noticed::Signalled,
        Noticed::Waited(true),
    ]);
    assert(two.push(Noticed::Waited(true)).drop_last() =~= two);
    assert(three =~= seq![Noticed::Waited(false), Noticed::Signalled, Noticed::Waited(false)]);
    assert(three.drop_last() =~= two);
    assert(three.push(Noticed::Signalled) =~= seq![
        Noticed::Waited(false),
        Noticed::Signalled,
        Noticed::Waited(false),
        Noticed::Signalled,
    ]);
    assert(three.push(Noticed::Signalled).drop_last() =~= three);
    assert(more.push(Noticed::Signalled).drop_last() =~= more);
    assert forall|finished: bool| watch_after(more).next is Over implies #[trigger] watch_after(
        more.push(Noticed::Waited(finished)),
    ).next == watch_after(more).next by {
        assert(more.push(Noticed::Waited(finished)).drop_last() =~= more);
    }
}

/// Nothing is made to go before the grace is up, and then everything still listed is,
/// and nothing else.
pub proof fn only_what_is_left_is_killed(roll: Roll, pid: i32)
    ensures
        roll.to_kill(false).len() == 0,
        roll.to_kill(true).contains(pid) <==> roll.running.contains(pid),
        roll.to_kill(true).len() == roll.running.len(),
{
}

} // verus!
