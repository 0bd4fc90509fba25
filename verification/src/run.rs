//! Walking through a pipeline's steps: what to do next, given how everything so
//! far turned out.
//!
//! A walk asks for one thing at a time — tell the sinks this, run that — and
//! goes by what it hears back. What the sinks are told over a whole walk, and in
//! what order, is settled here.

use vstd::prelude::*;

use crate::execute::{Ran, Secs, Status};
use crate::step;
use crate::step::{OnError, Step, Strategy};

verus! {

/// Something the sinks are told.
#[derive(Clone, Copy, Debug, PartialEq, Eq, Structural)]
pub enum Tell {
    /// Everything the pipeline is about to run, before any of it has.
    Start,
    /// This step is the pipeline's current concern.
    StepStart { step: usize },
    /// One item is running.
    ItemStart { step: usize, at: usize },
    /// One item reached its final state.
    ItemDone { step: usize, at: usize },
    /// Every item in the step has been announced.
    StepDone { step: usize },
    /// The run is being given up on.
    Abandoned,
    /// The pipeline is over, however it ended.
    Finish,
}

/// What the walk wants done. Each is done once, and answered with the
/// [`Reply`] it calls for.
#[derive(Clone, Copy, Debug, PartialEq, Eq, Structural)]
pub enum Action {
    /// Tell every sink in turn, up to the first that cannot take it. Answered
    /// with `Told`.
    Tell(Tell),
    /// Make the directory failure logs go in. Answered with `Made`.
    MakeDir,
    /// Run one command or call one closure. Answered with `Ran`.
    Execute { step: usize, at: usize },
    /// Set `jobs` workers on a step's commands, then wait for one of them to say
    /// something. Answered with `Started`, `Back` or `Drained`.
    Batch { step: usize, jobs: usize },
    /// Wait for a worker to say something, calling the batch off first if
    /// `cancel` says to. Answered like `Batch`.
    Listen { step: usize, cancel: bool },
    /// Call the batch off, stop listening and wait for the workers to go.
    /// Answered with `Left`.
    Leave { step: usize },
    /// Remove the failure log directory, which was made, if nothing was left in
    /// it. Answered with `Tidied`.
    Tidy,
    /// Nothing: the walk is over.
    End(Verdict),
}

/// How a walk ended.
#[derive(Clone, Copy, Debug, PartialEq, Eq, Structural)]
pub enum Verdict {
    /// Nothing ended it early.
    Passed,
    /// A sink could not take what it was told, or the directory could not be
    /// made.
    Stopped,
    /// A sink could not take being told it was over.
    Unfinished,
    /// A step that failed ended it.
    Failed,
}

/// What came of the last thing the walk asked for.
#[derive(Clone, Debug)]
pub enum Reply {
    /// Whether the sinks took it.
    Told(bool),
    /// Whether the directory is there.
    Made(bool),
    /// It ran, and the step has been going for this long.
    Ran { ran: Ran, elapsed_s: Secs },
    /// A worker has its command's cores and is about to spawn it.
    Started { at: usize },
    /// A worker is back with its command, and the step has been going for this
    /// long. It either ran or, in a batch that was called off, never got to.
    Back { at: usize, ran: Option<Ran>, elapsed_s: Secs },
    /// Every worker is gone and has nothing more to say.
    Drained,
    /// The batch that was called off is over.
    Left,
    /// The directory has been seen to.
    Tidied,
}

/// Where one command of a batch has got to.
#[derive(Clone, Copy, Debug, PartialEq, Eq, Structural)]
pub enum Seat {
    /// No word of it yet.
    Waiting,
    /// Running.
    Running,
    /// Its worker is back.
    Empty,
}

/// What the walk is in the middle of. `live` steps are being run; the others
/// come after the one that ended the run.
#[derive(Clone, Copy, Debug, PartialEq, Eq, Structural)]
pub enum Phase {
    Starting,
    Making,
    Opening { step: usize, live: bool },
    ItemOpening { step: usize, at: usize },
    Executing { step: usize, at: usize },
    ItemClosing { step: usize, at: usize },
    Batching { step: usize, fresh: bool, cancel: bool },
    Hearing { step: usize, at: usize },
    Reporting { step: usize, at: usize },
    Leaving { step: usize },
    Skipping { step: usize, at: usize, live: bool },
    Closing { step: usize, live: bool },
    Abandoning { step: usize },
    Finishing,
    Tidying,
    Ended,
}

/// A step, as far as the walk goes by it.
pub struct StepState {
    pub on_error: OnError,
    pub strategy: Option<Strategy>,
    pub statuses: Seq<Status>,
}

impl StepState {
    pub open spec fn stops(self) -> bool {
        self.on_error != OnError::Continue && step::any_failed(self.statuses)
    }

    pub open spec fn ends_run(self) -> bool {
        self.on_error == OnError::Abort && step::any_failed(self.statuses)
    }

    pub open spec fn batched(self) -> bool {
        self.strategy matches Some(Strategy::Batched { .. })
    }
}

/// A walk, as far as what it does next depends on it, and what it has told the
/// sinks so far.
pub struct Walk {
    pub steps: Seq<StepState>,
    /// Whether there is a directory for failure logs to make.
    pub dir: bool,
    /// Whether it was made.
    pub made: bool,
    pub phase: Phase,
    pub seats: Seq<Seat>,
    /// The step that ended the run, once one has.
    pub failed: Option<usize>,
    pub stopped: bool,
    pub unfinished: bool,
    pub told: Seq<Tell>,
}

/// The first of these from `from` on that never ran, or their number if all did.
pub open spec fn next_not_run(statuses: Seq<Status>, from: int) -> int
    decreases statuses.len() - from,
{
    if from < 0 || from >= statuses.len() {
        statuses.len() as int
    } else if statuses[from] is NotRun {
        from
    } else {
        next_not_run(statuses, from + 1)
    }
}

impl Walk {
    /// With this said to the sinks.
    pub open spec fn say(self, tell: Tell) -> Walk {
        Walk { told: self.told.push(tell), ..self }
    }

    pub open spec fn to(self, phase: Phase) -> Walk {
        Walk { phase, ..self }
    }

    pub open spec fn with_status(self, step: int, at: int, status: Status) -> Walk {
        let s = self.steps[step];
        Walk {
            steps: self.steps.update(
                step,
                StepState { statuses: s.statuses.update(at, status), ..s },
            ),
            ..self
        }
    }

    /// The sinks are not to be told anything more than that it is over.
    pub open spec fn give_up(self) -> Walk {
        Walk { stopped: true, phase: Phase::Finishing, ..self }
    }

    /// On to this step, or past the last.
    pub open spec fn open_step(self, step: int, live: bool) -> Walk {
        if step < self.steps.len() {
            self.to(Phase::Opening { step: step as usize, live })
        } else {
            self.to(Phase::Finishing)
        }
    }

    /// Into a step that is to be run.
    pub open spec fn enter(self, step: int) -> Walk {
        if self.steps[step].batched() {
            Walk {
                seats: Seq::new(self.steps[step].statuses.len(), |i: int| Seat::Waiting),
                phase: Phase::Batching { step: step as usize, fresh: true, cancel: false },
                ..self
            }
        } else {
            self.open_item(step, 0)
        }
    }

    /// On to this item of a step that runs one at a time, or past the last.
    pub open spec fn open_item(self, step: int, at: int) -> Walk {
        if at < self.steps[step].statuses.len() {
            self.to(Phase::ItemOpening { step: step as usize, at: at as usize })
        } else {
            self.skip_rest(step, 0, true)
        }
    }

    /// On to the next item from `from` on that never ran, which is skipped, or
    /// past the last.
    pub open spec fn skip_rest(self, step: int, from: int, live: bool) -> Walk {
        let at = next_not_run(self.steps[step].statuses, from);
        if at < self.steps[step].statuses.len() {
            self.with_status(step, at, Status::Skipped).to(
                Phase::Skipping { step: step as usize, at: at as usize, live },
            )
        } else {
            self.to(Phase::Closing { step: step as usize, live })
        }
    }

    /// Back to waiting for the workers.
    pub open spec fn listen(self, step: int) -> Walk {
        self.to(
            Phase::Batching {
                step: step as usize,
                fresh: false,
                cancel: self.steps[step].stops(),
            },
        )
    }

    /// The same, unless the sinks did not take what they were just told.
    pub open spec fn listen_if(self, ok: bool, step: int) -> Walk {
        if ok {
            self.listen(step)
        } else {
            Walk { stopped: true, phase: Phase::Leaving { step: step as usize }, ..self }
        }
    }

    /// What the walk wants done.
    pub open spec fn asks(self) -> Action {
        match self.phase {
            Phase::Starting => Action::Tell(Tell::Start),
            Phase::Making => Action::MakeDir,
            Phase::Opening { step, .. } => Action::Tell(Tell::StepStart { step }),
            Phase::ItemOpening { step, at } => Action::Tell(Tell::ItemStart { step, at }),
            Phase::Executing { step, at } => Action::Execute { step, at },
            Phase::ItemClosing { step, at } => Action::Tell(Tell::ItemDone { step, at }),
            Phase::Batching { step, fresh, cancel } => if fresh {
                Action::Batch { step, jobs: self.jobs(step as int) }
            } else {
                Action::Listen { step, cancel }
            },
            Phase::Hearing { step, at } => Action::Tell(Tell::ItemStart { step, at }),
            Phase::Reporting { step, at } => Action::Tell(Tell::ItemDone { step, at }),
            Phase::Leaving { step } => Action::Leave { step },
            Phase::Skipping { step, at, .. } => Action::Tell(Tell::ItemDone { step, at }),
            Phase::Closing { step, .. } => Action::Tell(Tell::StepDone { step }),
            Phase::Abandoning { .. } => Action::Tell(Tell::Abandoned),
            Phase::Finishing => Action::Tell(Tell::Finish),
            Phase::Tidying => Action::Tidy,
            Phase::Ended => Action::End(self.verdict()),
        }
    }

    /// How many workers a batched step gets.
    pub open spec fn jobs(self, step: int) -> usize {
        match self.steps[step].strategy {
            Some(Strategy::Batched { jobs }) => jobs,
            _ => 1,
        }
    }

    /// A sink that could not write comes first: if the table never made it to
    /// disk, which command failed is not on record anyway.
    pub open spec fn verdict(self) -> Verdict {
        if self.stopped {
            Verdict::Stopped
        } else if self.unfinished {
            Verdict::Unfinished
        } else if self.failed is Some {
            Verdict::Failed
        } else {
            Verdict::Passed
        }
    }

    /// After the sinks were told what this asks to have told, and took it or did
    /// not.
    pub open spec fn after_telling(self, ok: bool) -> Walk {
        match self.phase {
            Phase::Starting => {
                let told = self.say(Tell::Start);
                if !ok {
                    told.give_up()
                } else if self.dir {
                    told.to(Phase::Making)
                } else {
                    told.open_step(0, true)
                }
            },
            Phase::Opening { step, live } => {
                let told = self.say(Tell::StepStart { step });
                if !ok {
                    told.give_up()
                } else if live {
                    told.enter(step as int)
                } else {
                    told.skip_rest(step as int, 0, false)
                }
            },
            Phase::ItemOpening { step, at } => {
                let told = self.say(Tell::ItemStart { step, at });
                if ok {
                    told.to(Phase::Executing { step, at })
                } else {
                    told.give_up()
                }
            },
            Phase::ItemClosing { step, at } => {
                let told = self.say(Tell::ItemDone { step, at });
                if !ok {
                    told.give_up()
                } else if self.steps[step as int].stops() {
                    told.skip_rest(step as int, 0, true)
                } else {
                    told.open_item(step as int, at + 1)
                }
            },
            Phase::Hearing { step, at } => self.say(Tell::ItemStart { step, at }).listen_if(
                ok,
                step as int,
            ),
            Phase::Reporting { step, at } => self.say(Tell::ItemDone { step, at }).listen_if(
                ok,
                step as int,
            ),
            Phase::Skipping { step, at, live } => {
                let told = self.say(Tell::ItemDone { step, at });
                if ok {
                    told.skip_rest(step as int, at + 1, live)
                } else {
                    told.give_up()
                }
            },
            Phase::Closing { step, live } => {
                let told = self.say(Tell::StepDone { step });
                if !ok {
                    told.give_up()
                } else if live && self.steps[step as int].ends_run() {
                    Walk { failed: Some(step), phase: Phase::Abandoning { step }, ..told }
                } else {
                    told.open_step(step + 1, live)
                }
            },
            Phase::Abandoning { step } => {
                let told = self.say(Tell::Abandoned);
                if ok {
                    told.open_step(step + 1, false)
                } else {
                    told.give_up()
                }
            },
            Phase::Finishing => {
                let told = self.say(Tell::Finish);
                Walk {
                    unfinished: !ok,
                    // a directory that was never made is not there to remove
                    phase: if self.made {
                        Phase::Tidying
                    } else {
                        Phase::Ended
                    },
                    ..told
                }
            },
            _ => self,
        }
    }

    /// After this reply. One the walk did not ask for changes nothing.
    pub open spec fn after(self, reply: Reply) -> Walk {
        match (self.phase, reply) {
            (_, Reply::Told(ok)) => self.after_telling(ok),
            (Phase::Making, Reply::Made(ok)) => if ok {
                Walk { made: true, ..self }.open_step(0, true)
            } else {
                self.give_up()
            },
            (Phase::Executing { step, at }, Reply::Ran { ran, .. }) => if ran.status.has_run() {
                self.with_status(step as int, at as int, ran.status).to(
                    Phase::ItemClosing { step, at },
                )
            } else {
                self
            },
            (Phase::Batching { step, .. }, Reply::Started { at }) => if self.seated(
                at,
                Seat::Waiting,
            ) {
                self.seat(at, Seat::Running).to(Phase::Hearing { step, at })
            } else {
                self
            },
            (Phase::Batching { step, .. }, Reply::Back { at, ran: Some(ran), .. }) => if self.seated(
                at,
                Seat::Running,
            ) && ran.status.has_run() {
                self.seat(at, Seat::Empty).with_status(step as int, at as int, ran.status).to(
                    Phase::Reporting { step, at },
                )
            } else {
                self
            },
            (Phase::Batching { step, .. }, Reply::Back { at, ran: None, .. }) => if self.seated(
                at,
                Seat::Waiting,
            ) && self.steps[step as int].stops() {
                self.seat(at, Seat::Empty).listen(step as int)
            } else {
                self
            },
            (Phase::Batching { step, .. }, Reply::Drained) => if self.drained(step as int) {
                self.skip_rest(step as int, 0, true)
            } else {
                self
            },
            (Phase::Leaving { .. }, Reply::Left) => self.to(Phase::Finishing),
            (Phase::Tidying, Reply::Tidied) => self.to(Phase::Ended),
            _ => self,
        }
    }

    /// Where this reply says something came back from being run, and how it went:
    /// the step, the place in it, what came of it and how long the step has been
    /// going.
    pub open spec fn lands(self, reply: Reply) -> Option<(usize, usize, Option<Ran>, Secs)> {
        match (self.phase, reply) {
            (Phase::Executing { step, at }, Reply::Ran { ran, elapsed_s }) => if ran.status.has_run() {
                Some((step, at, Some(ran), elapsed_s))
            } else {
                None
            },
            (Phase::Batching { step, .. }, Reply::Back { at, ran: Some(ran), elapsed_s }) => if self.seated(
                at,
                Seat::Running,
            ) && ran.status.has_run() {
                Some((step, at, Some(ran), elapsed_s))
            } else {
                None
            },
            (Phase::Batching { step, .. }, Reply::Back { at, ran: None, elapsed_s }) => if self.seated(
                at,
                Seat::Waiting,
            ) && self.steps[step as int].stops() {
                Some((step, at, None, elapsed_s))
            } else {
                None
            },
            _ => None,
        }
    }

    /// What this reply makes of the step at `s`, all of it: what came back is
    /// taken down, what is skipped is marked so, and nothing else changes.
    pub open spec fn step_after(self, reply: Reply, s: int, before: Step, after: Step) -> bool {
        match (self.lands(reply), self.after(reply).phase) {
            (Some((step, at, ran, elapsed_s)), _) if step == s => after.is_with_result(
                before,
                at as int,
                ran,
                elapsed_s,
            ),
            (None, Phase::Skipping { step, at, .. }) if step == s && before.statuses()[at as int]
                is NotRun => after.is_with_status(before, at as int, Status::Skipped),
            _ => after == before,
        }
    }

    /// Whether a batch has a command at `at` that has got this far.
    pub open spec fn seated(self, at: usize, seat: Seat) -> bool {
        at < self.seats.len() && self.seats[at as int] == seat
    }

    /// Whether the workers can all be gone: nothing is running, and there is
    /// nothing left to take unless the batch was called off.
    pub open spec fn drained(self, step: int) -> bool {
        &&& !self.seats.contains(Seat::Running)
        &&& self.steps[step].stops() || !self.seats.contains(Seat::Waiting)
    }

    pub open spec fn seat(self, at: usize, seat: Seat) -> Walk {
        Walk { seats: self.seats.update(at as int, seat), ..self }
    }

    /// Whether this is a walk nobody has taken a step of.
    pub open spec fn is_fresh(self) -> bool {
        &&& self.phase is Starting
        &&& self.told.len() == 0
        &&& self.failed is None
        &&& !self.made
        &&& !self.stopped
        &&& !self.unfinished
        &&& self.steps.len() <= usize::MAX
        &&& forall|s: int|
            0 <= s < self.steps.len() ==> (#[trigger] self.steps[s]).statuses.len() <= usize::MAX
        &&& forall|s: int, j: int| #[trigger]
            self.has(s, j) ==> self.steps[s].statuses[j] is NotRun
    }

    /// Whether there is an item at `j` of the step at `s`.
    pub open spec fn has(self, s: int, j: int) -> bool {
        0 <= s < self.steps.len() && 0 <= j < self.steps[s].statuses.len()
    }
}

/// Where a walk is after all these replies.
pub open spec fn walked(walk: Walk, replies: Seq<Reply>) -> Walk
    decreases replies.len(),
{
    if replies.len() == 0 {
        walk
    } else {
        walked(walk, replies.drop_last()).after(replies.last())
    }
}

pub proof fn lemma_next_not_run(statuses: Seq<Status>, from: int)
    requires
        0 <= from <= statuses.len(),
    ensures
        from <= next_not_run(statuses, from) <= statuses.len(),
        forall|i: int|
            from <= i < next_not_run(statuses, from) ==> !(#[trigger] statuses[i] is NotRun),
        next_not_run(statuses, from) < statuses.len() ==> statuses[next_not_run(
            statuses,
            from,
        )] is NotRun,
    decreases statuses.len() - from,
{
    if from < statuses.len() && !(statuses[from] is NotRun) {
        lemma_next_not_run(statuses, from + 1);
    }
}

impl Walk {
    /// Whether the steps fit in memory and the phase speaks of things that are
    /// there.
    pub open spec fn fits(self) -> bool {
        &&& self.steps.len() <= usize::MAX
        &&& forall|s: int|
            0 <= s < self.steps.len() ==> (#[trigger] self.steps[s]).statuses.len() <= usize::MAX
        &&& match self.phase {
            Phase::Opening { step, .. } => step < self.steps.len(),
            Phase::ItemOpening { step, at } | Phase::Executing { step, at } | Phase::ItemClosing {
                step,
                at,
            } => self.has(step as int, at as int) && !self.steps[step as int].batched(),
            Phase::Batching { step, .. } => self.seating(step as int),
            Phase::Hearing { step, at } => self.seating(step as int) && self.seated(
                at,
                Seat::Running,
            ),
            Phase::Reporting { step, at } => self.seating(step as int) && self.seated(
                at,
                Seat::Empty,
            ),
            Phase::Skipping { step, at, .. } => self.has(step as int, at as int)
                && self.steps[step as int].statuses[at as int] is Skipped,
            Phase::Closing { step, .. } => step < self.steps.len(),
            Phase::Abandoning { step } => step < self.steps.len(),
            _ => true,
        }
    }

    pub open spec fn seating(self, step: int) -> bool {
        &&& 0 <= step < self.steps.len()
        &&& self.steps[step].batched()
        &&& self.seats.len() == self.steps[step].statuses.len()
    }
}

impl Walk {
    /// The step whose rest might be skipped next, and from where in it.
    pub open spec fn skips_from(self) -> Option<(int, int)> {
        match self.phase {
            Phase::Opening { step, .. } => Some((step as int, 0)),
            Phase::ItemClosing { step, .. } => Some((step as int, 0)),
            Phase::Batching { step, .. } => Some((step as int, 0)),
            Phase::Skipping { step, at, .. } => Some((step as int, at + 1)),
            _ => None,
        }
    }
}

/// Where the walk would get to by skipping the rest of the step it is in.
pub proof fn lemma_skips(w: Walk)
    requires
        w.fits(),
    ensures
        w.skips_from() matches Some((step, from)) ==> {
            let statuses = w.steps[step].statuses;
            let at = next_not_run(statuses, from);
            &&& from <= at <= statuses.len()
            &&& at < statuses.len() ==> statuses[at] is NotRun
        },
{
    if let Some((step, from)) = w.skips_from() {
        lemma_next_not_run(w.steps[step].statuses, from);
    }
}

pub proof fn lemma_fits(w: Walk, reply: Reply)
    requires
        w.fits(),
    ensures
        w.after(reply).fits(),
{
    lemma_skips(w);
}

/// A step, as far as a walk goes by it.
pub open spec fn state_of(step: Step) -> StepState {
    StepState {
        on_error: step.on_error,
        strategy: step.strategy_of(),
        statuses: step.statuses(),
    }
}

/// Steps, as far as a walk goes by them.
pub open spec fn states(steps: Seq<Step>) -> Seq<StepState> {
    Seq::new(steps.len(), |s: int| state_of(steps[s]))
}

/// A walk through a pipeline's steps. [`action`](Run::action) says what it wants
/// done, and [`reply`](Run::reply) takes what came of it.
pub struct Run {
    steps: Vec<Step>,
    stderr_dir: Option<String>,
    made: bool,
    phase: Phase,
    seats: Vec<Seat>,
    failed: Option<usize>,
    failure: Option<String>,
    stopped: bool,
    unfinished: bool,
    told: Ghost<Seq<Tell>>,
}

impl View for Run {
    type V = Walk;

    closed spec fn view(&self) -> Walk {
        Walk {
            steps: states(self.steps@),
            dir: self.stderr_dir is Some,
            made: self.made,
            phase: self.phase,
            seats: self.seats@,
            failed: self.failed,
            stopped: self.stopped,
            unfinished: self.unfinished,
            told: self.told@,
        }
    }
}

impl Run {
    /// The steps, with everything that is known of them by now.
    pub closed spec fn held(self) -> Seq<Step> {
        self.steps@
    }

    /// Where failure logs go, if any do.
    pub closed spec fn dir(self) -> Option<String> {
        self.stderr_dir
    }

    /// What to say about the thing that ended the run, once something has.
    pub closed spec fn why(self) -> Option<String> {
        self.failure
    }

    pub open spec fn wf(self) -> bool {
        &&& self@.fits()
        &&& self@.steps == states(self.held())
        &&& self@.dir == (self.dir() is Some)
        &&& self@.failed is Some <==> self.why() is Some
    }

    spec fn keeps(self, before: Run) -> bool {
        &&& self.steps == before.steps
        &&& self.stderr_dir == before.stderr_dir
        &&& self.failed == before.failed
        &&& self.failure == before.failure
    }

    /// A walk nobody has taken a step of.
    pub fn new(steps: Vec<Step>, stderr_dir: Option<String>) -> (r: Run)
        ensures
            r.wf(),
            r.held() == steps@,
            r.dir() == stderr_dir,
            r.why() is None,
            r@ == (Walk {
                steps: states(steps@),
                dir: stderr_dir is Some,
                made: false,
                phase: Phase::Starting,
                seats: Seq::empty(),
                failed: None,
                stopped: false,
                unfinished: false,
                told: Seq::empty(),
            }),
    {
        let r = Run {
            steps,
            stderr_dir,
            made: false,
            phase: Phase::Starting,
            seats: Vec::new(),
            failed: None,
            failure: None,
            stopped: false,
            unfinished: false,
            told: Ghost(Seq::empty()),
        };
        assert(r@.seats =~= Seq::empty());
        assert(r@.steps.len() == r.steps.len());
        assert forall|s: int| 0 <= s < r@.steps.len() implies (
        #[trigger] r@.steps[s]).statuses.len() <= usize::MAX by {
            step::lemma_count(r.steps@[s]);
        }
        r
    }

    pub fn steps(&self) -> (r: &[Step])
        ensures
            r@ == self.held(),
    {
        self.steps.as_slice()
    }

    pub fn stderr_dir(&self) -> (r: &Option<String>)
        ensures
            *r == self.dir(),
    {
        &self.stderr_dir
    }

    /// What to say about the thing that ended the run, once something has.
    pub fn failure(&self) -> (r: &Option<String>)
        ensures
            *r == self.why(),
    {
        &self.failure
    }

    /// What the walk wants done.
    pub fn action(&self) -> (r: Action)
        requires
            self.wf(),
        ensures
            r == self@.asks(),
    {
        match self.phase {
            Phase::Starting => Action::Tell(Tell::Start),
            Phase::Making => Action::MakeDir,
            Phase::Opening { step, .. } => Action::Tell(Tell::StepStart { step }),
            Phase::ItemOpening { step, at } => Action::Tell(Tell::ItemStart { step, at }),
            Phase::Executing { step, at } => Action::Execute { step, at },
            Phase::ItemClosing { step, at } => Action::Tell(Tell::ItemDone { step, at }),
            Phase::Batching { step, fresh, cancel } => {
                if fresh {
                    Action::Batch { step, jobs: self.steps[step].width() }
                } else {
                    Action::Listen { step, cancel }
                }
            },
            Phase::Hearing { step, at } => Action::Tell(Tell::ItemStart { step, at }),
            Phase::Reporting { step, at } => Action::Tell(Tell::ItemDone { step, at }),
            Phase::Leaving { step } => Action::Leave { step },
            Phase::Skipping { step, at, .. } => Action::Tell(Tell::ItemDone { step, at }),
            Phase::Closing { step, .. } => Action::Tell(Tell::StepDone { step }),
            Phase::Abandoning { .. } => Action::Tell(Tell::Abandoned),
            Phase::Finishing => Action::Tell(Tell::Finish),
            Phase::Tidying => Action::Tidy,
            Phase::Ended => Action::End(self.verdict()),
        }
    }

    /// How the walk ended.
    fn verdict(&self) -> (r: Verdict)
        ensures
            r == self@.verdict(),
    {
        if self.stopped {
            Verdict::Stopped
        } else if self.unfinished {
            Verdict::Unfinished
        } else if self.failed.is_some() {
            Verdict::Failed
        } else {
            Verdict::Passed
        }
    }

    /// Set down that the sinks were told this.
    fn say(&mut self, tell: Tell)
        ensures
            final(self)@ == old(self)@.say(tell),
            final(self).keeps(*old(self)),
    {
        self.told = Ghost(self.told@.push(tell));
    }

    fn give_up(&mut self)
        ensures
            final(self)@ == old(self)@.give_up(),
            final(self).keeps(*old(self)),
    {
        self.stopped = true;
        self.phase = Phase::Finishing;
    }

    /// On to this step, or past the last.
    fn open_step(&mut self, step: usize, live: bool)
        ensures
            final(self)@ == old(self)@.open_step(step as int, live),
            final(self).keeps(*old(self)),
    {
        self.phase = if step < self.steps.len() {
            Phase::Opening { step, live }
        } else {
            Phase::Finishing
        };
    }

    /// Into a step that is to be run.
    fn enter(&mut self, step: usize)
        requires
            step < old(self).held().len(),
        ensures
            final(self)@ == old(self)@.enter(step as int),
            final(self).skips_into(*old(self), step as int),
    {
        match self.steps[step].strategy() {
            Some(Strategy::Batched { .. }) => {
                let n = self.steps[step].len();
                let mut seats: Vec<Seat> = Vec::new();
                for i in 0..n
                    invariant
                        seats@ == Seq::new(i as nat, |i: int| Seat::Waiting),
                {
                    seats.push(Seat::Waiting);
                    assert(seats@ =~= Seq::new((i + 1) as nat, |i: int| Seat::Waiting));
                }
                self.seats = seats;
                self.phase = Phase::Batching { step, fresh: true, cancel: false };
            },
            _ => {
                self.open_item(step, 0);
            },
        }
    }

    /// On to this item of a step that runs one at a time, or past the last.
    fn open_item(&mut self, step: usize, at: usize)
        requires
            step < old(self).held().len(),
        ensures
            final(self)@ == old(self)@.open_item(step as int, at as int),
            final(self).skips_into(*old(self), step as int),
    {
        if at < self.steps[step].len() {
            self.phase = Phase::ItemOpening { step, at };
        } else {
            self.skip_rest(step, 0, true);
        }
    }

    /// Whether this is `before` with something in the step skipped, if skipping
    /// is what it is in the middle of, and is otherwise no different.
    spec fn skips_into(self, before: Run, step: int) -> bool {
        match self.phase {
            Phase::Skipping { at, .. } => {
                &&& self.stderr_dir == before.stderr_dir
                &&& self.failed == before.failed
                &&& self.failure == before.failure
                &&& self.steps@.len() == before.steps@.len()
                &&& before.steps@[step].statuses()[at as int] is NotRun
                &&& self.steps@[step].is_with_status(
                    before.steps@[step],
                    at as int,
                    Status::Skipped,
                )
                &&& forall|s: int|
                    0 <= s < self.steps@.len() && s != step ==> #[trigger] self.steps@[s]
                        == before.steps@[s]
            },
            _ => self.keeps(before),
        }
    }

    /// On to the next item from `from` on that never ran, which is skipped, or
    /// past the last.
    fn skip_rest(&mut self, step: usize, from: usize, live: bool)
        requires
            step < old(self).held().len(),
            from <= old(self).held()[step as int].count(),
        ensures
            final(self)@ == old(self)@.skip_rest(step as int, from as int, live),
            final(self).skips_into(*old(self), step as int),
    {
        let ghost w = self@;
        let ghost statuses = self.steps@[step as int].statuses();
        proof {
            lemma_next_not_run(statuses, from as int);
        }
        let n = self.steps[step].len();
        let mut at: usize = from;
        while at < n && !matches!(self.steps[step].item(at).status(), Status::NotRun)
            invariant
                step < self.steps@.len(),
                n == self.steps@[step as int].count(),
                statuses == self.steps@[step as int].statuses(),
                from <= at <= n,
                next_not_run(statuses, from as int) == next_not_run(statuses, at as int),
            decreases n - at,
        {
            at = at + 1;
        }
        assert(next_not_run(statuses, at as int) == at);
        if at < n {
            assert(statuses[at as int] is NotRun);
            self.steps[step].set_status(at, Status::Skipped);
            self.phase = Phase::Skipping { step, at, live };
            assert(self@.steps =~= w.with_status(
                step as int,
                at as int,
                Status::Skipped,
            ).steps);
        } else {
            self.phase = Phase::Closing { step, live };
        }
    }

    /// Back to waiting for the workers, unless the sinks did not take what they
    /// were just told.
    fn listen_if(&mut self, ok: bool, step: usize)
        requires
            step < old(self).held().len(),
        ensures
            final(self)@ == old(self)@.listen_if(ok, step as int),
            final(self).keeps(*old(self)),
    {
        if ok {
            let cancel = self.steps[step].skips();
            self.phase = Phase::Batching { step, fresh: false, cancel };
        } else {
            // giving up on the run is not a reason to leave a batch of commands
            // running behind it
            self.stopped = true;
            self.phase = Phase::Leaving { step };
        }
    }

    /// Whether this remembers the right thing about what ended the run: the first
    /// thing that failed in the step that ended it, once that step is over, and
    /// otherwise whatever it remembered before.
    pub open spec fn why_after(self, before: Run, reply: Reply) -> bool {
        match (before@.phase, reply) {
            (Phase::Closing { step, live: true }, Reply::Told(true)) if before.held()[step as int].ends_run() => {
                &&& self.why() is Some
                &&& forall|j: int| #[trigger]
                    step::fails_first(before.held()[step as int].statuses(), j)
                        ==> self.why()->0@ == before.held()[step as int].complaint(j)
            },
            _ => self.why() == before.why(),
        }
    }

    /// Whether this is `before` after that reply.
    pub open spec fn follows_from(self, before: Run, reply: Reply) -> bool {
        &&& self@ == before@.after(reply)
        &&& self.dir() == before.dir()
        &&& self.why_after(before, reply)
        &&& self.held().len() == before.held().len()
        &&& forall|s: int|
            0 <= s < before.held().len() ==> before@.step_after(
                reply,
                s,
                before.held()[s],
                #[trigger] self.held()[s],
            )
    }

    /// Take what came of what the walk asked for. A reply it did not ask for
    /// changes nothing.
    pub fn reply(&mut self, reply: Reply)
        requires
            old(self).wf(),
        ensures
            final(self).wf(),
            final(self).follows_from(*old(self), reply),
    {
        proof {
            lemma_fits(self@, reply);
        }
        match (self.phase, reply) {
            (_, Reply::Told(ok)) => {
                self.told(ok);
            },
            (Phase::Making, Reply::Made(ok)) => {
                if ok {
                    self.made = true;
                    self.open_step(0, true);
                } else {
                    self.give_up();
                }
            },
            (Phase::Executing { step, at }, Reply::Ran { ran, elapsed_s }) => {
                if ran.status.ran() {
                    self.land(step, at, Some(ran), elapsed_s);
                    self.phase = Phase::ItemClosing { step, at };
                }
            },
            (Phase::Batching { step, .. }, Reply::Started { at }) => {
                if at < self.seats.len() && self.seats[at] == Seat::Waiting {
                    self.seats.set(at, Seat::Running);
                    self.phase = Phase::Hearing { step, at };
                }
            },
            (Phase::Batching { step, .. }, Reply::Back { at, ran: Some(ran), elapsed_s }) => {
                if at < self.seats.len() && self.seats[at] == Seat::Running && ran.status.ran() {
                    self.seats.set(at, Seat::Empty);
                    self.land(step, at, Some(ran), elapsed_s);
                    self.phase = Phase::Reporting { step, at };
                }
            },
            (Phase::Batching { step, .. }, Reply::Back { at, ran: None, elapsed_s }) => {
                if at < self.seats.len() && self.seats[at] == Seat::Waiting
                    && self.steps[step].skips() {
                    self.seats.set(at, Seat::Empty);
                    self.land(step, at, None, elapsed_s);
                    self.listen_if(true, step);
                }
            },
            (Phase::Batching { step, .. }, Reply::Drained) => {
                if self.drained(step) {
                    self.skip_rest(step, 0, true);
                }
            },
            (Phase::Leaving { .. }, Reply::Left) => {
                self.phase = Phase::Finishing;
            },
            (Phase::Tidying, Reply::Tidied) => {
                self.phase = Phase::Ended;
            },
            _ => {},
        }
    }

    /// Take down that something came back.
    fn land(&mut self, step: usize, at: usize, ran: Option<Ran>, elapsed_s: Secs)
        requires
            step < old(self).held().len(),
            at < old(self).held()[step as int].count(),
        ensures
            final(self)@ == match ran {
                Some(ran) => old(self)@.with_status(step as int, at as int, ran.status),
                None => old(self)@,
            },
            final(self).stderr_dir == old(self).stderr_dir,
            final(self).failed == old(self).failed,
            final(self).failure == old(self).failure,
            final(self).steps@.len() == old(self).steps@.len(),
            final(self).steps@[step as int].is_with_result(
                old(self).steps@[step as int],
                at as int,
                ran,
                elapsed_s,
            ),
            forall|s: int|
                0 <= s < old(self).steps@.len() && s != step ==> #[trigger] final(self).steps@[s]
                    == old(self).steps@[s],
    {
        let ghost w = self@;
        let ghost came = ran;
        self.steps[step].take_result(at, ran, elapsed_s);
        proof {
            match came {
                Some(ran) => {
                    assert(self@.steps =~= w.with_status(
                        step as int,
                        at as int,
                        ran.status,
                    ).steps);
                },
                None => {
                    assert(self@.steps =~= w.steps);
                },
            }
        }
    }

    /// Whether the workers can all be gone.
    fn drained(&self, step: usize) -> (r: bool)
        requires
            step < self.held().len(),
        ensures
            r == self@.drained(step as int),
    {
        let stops = self.steps[step].skips();
        let n = self.seats.len();
        for i in 0..n
            invariant
                n == self.seats@.len(),
                step < self.steps@.len(),
                stops == self.steps@[step as int].stops(),
                forall|k: int|
                    0 <= k < i ==> {
                        &&& #[trigger] self.seats@[k] != Seat::Running
                        &&& stops || self.seats@[k] != Seat::Waiting
                    },
        {
            if self.seats[i] == Seat::Running || !stops && self.seats[i] == Seat::Waiting {
                assert(self@.seats.contains(self.seats@[i as int]));
                return false;
            }
        }
        true
    }

    /// After the sinks were told what the walk asked to have told.
    fn told(&mut self, ok: bool)
        requires
            old(self).wf(),
        ensures
            final(self).follows_from(*old(self), Reply::Told(ok)),
            final(self)@.failed is Some <==> final(self).why() is Some,
    {
        match self.phase {
            Phase::Starting => {
                self.say(Tell::Start);
                if !ok {
                    self.give_up();
                } else if self.stderr_dir.is_some() {
                    self.phase = Phase::Making;
                } else {
                    self.open_step(0, true);
                }
            },
            Phase::Opening { step, live } => {
                self.say(Tell::StepStart { step });
                if !ok {
                    self.give_up();
                } else if live {
                    self.enter(step);
                } else {
                    self.skip_rest(step, 0, false);
                }
            },
            Phase::ItemOpening { step, at } => {
                self.say(Tell::ItemStart { step, at });
                if ok {
                    self.phase = Phase::Executing { step, at };
                } else {
                    self.give_up();
                }
            },
            Phase::ItemClosing { step, at } => {
                self.say(Tell::ItemDone { step, at });
                if !ok {
                    self.give_up();
                } else if self.steps[step].skips() {
                    self.skip_rest(step, 0, true);
                } else {
                    self.open_item(step, at + 1);
                }
            },
            Phase::Hearing { step, at } => {
                self.say(Tell::ItemStart { step, at });
                self.listen_if(ok, step);
            },
            Phase::Reporting { step, at } => {
                self.say(Tell::ItemDone { step, at });
                self.listen_if(ok, step);
            },
            Phase::Skipping { step, at, live } => {
                self.say(Tell::ItemDone { step, at });
                if ok {
                    self.skip_rest(step, at + 1, live);
                } else {
                    self.give_up();
                }
            },
            Phase::Closing { step, live } => {
                self.close(step, live, ok);
            },
            Phase::Abandoning { step } => {
                self.say(Tell::Abandoned);
                if ok {
                    // the steps after the one that ended the run get to report
                    // here. they still get a start of their own, so a sink never
                    // sees a step end that it was not told had begun
                    self.open_step(step + 1, false);
                } else {
                    self.give_up();
                }
            },
            Phase::Finishing => {
                self.say(Tell::Finish);
                self.unfinished = !ok;
                // a directory that was never made is not there to remove
                self.phase = if self.made {
                    Phase::Tidying
                } else {
                    Phase::Ended
                };
            },
            _ => {},
        }
    }

    /// After the sinks were told a step is done.
    fn close(&mut self, step: usize, live: bool, ok: bool)
        requires
            old(self).wf(),
            old(self)@.phase == (Phase::Closing { step, live }),
        ensures
            final(self).follows_from(*old(self), Reply::Told(ok)),
            final(self)@.failed is Some <==> final(self).why() is Some,
    {
        self.say(Tell::StepDone { step });
        if !ok {
            self.give_up();
            return ;
        }
        if live {
            if let Some(why) = self.steps[step].aborts() {
                self.failed = Some(step);
                self.failure = Some(why);
                self.phase = Phase::Abandoning { step };
                return ;
            }
        }
        self.open_step(step + 1, live);
    }
}

/// A batched step is run by exactly as many workers as it asked for: wherever a walk
/// sets workers on a step, that is how many, and it does so as soon as the sinks have
/// heard that the step started.
pub proof fn a_batch_gets_as_many_workers_as_it_asked_for(w: Walk, step: usize, jobs: usize)
    requires
        step < w.steps.len(),
        w.steps[step as int].strategy == Some(Strategy::Batched { jobs }),
    ensures
        w.phase matches Phase::Batching { step: s, fresh: true, .. } ==> s == step ==> w.asks() == (
        Action::Batch { step, jobs }),
        w.phase == (Phase::Opening { step, live: true }) ==> w.after(Reply::Told(true)).asks() == (
        Action::Batch { step, jobs }),
{
}

/// A step that is not batched is run one item at a time, from the first.
pub proof fn any_other_step_runs_one_at_a_time(w: Walk, step: usize)
    requires
        step < w.steps.len(),
        w.phase == (Phase::Opening { step, live: true }),
        w.steps[step as int].strategy is None || w.steps[step as int].strategy == Some(
            Strategy::Serial,
        ),
        w.steps[step as int].statuses.len() > 0,
    ensures
        w.after(Reply::Told(true)).asks() == Action::Tell(Tell::ItemStart { step, at: 0 }),
{
}

/// A walk goes by what its steps say: how each runs, how far a failure in it reaches
/// and how everything in it has gone.
pub proof fn a_walk_goes_by_what_its_steps_say(steps: Seq<Step>, s: int, j: int)
    requires
        0 <= s < steps.len(),
    ensures
        states(steps).len() == steps.len(),
        states(steps)[s].on_error == steps[s].on_error,
        steps[s].items matches step::Items::Cmds { cmds, strategy, .. } ==> {
            &&& states(steps)[s].strategy == Some(strategy)
            &&& states(steps)[s].statuses.len() == cmds@.len()
            &&& 0 <= j < cmds@.len() ==> states(steps)[s].statuses[j] == cmds@[j].status
        },
        steps[s].items matches step::Items::Closures(closures) ==> {
            &&& states(steps)[s].strategy is None
            &&& states(steps)[s].statuses.len() == closures@.len()
            &&& 0 <= j < closures@.len() ==> states(steps)[s].statuses[j] == closures@[j].status
        },
{
}

/// A step is to be stopped when something in it failed and it was not to carry on,
/// and the run with it only if that is how far a failure in it reaches.
pub proof fn a_failure_stops_what_it_was_set_to_stop(step: StepState)
    ensures
        ({
            let failed = exists|i: int|
                0 <= i < step.statuses.len() && (#[trigger] step.statuses[i]).has_failed();
            &&& step.stops() <==> failed && (step.on_error is Skip || step.on_error is Abort)
            &&& step.ends_run() <==> failed && step.on_error is Abort
        }),
{
    step::something_failed_if_anything_did(step.statuses);
}

/// What a run comes to: it passed if nothing went wrong at all, and otherwise a sink
/// that refused counts for more than one that could not be told it was over, and
/// either for more than a step that failed.
pub proof fn what_a_run_comes_to(w: Walk)
    ensures
        w.verdict() is Passed <==> !w.stopped && !w.unfinished && w.failed is None,
        w.verdict() is Failed <==> !w.stopped && !w.unfinished && w.failed is Some,
        w.verdict() is Unfinished <==> !w.stopped && w.unfinished,
        w.verdict() is Stopped <==> w.stopped,
        w.phase is Ended <==> w.asks() is End,
        w.phase is Ended ==> w.asks() == Action::End(w.verdict()),
{
}

/// Once the sinks know what is about to run, the directory is made if there is one to
/// make, and the first step starts; or, with no steps, it is over.
pub proof fn what_comes_first(w: Walk)
    requires
        w.phase is Starting,
        w.steps.len() <= usize::MAX,
    ensures
        w.asks() == Action::Tell(Tell::Start),
        w.dir ==> w.after(Reply::Told(true)).asks() is MakeDir,
        !w.dir && w.steps.len() > 0 ==> w.after(Reply::Told(true)).asks() == Action::Tell(
            Tell::StepStart { step: 0 },
        ),
        w.dir && w.steps.len() > 0 ==> w.after(Reply::Told(true)).after(Reply::Made(true)).asks()
            == Action::Tell(Tell::StepStart { step: 0 }),
        !w.dir && w.steps.len() == 0 ==> w.after(Reply::Told(true)).asks() == Action::Tell(
            Tell::Finish,
        ),
        w.dir && w.steps.len() == 0 ==> w.after(Reply::Told(true)).after(Reply::Made(true)).asks()
            == Action::Tell(Tell::Finish),
{
}

/// What the sinks are told is starting is what is run next, and what came of it is
/// taken down before they are told it is done.
pub proof fn what_is_told_is_what_is_run(w: Walk, step: usize, at: usize, ran: Ran, elapsed_s: Secs)
    requires
        w.fits(),
        w.phase == (Phase::ItemOpening { step, at }),
        ran.status.has_run(),
    ensures
        w.asks() == Action::Tell(Tell::ItemStart { step, at }),
        ({
            let running = w.after(Reply::Told(true));
            let done = running.after(Reply::Ran { ran, elapsed_s });
            &&& running.asks() == (Action::Execute { step, at })
            &&& running.lands(Reply::Ran { ran, elapsed_s }) == Some(
                (step, at, Some(ran), elapsed_s),
            )
            &&& done.asks() == Action::Tell(Tell::ItemDone { step, at })
            &&& done.steps[step as int].statuses[at as int] == ran.status
            &&& forall|i: int|
                0 <= i < w.steps[step as int].statuses.len() && i != at
                    ==> #[trigger] done.steps[step as int].statuses[i]
                    == w.steps[step as int].statuses[i]
        }),
{
}

/// The same in a batch: a worker's word that it started is passed on, and so is its
/// word that it is back, with what came of it taken down first. After either the walk
/// listens again, and calls the batch off exactly when the step is to be stopped.
pub proof fn a_worker_s_word_is_passed_on(
    w: Walk,
    step: usize,
    fresh: bool,
    cancel: bool,
    at: usize,
    ran: Ran,
    elapsed_s: Secs,
)
    requires
        w.fits(),
        w.phase == (Phase::Batching { step, fresh, cancel }),
        at < w.seats.len(),
        ran.status.has_run(),
    ensures
        w.seats[at as int] == Seat::Waiting ==> {
            let heard = w.after(Reply::Started { at });
            &&& heard.asks() == Action::Tell(Tell::ItemStart { step, at })
            &&& heard.seats[at as int] == Seat::Running
            &&& heard.steps == w.steps
            &&& heard.after(Reply::Told(true)).asks() == (Action::Listen {
                step,
                cancel: w.steps[step as int].stops(),
            })
        },
        w.seats[at as int] == Seat::Running ==> {
            let heard = w.after(Reply::Back { at, ran: Some(ran), elapsed_s });
            &&& heard.asks() == Action::Tell(Tell::ItemDone { step, at })
            &&& heard.seats[at as int] == Seat::Empty
            &&& heard.steps[step as int].statuses[at as int] == ran.status
            &&& w.lands(Reply::Back { at, ran: Some(ran), elapsed_s }) == Some(
                (step, at, Some(ran), elapsed_s),
            )
            &&& heard.after(Reply::Told(true)).asks() == (Action::Listen {
                step,
                cancel: heard.steps[step as int].stops(),
            })
        },
{
}

/// The workers can all be gone only when nothing is running and nothing is left that
/// anyone would still take.
pub proof fn a_batch_is_over_only_when_nothing_runs(w: Walk, step: int, i: int)
    requires
        w.drained(step),
        0 <= i < w.seats.len(),
    ensures
        w.seats[i] != Seat::Running,
        w.seats[i] == Seat::Waiting ==> w.steps[step].stops(),
{
    assert(w.seats.contains(w.seats[i]));
}

/// A step that is over is followed by the next, unless it ended the run: then the
/// sinks are told the run is given up on, and the steps after it follow all the same.
/// The last is followed by the finish.
pub proof fn one_step_follows_another(w: Walk, step: usize)
    requires
        w.fits(),
        w.phase == (Phase::Closing { step, live: true }),
    ensures
        w.asks() == Action::Tell(Tell::StepDone { step }),
        ({
            let over = w.after(Reply::Told(true));
            let next = if step + 1 < w.steps.len() {
                Action::Tell(Tell::StepStart { step: (step + 1) as usize })
            } else {
                Action::Tell(Tell::Finish)
            };
            let failed = exists|i: int|
                0 <= i < w.steps[step as int].statuses.len()
                    && (#[trigger] w.steps[step as int].statuses[i]).has_failed();
            &&& failed && w.steps[step as int].on_error is Abort ==> {
                &&& over.asks() == Action::Tell(Tell::Abandoned)
                &&& over.failed == Some(step)
                &&& over.after(Reply::Told(true)).asks() == next
            }
            &&& !(failed && w.steps[step as int].on_error is Abort) ==> {
                &&& over.asks() == next
                &&& over.failed == w.failed
            }
        }),
{
    a_failure_stops_what_it_was_set_to_stop(w.steps[step as int]);
}

/// An item that did not stop its step is followed by the next one, and the last by the
/// end of the step unless something is left that never ran.
pub proof fn one_item_follows_another(w: Walk, step: usize, at: usize)
    requires
        w.fits(),
        w.phase == (Phase::ItemClosing { step, at }),
        !w.steps[step as int].stops(),
    ensures
        at + 1 < w.steps[step as int].statuses.len() ==> w.after(Reply::Told(true)).asks()
            == Action::Tell(Tell::ItemStart { step, at: (at + 1) as usize }),
        at + 1 == w.steps[step as int].statuses.len() && (forall|i: int|
            0 <= i < w.steps[step as int].statuses.len() ==> !(
            #[trigger] w.steps[step as int].statuses[i] is NotRun)) ==> w.after(
            Reply::Told(true),
        ).asks() == Action::Tell(Tell::StepDone { step }),
{
    lemma_next_not_run(w.steps[step as int].statuses, 0);
}

/// An item that did stop its step is followed by none: whatever never ran is skipped,
/// and then the step is over.
pub proof fn nothing_follows_what_stopped_a_step(w: Walk, step: usize, at: usize)
    requires
        w.fits(),
        w.phase == (Phase::ItemClosing { step, at }),
        w.steps[step as int].stops(),
    ensures
        ({
            let next = w.after(Reply::Told(true));
            ||| next.asks() == Action::Tell(Tell::StepDone { step })
            ||| exists|i: usize|
                i < w.steps[step as int].statuses.len() && next.asks() == Action::Tell(
                    Tell::ItemDone { step, at: i },
                ) && w.steps[step as int].statuses[i as int] is NotRun
                    && #[trigger] next.steps[step as int].statuses[i as int] is Skipped
        }),
{
    let statuses = w.steps[step as int].statuses;
    lemma_next_not_run(statuses, 0);
    let i = next_not_run(statuses, 0);
    let next = w.after(Reply::Told(true));
    if i < statuses.len() {
        assert(next.steps[step as int].statuses[(i as usize) as int] is Skipped);
    }
}

/// Whatever a sink refuses, the next thing is that it is over; in a batch, once the
/// workers were sent home.
pub proof fn a_refusal_leads_to_the_finish(w: Walk)
    requires
        w.fits(),
        w.asks() is Tell,
        w.asks() != Action::Tell(Tell::Finish),
    ensures
        ({
            let refused = w.after(Reply::Told(false));
            &&& refused.stopped
            &&& refused.steps == w.steps
            &&& match w.phase {
                Phase::Hearing { step, .. } => {
                    &&& refused.asks() == (Action::Leave { step })
                    &&& refused.after(Reply::Left).asks() == Action::Tell(Tell::Finish)
                },
                Phase::Reporting { step, .. } => {
                    &&& refused.asks() == (Action::Leave { step })
                    &&& refused.after(Reply::Left).asks() == Action::Tell(Tell::Finish)
                },
                _ => refused.asks() == Action::Tell(Tell::Finish),
            }
        }),
{
}

/// A finish that is refused is not a run that was stopped, but one that passed only if
/// it was taken.
pub proof fn a_refused_finish_is_not_passed_over(w: Walk, ok: bool)
    requires
        w.phase is Finishing,
    ensures
        w.asks() == Action::Tell(Tell::Finish),
        w.after(Reply::Told(ok)).unfinished == !ok,
        w.after(Reply::Told(ok)).stopped == w.stopped,
        w.after(Reply::Told(ok)).failed == w.failed,
{
}

/// A run keeps up with its walk, remembers where its logs go, takes down what came
/// back in the step it came back to and no other, and remembers of a step that ended
/// it the first thing in it that failed.
pub proof fn a_run_takes_down_what_came_back(before: Run, after: Run, reply: Reply, s: int, j: int)
    requires
        before.wf(),
        after.follows_from(before, reply),
        0 <= s < before.held().len(),
    ensures
        after@ == before@.after(reply),
        after.dir() == before.dir(),
        after.held().len() == before.held().len(),
        before@.lands(reply) matches Some((step, at, ran, elapsed_s)) ==> {
            &&& s == step ==> after.held()[s].elapsed_s == Some(elapsed_s)
            &&& s == step && ran is Some && at < before.held()[s].count() ==> after.held()[s].at(
                at as int,
            ).status_of() == ran->0.status
            &&& s == step && ran is None ==> after.held()[s].items == before.held()[s].items
            &&& s != step && !(after@.phase is Skipping) ==> after.held()[s] == before.held()[s]
        },
        before@.lands(reply) is None && !(after@.phase is Skipping) ==> after.held()[s]
            == before.held()[s],
        after.held()[s].name == before.held()[s].name,
        after.held()[s].index == before.held()[s].index,
        after.held()[s].on_error == before.held()[s].on_error,
        after.held()[s].strategy_of() == before.held()[s].strategy_of(),
        before@.phase == (Phase::Closing { step: s as usize, live: true }) && reply == Reply::Told(
            true,
        ) && before.held()[s].on_error is Abort && step::fails_first(
            before.held()[s].statuses(),
            j,
        ) ==> after.why() is Some && after.why()->0@ == before.held()[s].complaint(j),
{
    assert(before@.step_after(reply, s, before.held()[s], after.held()[s]));
    assert(before@.steps.len() == before.held().len());
    if before.held()[s].on_error is Abort && step::fails_first(before.held()[s].statuses(), j) {
        assert(before.held()[s].ends_run());
    }
}

/// A word that answers nothing the walk asked for changes nothing, and neither does one
/// that cannot be so: that something ran which never did, that a command started twice
/// or came back without having started, that it came back without having run from a
/// batch nobody called off, or that everyone is gone while something runs.
pub proof fn a_word_out_of_place_changes_nothing(w: Walk, reply: Reply)
    ensures
        reply is Told && !(w.asks() is Tell) ==> w.after(reply) == w,
        reply is Made && !(w.asks() is MakeDir) ==> w.after(reply) == w,
        reply is Ran && !(w.asks() is Execute) ==> w.after(reply) == w,
        (reply is Started || reply is Back || reply is Drained) && !(w.asks() is Batch || w.asks()
            is Listen) ==> w.after(reply) == w,
        reply is Left && !(w.asks() is Leave) ==> w.after(reply) == w,
        reply is Tidied && !(w.asks() is Tidy) ==> w.after(reply) == w,
        reply matches Reply::Ran { ran, .. } ==> ran.status is NotRun || ran.status is Skipped
            ==> w.after(reply) == w,
        w.phase matches Phase::Batching { step, .. } ==> {
            &&& reply matches Reply::Started { at } ==> !(at < w.seats.len() && w.seats[at as int]
                == Seat::Waiting) ==> w.after(reply) == w
            &&& reply matches Reply::Back { at, ran: Some(ran), .. } ==> !(at < w.seats.len()
                && w.seats[at as int] == Seat::Running) || ran.status is NotRun || ran.status
                is Skipped ==> w.after(reply) == w
            &&& reply matches Reply::Back { at, ran: None, .. } ==> !(at < w.seats.len()
                && w.seats[at as int] == Seat::Waiting) || !w.steps[step as int].stops()
                ==> w.after(reply) == w
            &&& reply is Drained && w.seats.contains(Seat::Running) ==> w.after(reply) == w
            &&& reply is Drained && w.seats.contains(Seat::Waiting)
                && !w.steps[step as int].stops() ==> w.after(reply) == w
        },
{
}

} // verus!
