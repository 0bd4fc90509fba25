//! Steps: what they hold, and how far a failure in one reaches.

use vstd::prelude::*;

use crate::closure::Closure;
use crate::cmd::Cmd;
use crate::execute::{Ran, Secs, Status};
use crate::item::Item;
use crate::label;

verus! {

/// How far a failed command reaches.
#[derive(Clone, Copy, Debug, PartialEq, Eq, Structural)]
pub enum OnError {
    /// Run the rest of this step's commands anyway.
    Continue,
    /// Skip the rest of this step. The pipeline carries on to the next one.
    Skip,
    /// Skip the rest of this step, skip every step after it, and fail the run.
    Abort,
}

impl Default for OnError {
    fn default() -> (r: OnError)
        ensures
            r is Abort,
    {
        OnError::Abort
    }
}

/// How a step's commands run.
#[derive(Clone, Copy, Debug, PartialEq, Eq, Structural)]
pub enum Strategy {
    Serial,
    Batched { jobs: usize },
}

/// What a step holds. Commands and closures are run and reported differently
/// enough to be kept apart: only commands have a strategy to run under, cores
/// to ask for, or an argv to print.
#[derive(Clone, Debug)]
pub enum Items {
    Cmds {
        cmds: Vec<Cmd>,
        strategy: Strategy,
        /// How many cores each of these asks for, unless it asked for itself.
        cores: Option<usize>,
    },
    /// Serial by definition, for now: nothing here spawns a thread.
    Closures(Vec<Closure>),
}

/// Commands or closures that belong together.
#[derive(Clone, Debug)]
pub struct Step {
    pub name: Option<String>,
    pub index: Option<usize>,
    pub on_error: OnError,
    pub elapsed_s: Option<Secs>,
    pub items: Items,
}

/// What an optional name says.
pub open spec fn name_text(name: Option<String>) -> Option<Seq<char>> {
    match name {
        Some(name) => Some(name@),
        None => None,
    }
}

/// How many workers a batch of this many at a time gets.
pub open spec fn workers_for(jobs: usize) -> usize {
    if jobs == 0 {
        1
    } else {
        jobs
    }
}

/// Whether the thing at `j` is the first of these that failed.
pub open spec fn fails_first(statuses: Seq<Status>, j: int) -> bool {
    0 <= j < statuses.len() && statuses[j].has_failed() && forall|i: int|
        0 <= i < j ==> !(#[trigger] statuses[i]).has_failed()
}

/// Whether any of these failed.
pub open spec fn any_failed(statuses: Seq<Status>) -> bool {
    exists|j: int| #[trigger] fails_first(statuses, j)
}

impl Step {
    /// The commands, or none for a step of closures.
    pub open spec fn all_cmds(self) -> Seq<Cmd> {
        match self.items {
            Items::Cmds { cmds, .. } => cmds@,
            Items::Closures(_) => Seq::empty(),
        }
    }

    /// The closures, or none for a step of commands.
    pub open spec fn all_closures(self) -> Seq<Closure> {
        match self.items {
            Items::Cmds { .. } => Seq::empty(),
            Items::Closures(closures) => closures@,
        }
    }

    /// How many things this holds.
    pub open spec fn count(self) -> nat {
        match self.items {
            Items::Cmds { cmds, .. } => cmds@.len(),
            Items::Closures(closures) => closures@.len(),
        }
    }

    /// The thing at `j`.
    pub open spec fn at(self, j: int) -> Item<'static> {
        match self.items {
            Items::Cmds { cmds, .. } => Item::Cmd(&cmds@[j]),
            Items::Closures(closures) => Item::Closure(&closures@[j]),
        }
    }

    /// How each thing this holds has gone so far.
    pub open spec fn statuses(self) -> Seq<Status> {
        Seq::new(self.count(), |j: int| self.at(j).status_of())
    }

    /// Whether this holds what `other` does, all but the thing at `j`.
    pub open spec fn items_but(self, other: Step, j: int) -> bool {
        match (self.items, other.items) {
            (
                Items::Cmds { cmds: a, strategy, cores },
                Items::Cmds { cmds: b, strategy: other_strategy, cores: other_cores },
            ) => {
                &&& strategy == other_strategy
                &&& cores == other_cores
                &&& a@.len() == b@.len()
                &&& forall|i: int| 0 <= i < a@.len() && i != j ==> #[trigger] a@[i] == b@[i]
            },
            (Items::Closures(a), Items::Closures(b)) => {
                &&& a@.len() == b@.len()
                &&& forall|i: int| 0 <= i < a@.len() && i != j ==> #[trigger] a@[i] == b@[i]
            },
            _ => false,
        }
    }

    /// Whether this is `before` with the thing at `j` given this status.
    pub open spec fn is_with_status(self, before: Step, j: int, status: Status) -> bool {
        &&& self == (Step { items: self.items, ..before })
        &&& self.items_but(before, j)
        &&& match (self.items, before.items) {
            (Items::Cmds { cmds: now, .. }, Items::Cmds { cmds: then, .. }) => now@[j] == (Cmd {
                status,
                ..then@[j]
            }),
            (Items::Closures(now), Items::Closures(then)) => now@[j] == (Closure {
                status,
                ..then@[j]
            }),
            _ => false,
        }
    }

    /// Whether this is `before` once the thing at `j` came back from running, or
    /// without having run, that long after the step got going.
    pub open spec fn is_with_result(
        self,
        before: Step,
        j: int,
        ran: Option<Ran>,
        elapsed_s: Secs,
    ) -> bool {
        &&& self == (Step { items: self.items, elapsed_s: Some(elapsed_s), ..before })
        &&& self.items_but(before, j)
        &&& match (self.items, before.items, ran) {
            (Items::Cmds { cmds: now, .. }, Items::Cmds { cmds: then, .. }, Some(ran)) => now@[j]
                == (Cmd {
                status: ran.status,
                cpus: ran.cpus,
                ..then@[j]
            }),
            (Items::Closures(now), Items::Closures(then), Some(ran)) => now@[j] == (Closure {
                status: ran.status,
                ..then@[j]
            }),
            _ => self.items == before.items,
        }
    }

    /// What to call this step.
    pub open spec fn label_text(self) -> Seq<char> {
        match self.index {
            Some(index) => label::label_text(index as nat, name_text(self.name)),
            None => Seq::empty(),
        }
    }

    pub open spec fn strategy_of(self) -> Option<Strategy> {
        match self.items {
            Items::Cmds { strategy, .. } => Some(strategy),
            Items::Closures(_) => None,
        }
    }

    /// The failure of the thing at `j`, described.
    pub open spec fn complaint(self, j: int) -> Seq<char> {
        match self.items {
            Items::Cmds { cmds, .. } => cmds@[j].label_text() + " failed: "@
                + cmds@[j].line_text(),
            Items::Closures(closures) => match closures@[j].status {
                Status::Failed(why) => closures@[j].name@ + " failed: "@ + why@,
                _ => closures@[j].name@ + " failed"@,
            },
        }
    }

    /// Whether the rest of this step's commands are not worth running.
    pub open spec fn stops(self) -> bool {
        self.on_error != OnError::Continue && any_failed(self.statuses())
    }

    /// Whether this step ends the run.
    pub open spec fn ends_run(self) -> bool {
        self.on_error == OnError::Abort && any_failed(self.statuses())
    }

    pub fn serial(cmds: Vec<Cmd>) -> (r: Step)
        ensures
            r.name is None,
            r.index is None,
            r.on_error is Abort,
            r.elapsed_s is None,
            r.items == (Items::Cmds { cmds, strategy: Strategy::Serial, cores: None }),
    {
        Step::of(Items::Cmds { cmds, strategy: Strategy::Serial, cores: None })
    }

    pub fn batched(jobs: usize, cmds: Vec<Cmd>) -> (r: Step)
        ensures
            r.name is None,
            r.index is None,
            r.on_error is Abort,
            r.elapsed_s is None,
            r.items == (Items::Cmds {
                cmds,
                strategy: Strategy::Batched {
                    jobs: if jobs == 0 {
                        1
                    } else {
                        jobs
                    },
                },
                cores: None,
            }),
            r.strategy_of() == Some(Strategy::Batched { jobs: workers_for(jobs) }),
    {
        let jobs: usize = if jobs == 0 {
            1
        } else {
            jobs
        };
        Step::of(Items::Cmds { cmds, strategy: Strategy::Batched { jobs }, cores: None })
    }

    /// One closure after another. There is no batched form: a closure runs on
    /// the thread that reached it.
    pub fn from_closures(closures: Vec<Closure>) -> (r: Step)
        ensures
            r.name is None,
            r.index is None,
            r.on_error is Abort,
            r.elapsed_s is None,
            r.items == Items::Closures(closures),
    {
        Step::of(Items::Closures(closures))
    }

    fn of(items: Items) -> (r: Step)
        ensures
            r.name is None,
            r.index is None,
            r.on_error is Abort,
            r.elapsed_s is None,
            r.items == items,
    {
        Step { name: None, index: None, on_error: OnError::default(), elapsed_s: None, items }
    }

    /// Pin each of this step's commands to `cores` physical cores.
    ///
    /// Per command, not per step: a batch of four with `cores(2)` asks for eight
    /// cores. If the machine cannot spare that many at once, the commands that
    /// cannot be placed wait for the ones that can.
    pub fn cores(self, cores: usize) -> (r: Step)
        ensures
            r == (Step { items: r.items, ..self }),
            match self.items {
                Items::Cmds { cmds, strategy, .. } => r.items == (Items::Cmds {
                    cmds,
                    strategy,
                    cores: Some(cores),
                }),
                // a closure asks for none, so there is nothing here to set
                Items::Closures(_) => r.items == self.items,
            },
    {
        match self.items {
            Items::Cmds { cmds, strategy, .. } => Step {
                name: self.name,
                index: self.index,
                on_error: self.on_error,
                elapsed_s: self.elapsed_s,
                items: Items::Cmds { cmds, strategy, cores: Some(cores) },
            },
            Items::Closures(closures) => Step {
                name: self.name,
                index: self.index,
                on_error: self.on_error,
                elapsed_s: self.elapsed_s,
                items: Items::Closures(closures),
            },
        }
    }

    pub fn name(self, name: &str) -> (r: Step)
        ensures
            r.name matches Some(n) && n@ == name@,
            r == (Step { name: r.name, ..self }),
    {
        Step { name: Some(name.to_owned()), ..self }
    }

    pub fn on_error(self, on_error: OnError) -> (r: Step)
        ensures
            r == (Step { on_error, ..self }),
    {
        Step { on_error, ..self }
    }

    /// What to call this step. Empty until the pipeline is built, which is when
    /// a step learns its number.
    pub fn label(&self) -> (r: String)
        ensures
            r@ == self.label_text(),
    {
        match self.index {
            Some(index) => label::label(index, self.name_str()),
            None => {
                let none = String::new();
                assert(none@ =~= Seq::<char>::empty());
                none
            },
        }
    }

    /// The name this was given, if it was given one.
    pub fn name_str(&self) -> (r: Option<&str>)
        ensures
            label::name_of(r) == name_text(self.name),
    {
        match &self.name {
            Some(name) => Some(name.as_str()),
            None => None,
        }
    }

    pub fn cmds(&self) -> (r: &[Cmd])
        ensures
            r@ == self.all_cmds(),
    {
        match &self.items {
            Items::Cmds { cmds, .. } => cmds.as_slice(),
            Items::Closures(_) => &[],
        }
    }

    pub fn closures(&self) -> (r: &[Closure])
        ensures
            r@ == self.all_closures(),
    {
        match &self.items {
            Items::Cmds { .. } => &[],
            Items::Closures(closures) => closures.as_slice(),
        }
    }

    /// How many things this step holds.
    pub fn len(&self) -> (r: usize)
        ensures
            r == self.count(),
    {
        match &self.items {
            Items::Cmds { cmds, .. } => cmds.len(),
            Items::Closures(closures) => closures.len(),
        }
    }

    /// The thing at `j`.
    pub fn item(&self, j: usize) -> (r: Item<'_>)
        requires
            j < self.count(),
        ensures
            r == self.at(j as int),
    {
        match &self.items {
            Items::Cmds { cmds, .. } => Item::Cmd(&cmds[j]),
            Items::Closures(closures) => Item::Closure(&closures[j]),
        }
    }

    /// Everything this step holds, in the order it was given, whichever kind it
    /// holds. This is what a sink sees.
    pub fn items(&self) -> (r: Vec<Item<'_>>)
        ensures
            r@ == Seq::new(self.count(), |j: int| self.at(j)),
    {
        let mut out: Vec<Item<'_>> = Vec::new();
        let n = self.len();
        for j in 0..n
            invariant
                n == self.count(),
                out@ == Seq::new(j as nat, |j: int| self.at(j)),
        {
            out.push(self.item(j));
            assert(out@ =~= Seq::new((j + 1) as nat, |j: int| self.at(j)));
        }
        out
    }

    pub fn wall_s(&self) -> (r: Option<Secs>)
        ensures
            r == self.elapsed_s,
    {
        self.elapsed_s
    }

    /// How this step's commands run. `None` for a step of closures, which has
    /// no commands to run either way.
    pub fn strategy(&self) -> (r: Option<Strategy>)
        ensures
            r == self.strategy_of(),
    {
        match &self.items {
            Items::Cmds { strategy, .. } => Some(*strategy),
            Items::Closures(_) => None,
        }
    }

    /// How many of this step's commands can be running at once.
    pub fn width(&self) -> (r: usize)
        ensures
            r == match self.strategy_of() {
                Some(Strategy::Batched { jobs }) => jobs,
                _ => 1,
            },
    {
        match self.strategy() {
            Some(Strategy::Batched { jobs }) => jobs,
            _ => 1,
        }
    }

    /// Whether the rest of this step's commands are not worth running.
    pub fn skips(&self) -> (r: bool)
        ensures
            r == self.stops(),
    {
        self.on_error != OnError::Continue && self.failed().is_some()
    }

    /// What to say about the thing that ends the run, if this step holds one.
    ///
    /// A command names the line you could paste to see it again; a closure has
    /// no such line, so it goes by its name alone.
    pub fn aborts(&self) -> (r: Option<String>)
        ensures
            r is Some <==> self.ends_run(),
            forall|j: int|
                self.ends_run() && #[trigger] fails_first(self.statuses(), j) ==> r->0@
                    == self.complaint(j),
    {
        if self.on_error == OnError::Abort {
            self.failed()
        } else {
            None
        }
    }

    /// The first thing in this step that failed, described.
    pub fn failed(&self) -> (r: Option<String>)
        ensures
            r is Some <==> any_failed(self.statuses()),
            forall|j: int|
                #[trigger] fails_first(self.statuses(), j) ==> r->0@ == self.complaint(j),
    {
        let n = self.len();
        for j in 0..n
            invariant
                n == self.count(),
                forall|i: int| 0 <= i < j ==> !(#[trigger] self.statuses()[i]).has_failed(),
        {
            assert(self.statuses()[j as int] == self.at(j as int).status_of());
            if self.item(j).status().failed() {
                assert(fails_first(self.statuses(), j as int));
                return Some(self.complain(j));
            }
        }
        None
    }

    /// Set how the thing at `j` went, leaving everything else alone.
    pub fn set_status(&mut self, j: usize, status: Status)
        requires
            j < old(self).count(),
        ensures
            final(self).is_with_status(*old(self), j as int, status),
            final(self).statuses() == old(self).statuses().update(j as int, status),
    {
        match &mut self.items {
            Items::Cmds { cmds, .. } => {
                cmds[j].status = status;
            },
            Items::Closures(closures) => {
                closures[j].status = status;
            },
        }
    }

    /// Take down that the thing at `j` came back, and how it went if it ran.
    pub fn take_result(&mut self, j: usize, ran: Option<Ran>, elapsed_s: Secs)
        requires
            j < old(self).count(),
        ensures
            final(self).is_with_result(*old(self), j as int, ran, elapsed_s),
            final(self).statuses() == match ran {
                Some(ran) => old(self).statuses().update(j as int, ran.status),
                None => old(self).statuses(),
            },
    {
        if let Some(ran) = ran {
            match &mut self.items {
                Items::Cmds { cmds, .. } => {
                    cmds[j].status = ran.status;
                    // the cpus it was pinned to come back with it, so they are
                    // what gets reported
                    cmds[j].cpus = ran.cpus;
                },
                Items::Closures(closures) => {
                    closures[j].status = ran.status;
                },
            }
        }
        self.elapsed_s = Some(elapsed_s);
    }

    fn complain(&self, j: usize) -> (r: String)
        requires
            j < self.count(),
        ensures
            r@ == self.complaint(j as int),
    {
        match &self.items {
            Items::Cmds { cmds, .. } => {
                let mut out = cmds[j].label();
                out.append(" failed: ");
                out.append(cmds[j].line().as_str());
                out
            },
            // a closure has no stderr file to go and read, so what it said when
            // it failed is only ever going to be here
            Items::Closures(closures) => {
                let mut out = closures[j].label().to_owned();
                match closures[j].status() {
                    Status::Failed(why) => {
                        out.append(" failed: ");
                        out.append(why.as_str());
                    },
                    // a failure with no words of its own
                    _ => {
                        out.append(" failed");
                    },
                }
                out
            },
        }
    }
}

/// A step holds no more than a machine can count.
pub proof fn lemma_count(step: Step)
    ensures
        step.count() <= usize::MAX,
        step.statuses().len() == step.count(),
{
    match step.items {
        Items::Cmds { cmds, .. } => {
            assert(cmds@.len() == cmds.len());
        },
        Items::Closures(closures) => {
            assert(closures@.len() == closures.len());
        },
    }
}

/// How far a failure reaches. A step set to carry on is stopped by nothing, one
/// set to skip stops and leaves the run alone, and one set to abort ends the run
/// exactly when it stops. Nothing stops a step in which nothing failed.
pub proof fn how_far_a_failure_reaches(step: Step)
    ensures
        step.on_error is Continue ==> !step.stops() && !step.ends_run(),
        step.on_error is Skip ==> step.stops() == any_failed(step.statuses())
            && !step.ends_run(),
        step.on_error is Abort ==> step.stops() == any_failed(step.statuses())
            && step.ends_run() == step.stops(),
        !any_failed(step.statuses()) ==> !step.stops() && !step.ends_run(),
{
}

impl From<Cmd> for Step {
    fn from(cmd: Cmd) -> (r: Step)
        ensures
            r.name is None,
            r.index is None,
            r.on_error is Abort,
            r.elapsed_s is None,
            r.strategy_of() == Some(Strategy::Serial),
            r.all_cmds() == seq![cmd],
    {
        let mut cmds: Vec<Cmd> = Vec::new();
        cmds.push(cmd);
        Step::serial(cmds)
    }
}

impl vstd::std_specs::convert::FromSpecImpl<Cmd> for Step {
    open spec fn obeys_from_spec() -> bool {
        false
    }

    open spec fn from_spec(cmd: Cmd) -> Step {
        arbitrary()
    }
}

impl From<Closure> for Step {
    fn from(closure: Closure) -> (r: Step)
        ensures
            r.name is None,
            r.index is None,
            r.on_error is Abort,
            r.elapsed_s is None,
            r.strategy_of() is None,
            r.all_closures() == seq![closure],
    {
        let mut closures: Vec<Closure> = Vec::new();
        closures.push(closure);
        Step::from_closures(closures)
    }
}

impl vstd::std_specs::convert::FromSpecImpl<Closure> for Step {
    open spec fn obeys_from_spec() -> bool {
        false
    }

    open spec fn from_spec(closure: Closure) -> Step {
        arbitrary()
    }
}

/// Something failed exactly when one of these did, and the first that did is the
/// one with none before it.
pub proof fn something_failed_if_anything_did(statuses: Seq<Status>)
    ensures
        any_failed(statuses) <==> exists|i: int|
            0 <= i < statuses.len() && (#[trigger] statuses[i]).has_failed(),
        forall|i: int, j: int|
            #![trigger fails_first(statuses, i), fails_first(statuses, j)]
            fails_first(statuses, i) && fails_first(statuses, j) ==> i == j,
        forall|i: int, j: int|
            #![trigger fails_first(statuses, j), statuses[i]]
            fails_first(statuses, j) && 0 <= i < statuses.len() && statuses[i].has_failed()
                ==> statuses[j].has_failed() && j <= i,
    decreases statuses.len(),
{
    if statuses.len() > 0 {
        let most = statuses.drop_last();
        something_failed_if_anything_did(most);
        let at = statuses.len() - 1;
        if any_failed(most) {
            let j = choose|j: int| #[trigger] fails_first(most, j);
            assert forall|i: int| 0 <= i < j implies !(#[trigger] statuses[i]).has_failed() by {
                assert(most[i] == statuses[i]);
            }
            assert(statuses[j] == most[j]);
            assert(fails_first(statuses, j));
        } else if statuses[at].has_failed() {
            assert forall|i: int| 0 <= i < at implies !(#[trigger] statuses[i]).has_failed() by {
                assert(most[i] == statuses[i]);
            }
            assert(fails_first(statuses, at));
        } else {
            assert forall|i: int| 0 <= i < statuses.len() implies !(
            #[trigger] statuses[i]).has_failed() by {
                if i < at {
                    assert(most[i] == statuses[i]);
                }
            }
        }
    }
    if any_failed(statuses) {
        let j = choose|j: int| #[trigger] fails_first(statuses, j);
        assert(statuses[j].has_failed());
    }
}

/// A step stops when something in it failed and it was not to carry on, and ends the
/// run when something in it failed and it was to; never otherwise.
pub proof fn a_step_stops_only_for_a_failure(step: Step)
    ensures
        ({
            let failed = exists|j: int|
                0 <= j < step.count() && (#[trigger] step.at(j)).status_of().has_failed();
            &&& step.stops() <==> failed && (step.on_error is Skip || step.on_error is Abort)
            &&& step.ends_run() <==> failed && step.on_error is Abort
        }),
{
    let statuses = step.statuses();
    something_failed_if_anything_did(statuses);
    if exists|i: int| 0 <= i < statuses.len() && (#[trigger] statuses[i]).has_failed() {
        let i = choose|i: int| 0 <= i < statuses.len() && (#[trigger] statuses[i]).has_failed();
        assert(step.at(i).status_of().has_failed());
    }
    if exists|j: int| 0 <= j < step.count() && (#[trigger] step.at(j)).status_of().has_failed() {
        let j = choose|j: int|
            0 <= j < step.count() && (#[trigger] step.at(j)).status_of().has_failed();
        assert(statuses[j].has_failed());
    }
}

/// A step holds the commands or the closures it was given, in the order it was given
/// them, and says of each how it went.
pub proof fn a_step_holds_what_it_was_given(step: Step, j: int)
    ensures
        step.statuses().len() == step.count(),
        step.items matches Items::Cmds { cmds, strategy, .. } ==> {
            &&& step.count() == cmds@.len()
            &&& step.all_cmds() == cmds@
            &&& step.all_closures().len() == 0
            &&& step.strategy_of() == Some(strategy)
            &&& 0 <= j < cmds@.len() ==> {
                &&& step.at(j) == Item::Cmd(&cmds@[j])
                &&& step.statuses()[j] == cmds@[j].status
            }
        },
        step.items matches Items::Closures(closures) ==> {
            &&& step.count() == closures@.len()
            &&& step.all_closures() == closures@
            &&& step.all_cmds().len() == 0
            &&& step.strategy_of() is None
            &&& 0 <= j < closures@.len() ==> {
                &&& step.at(j) == Item::Closure(&closures@[j])
                &&& step.statuses()[j] == closures@[j].status
            }
        },
{
}

/// Taking down how one thing went changes that and nothing else: not how anything
/// else went, and not what anything is.
pub proof fn one_result_changes_one_thing(
    before: Step,
    marked: Step,
    told: Step,
    j: int,
    status: Status,
    ran: Ran,
    elapsed_s: Secs,
    i: int,
)
    requires
        0 <= j < before.count(),
        0 <= i < before.count(),
        marked.is_with_status(before, j, status),
        told.is_with_result(before, j, Some(ran), elapsed_s),
    ensures
        marked.at(j).status_of() == status,
        told.at(j).status_of() == ran.status,
        i != j ==> marked.at(i) == before.at(i) && told.at(i) == before.at(i),
        marked.count() == before.count() && told.count() == before.count(),
        marked.elapsed_s == before.elapsed_s,
        told.elapsed_s == Some(elapsed_s),
        marked.on_error == before.on_error && told.on_error == before.on_error,
        marked.name == before.name && told.name == before.name,
        marked.index == before.index && told.index == before.index,
        marked.strategy_of() == before.strategy_of(),
        told.strategy_of() == before.strategy_of(),
        told.items matches Items::Cmds { cmds, .. } ==> cmds@[j].cpus@ == ran.cpus@
            && cmds@[j].line_text() == before.all_cmds()[j].line_text(),
        marked.at(j).label_text() == before.at(j).label_text(),
        told.at(j).label_text() == before.at(j).label_text(),
{
}

/// Something that came back without having run leaves everything as it was but for
/// how long the step has been going.
pub proof fn nothing_ran_changes_nothing(
    before: Step,
    after: Step,
    j: int,
    elapsed_s: Secs,
)
    requires
        after.is_with_result(before, j, None, elapsed_s),
    ensures
        after.items == before.items,
        after.elapsed_s == Some(elapsed_s),
        after.name == before.name && after.index == before.index && after.on_error
            == before.on_error,
{
}

/// A step has nothing to be called until it has a number, and then goes by that and
/// its name.
pub proof fn a_step_is_called_by_its_number(step: Step)
    ensures
        step.index is None ==> step.label_text().len() == 0,
        step.index matches Some(index) ==> match step.name {
            Some(name) => step.label_text() == label::label_text(index as nat, Some(name@)),
            None => step.label_text() == label::label_text(index as nat, None),
        },
{
}

/// A failure is described by what it is called, and then by the line to see it again
/// for a command, and by what it said itself for a closure that said anything.
pub proof fn a_failure_is_described(step: Step, j: int)
    requires
        0 <= j < step.count(),
    ensures
        ({
            let start = step.at(j).label_text() + " failed"@;
            let said = step.complaint(j);
            &&& said.len() >= start.len()
            &&& said.take(start.len() as int) == start
            &&& step.items matches Items::Cmds { cmds, .. } ==> said == start + ": "@
                + cmds@[j].line_text()
            &&& step.items matches Items::Closures(closures) ==> match closures@[j].status {
                Status::Failed(why) => said == start + ": "@ + why@,
                _ => said == start,
            }
        }),
{
    reveal_strlit(" failed");
    reveal_strlit(": ");
    reveal_strlit(" failed: ");
    assert(" failed: "@ =~= " failed"@ + ": "@);
    let start = step.at(j).label_text() + " failed"@;
    let said = step.complaint(j);
    match step.items {
        Items::Cmds { cmds, .. } => {
            assert(said =~= start + ": "@ + cmds@[j].line_text());
        },
        Items::Closures(closures) => {
            if let Status::Failed(why) = closures@[j].status {
                assert(said =~= start + ": "@ + why@);
            }
        },
    }
    assert(said.take(start.len() as int) =~= start);
}

/// A batch gets exactly as many workers as it asks for, and one if it asks for none, so
/// there is always someone to do the work.
pub proof fn a_batch_always_has_a_worker(jobs: usize)
    ensures
        workers_for(jobs) >= 1,
        jobs >= 1 ==> workers_for(jobs) == jobs,
        jobs == 0 ==> workers_for(jobs) == 1,
{
}

} // verus!
