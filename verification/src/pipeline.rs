//! The list of steps, and what building them into a pipeline settles.

use vstd::prelude::*;

use crate::cmd::{Cmd, Output};
use crate::cpu;
use crate::label;
use crate::path;
use crate::run;
use crate::run::{Phase, Run, Walk};
use crate::step;
use crate::step::{Items, Step, Strategy};
use crate::text;

verus! {

/// Where failure logs go unless told otherwise.
const STDERR_DIR: &'static str = "stderr";

/// What a pipeline has to run on.
#[derive(Clone, Copy, Debug)]
pub struct Machine {
    /// How many physical cores it has.
    pub cores: usize,
}

/// How many cores a command of a step ends up asking for: its own, or else what
/// the step asks for each of them.
pub open spec fn cores_of(cmd: Cmd, inherited: Option<usize>) -> Option<usize> {
    if cmd.cores is None {
        inherited
    } else {
        cmd.cores
    }
}

/// The same as a number.
pub open spec fn wanted(cmd: Cmd, inherited: Option<usize>) -> usize {
    match cores_of(cmd, inherited) {
        Some(cores) => cores,
        None => 0,
    }
}

/// The file a command's stderr goes to in case it fails: one of its own in the
/// log directory, if there is a directory and it was not routed anywhere else.
pub open spec fn log_of(
    dir: Option<Seq<char>>,
    s_idx: nat,
    step: Option<Seq<char>>,
    c_idx: nat,
    cmd: Cmd,
) -> Option<Seq<char>> {
    match dir {
        Some(dir) if cmd.stderr is Null => Some(
            path::joined_path(
                dir,
                label::log_text(s_idx, step, c_idx, step::name_text(cmd.name)),
            ),
        ),
        _ => None,
    }
}

/// Whether this is `before` with everything settled that building settles: where
/// its stderr goes, and how many cores it asks for.
pub open spec fn cmd_settled(
    after: Cmd,
    before: Cmd,
    inherited: Option<usize>,
    log: Option<Seq<char>>,
) -> bool {
    &&& after == (Cmd {
        stderr: after.stderr,
        cores: cores_of(before, inherited),
        ..before
    })
    &&& match log {
        Some(log) => after.stderr matches Output::OnFailure(p) && p@ == log,
        None => after.stderr == before.stderr,
    }
}

/// Whether this is `before` with its number and everything settled that building
/// settles about its commands. A closure routes no stderr and asks for no cores,
/// so there is nothing for one to pick up.
pub open spec fn step_settled(
    after: Step,
    before: Step,
    index: usize,
    dir: Option<Seq<char>>,
) -> bool {
    &&& after == (Step { index: Some(index), items: after.items, ..before })
    &&& match (after.items, before.items) {
        (
            Items::Cmds { cmds: now, strategy, cores },
            Items::Cmds { cmds: then, strategy: strategy_then, cores: cores_then },
        ) => {
            &&& strategy == strategy_then
            &&& cores == cores_then
            &&& now@.len() == then@.len()
            &&& forall|c: int|
                0 <= c < then@.len() ==> cmd_settled(
                    #[trigger] now@[c],
                    then@[c],
                    cores,
                    log_of(
                        dir,
                        index as nat,
                        step::name_text(before.name),
                        (c + 1) as nat,
                        then@[c],
                    ),
                )
        },
        (Items::Closures(now), Items::Closures(then)) => now == then,
        _ => false,
    }
}

/// Whether the machine could never satisfy the command at `c` of this step. It
/// is the only ask it could not: anything else is a matter of waiting, since
/// commands hand their cores back.
pub open spec fn too_greedy(step: Step, c: int, machine: Machine) -> bool {
    match step.items {
        Items::Cmds { cmds, cores, .. } => 0 <= c < cmds@.len() && wanted(cmds@[c], cores)
            > machine.cores,
        Items::Closures(_) => false,
    }
}

/// Whether it is the first such command of the step.
pub open spec fn first_greedy(step: Step, c: int, machine: Machine) -> bool {
    too_greedy(step, c, machine) && forall|k: int|
        0 <= k < c ==> !#[trigger] too_greedy(step, k, machine)
}

/// Whether the step has such a command.
pub open spec fn any_greedy(step: Step, machine: Machine) -> bool {
    exists|c: int| #[trigger] first_greedy(step, c, machine)
}

/// What there is to say about it.
pub open spec fn greed_text(step: Step, index: nat, c: int, machine: Machine) -> Seq<char> {
    label::label_text(index, step::name_text(step.name)) + "."@
        + step.all_cmds()[c].label_text() + " wants "@ + text::decimal(
        wanted(step.all_cmds()[c], inherited_by(step)) as nat,
    ) + " cores, and the machine has "@ + text::decimal(machine.cores as nat)
}

/// How many cores each of a step's commands asks for, unless it asked for itself.
pub open spec fn inherited_by(step: Step) -> Option<usize> {
    match step.items {
        Items::Cmds { cores, .. } => cores,
        Items::Closures(_) => None,
    }
}

/// Whether the command at `c` gets a failure log.
pub open spec fn routes(step: Step, c: int) -> bool {
    0 <= c < step.all_cmds().len() && step.all_cmds()[c].stderr is Null
}

/// Whether any command of the step does.
pub open spec fn any_routes(step: Step) -> bool {
    exists|c: int| #[trigger] routes(step, c)
}

impl Cmd {
    /// Settle where its stderr goes and how many cores it asks for.
    fn settle(&mut self, inherited: Option<usize>, log: Option<String>)
        ensures
            cmd_settled(
                *final(self),
                *old(self),
                inherited,
                match log {
                    Some(log) => Some(log@),
                    None => None,
                },
            ),
    {
        if let Some(log) = log {
            self.stderr = Output::OnFailure(log);
        }
        // resolved once here, so nothing downstream has to know a command's core
        // count can come from the step holding it
        if self.cores.is_none() {
            self.cores = inherited;
        }
    }
}

/// The name a command was given, if it was given one.
fn name_str(cmd: &Cmd) -> (r: Option<&str>)
    ensures
        label::name_of(r) == step::name_text(cmd.name),
{
    match &cmd.name {
        Some(name) => Some(name.as_str()),
        None => None,
    }
}

/// What there is to say about a command that asks for too much.
fn complain(step_label: &str, cmd: &Cmd, want: usize, machine: &Machine) -> (r: String)
    ensures
        r@ == step_label@ + "."@ + cmd.label_text() + " wants "@ + text::decimal(want as nat)
            + " cores, and the machine has "@ + text::decimal(machine.cores as nat),
{
    let mut out = step_label.to_owned();
    out.append(".");
    out.append(cmd.label().as_str());
    out.append(" wants ");
    out.append(text::write_decimal(want as u128).as_str());
    out.append(" cores, and the machine has ");
    out.append(text::write_decimal(machine.cores as u128).as_str());
    out
}

impl Step {
    /// Settle everything building settles about a step. Says whether any of its
    /// commands got a failure log, or what is wrong with the first that asks for
    /// more than the machine has.
    fn settle(&mut self, index: usize, dir: &Option<String>, machine: &Machine) -> (r: Result<
        bool,
        String,
    >)
        ensures
            r is Err <==> any_greedy(*old(self), *machine),
            forall|c: int| #[trigger]
                first_greedy(*old(self), c, *machine) ==> r->Err_0@ == greed_text(
                    *old(self),
                    index as nat,
                    c,
                    *machine,
                ),
            r matches Ok(routed) ==> {
                &&& routed == (dir is Some && any_routes(*old(self)))
                &&& step_settled(
                    *final(self),
                    *old(self),
                    index,
                    step::name_text(*dir),
                )
            },
    {
        let ghost before = *self;
        self.index = Some(index);
        let step_label = self.label();
        let n = self.cmds().len();
        let inherited: Option<usize> = match &self.items {
            Items::Cmds { cores, .. } => *cores,
            Items::Closures(_) => None,
        };
        let mut routed = false;
        for c in 0..n
            invariant
                before == *old(self),
                n == before.all_cmds().len(),
                step_label@ == label::label_text(index as nat, step::name_text(before.name)),
                inherited == inherited_by(before),
                *self == (Step { index: Some(index), items: self.items, ..before }),
                self.settled_up_to(before, c as int, index, step::name_text(*dir)),
                forall|k: int| 0 <= k < c ==> !#[trigger] too_greedy(before, k, *machine),
                routed == (dir is Some && exists|k: int| #[trigger] routes(before, k) && k < c),
        {
            let log: Option<String> = match dir {
                Some(dir) if matches!(self.cmds()[c].stderr, Output::Null) => Some(
                    path::join(
                        dir.as_str(),
                        label::log_name(
                            index,
                            self.name_str(),
                            c + 1,
                            name_str(&self.cmds()[c]),
                        ).as_str(),
                    ),
                ),
                _ => None,
            };
            assert(routes(before, c as int) == (before.all_cmds()[c as int].stderr is Null));
            routed = routed || log.is_some();
            let want: usize = match self.cmds()[c].cores {
                Some(cores) => cores,
                None => match inherited {
                    Some(cores) => cores,
                    None => 0,
                },
            };
            assert(want == wanted(before.all_cmds()[c as int], inherited));
            if want > machine.cores {
                assert(first_greedy(before, c as int, *machine));
                return Err(complain(step_label.as_str(), &self.cmds()[c], want, machine));
            }
            assert(!too_greedy(before, c as int, *machine));
            match &mut self.items {
                Items::Cmds { cmds, .. } => {
                    cmds[c].settle(inherited, log);
                },
                Items::Closures(_) => {},
            }
        }
        Ok(routed)
    }

    spec fn settled_up_to(
        self,
        before: Step,
        n: int,
        index: usize,
        dir: Option<Seq<char>>,
    ) -> bool {
        match (self.items, before.items) {
            (
                Items::Cmds { cmds: now, strategy, cores },
                Items::Cmds { cmds: then, strategy: strategy_then, cores: cores_then },
            ) => {
                &&& strategy == strategy_then
                &&& cores == cores_then
                &&& now@.len() == then@.len()
                &&& forall|c: int|
                    0 <= c < then@.len() ==> if c < n {
                        cmd_settled(
                            #[trigger] now@[c],
                            then@[c],
                            cores,
                            log_of(
                                dir,
                                index as nat,
                                step::name_text(before.name),
                                (c + 1) as nat,
                                then@[c],
                            ),
                        )
                    } else {
                        now@[c] == then@[c]
                    }
            },
            (Items::Closures(now), Items::Closures(then)) => now == then,
            _ => false,
        }
    }
}

/// A pipeline under construction.
#[derive(Debug)]
pub struct PipelineBuilder {
    pub steps: Vec<Step>,
    pub stderr_dir: Option<String>,
}

impl Default for PipelineBuilder {
    fn default() -> (r: PipelineBuilder)
        ensures
            r.steps@.len() == 0,
            r.stderr_dir matches Some(dir) && dir@ == "stderr"@,
    {
        PipelineBuilder { steps: Vec::new(), stderr_dir: Some(STDERR_DIR.to_owned()) }
    }
}

impl PipelineBuilder {
    pub fn new() -> (r: PipelineBuilder)
        ensures
            r.steps@.len() == 0,
            r.stderr_dir matches Some(dir) && dir@ == "stderr"@,
    {
        PipelineBuilder::default()
    }

    pub fn step(self, step: Step) -> (r: PipelineBuilder)
        ensures
            r.steps@ == self.steps@.push(step),
            r.stderr_dir == self.stderr_dir,
    {
        let mut steps = self.steps;
        steps.push(step);
        PipelineBuilder { steps, stderr_dir: self.stderr_dir }
    }

    pub fn stderr_dir(self, dir: &str) -> (r: PipelineBuilder)
        ensures
            r.steps == self.steps,
            r.stderr_dir matches Some(d) && d@ == dir@,
    {
        PipelineBuilder { steps: self.steps, stderr_dir: Some(dir.to_owned()) }
    }

    pub fn no_stderr(self) -> (r: PipelineBuilder)
        ensures
            r.steps == self.steps,
            r.stderr_dir is None,
    {
        PipelineBuilder { steps: self.steps, stderr_dir: None }
    }

    /// The directory this run's failure logs go in: one of its own, named after
    /// when it was built.
    pub open spec fn log_dir(self, stamp: Seq<char>) -> Option<Seq<char>> {
        match self.stderr_dir {
            Some(dir) => Some(path::joined_path(dir@, stamp)),
            None => None,
        }
    }

    /// Whether the step at `s` is the first with a command the machine could
    /// never satisfy.
    pub open spec fn fails_at(self, s: int, machine: Machine) -> bool {
        0 <= s < self.steps@.len() && any_greedy(self.steps@[s], machine) && forall|k: int|
            0 <= k < s ==> !any_greedy(#[trigger] self.steps@[k], machine)
    }

    /// Settle everything there is to settle before the run: the steps' numbers,
    /// where failure logs go, and how many cores everything asks for. `stamp`
    /// says when this is, for the name of the log directory.
    pub fn build(self, stamp: &str, machine: &Machine) -> (r: Result<Pipeline, String>)
        ensures
            r is Err <==> exists|s: int| #[trigger] self.fails_at(s, *machine),
            forall|s: int, c: int|
                #![trigger self.fails_at(s, *machine), first_greedy(self.steps@[s], c, *machine)]
                self.fails_at(s, *machine) && first_greedy(self.steps@[s], c, *machine)
                    ==> r->Err_0@ == greed_text(self.steps@[s], (s + 1) as nat, c, *machine),
            r matches Ok(pipeline) ==> {
                &&& pipeline.steps@.len() == self.steps@.len()
                &&& forall|s: int|
                    0 <= s < self.steps@.len() ==> step_settled(
                        #[trigger] pipeline.steps@[s],
                        self.steps@[s],
                        (s + 1) as usize,
                        self.log_dir(stamp@),
                    )
                // a directory nothing needs is not claimed
                &&& step::name_text(pipeline.stderr_dir) == if exists|s: int|
                    0 <= s < self.steps@.len() && any_routes(#[trigger] self.steps@[s]) {
                    self.log_dir(stamp@)
                } else {
                    None
                }
            },
    {
        let dir: Option<String> = match &self.stderr_dir {
            Some(dir) => Some(path::join(dir.as_str(), stamp)),
            None => None,
        };
        let ghost given = self.steps@;
        let mut steps = self.steps;
        let mut wanted = false;
        let n = steps.len();
        for s in 0..n
            invariant
                n == given.len(),
                given == self.steps@,
                steps@.len() == given.len(),
                step::name_text(dir) == self.log_dir(stamp@),
                forall|k: int|
                    0 <= k < given.len() ==> if k < s {
                        step_settled(
                            #[trigger] steps@[k],
                            given[k],
                            (k + 1) as usize,
                            self.log_dir(stamp@),
                        )
                    } else {
                        steps@[k] == given[k]
                    },
                forall|k: int| 0 <= k < s ==> !any_greedy(#[trigger] given[k], *machine),
                wanted == (dir is Some && exists|k: int|
                    0 <= k < s && any_routes(#[trigger] given[k])),
        {
            assert(steps@[s as int] == given[s as int]);
            match steps[s].settle(s + 1, &dir, machine) {
                Err(why) => {
                    assert(self.fails_at(s as int, *machine));
                    return Err(why);
                },
                Ok(routed) => {
                    wanted = wanted || routed;
                },
            }
        }
        let stderr_dir: Option<String> = if wanted {
            dir
        } else {
            None
        };
        Ok(Pipeline { steps, stderr_dir })
    }
}

/// Steps that are ready to run.
#[derive(Debug)]
pub struct Pipeline {
    pub steps: Vec<Step>,
    pub stderr_dir: Option<String>,
}

/// The line a dry run says of a command: what it is called, the line that would
/// run it, and the cpus it would be pinned to if any.
pub open spec fn dry_text(cmd: Cmd, cpus: Seq<usize>) -> Seq<char> {
    cmd.label_text() + " "@ + cmd.line_text() + if cpus.len() == 0 {
        Seq::empty()
    } else {
        // the pinning is not part of the command, so it gets said beside it
        // rather than shown in it
        " [cpu "@ + cpu::list_text(cpus) + "]"@
    }
}

/// What a dry run says of a step: a heading, and then each of its commands in
/// order. A closure has no line to paste, so its name is all there is to show.
pub open spec fn dry_step(step: Step, pins: Seq<Vec<usize>>) -> Seq<Seq<char>> {
    seq!["# "@ + step.label_text()] + Seq::new(
        step.all_cmds().len(),
        |c: int| dry_text(step.all_cmds()[c], pins[c]@),
    ) + Seq::new(step.all_closures().len(), |c: int| step.all_closures()[c].name@)
}

/// What a dry run says of these steps.
pub open spec fn dry_steps(steps: Seq<Step>, pins: Seq<Vec<Vec<usize>>>) -> Seq<Seq<char>>
    decreases steps.len(),
{
    if steps.len() == 0 {
        Seq::empty()
    } else {
        dry_steps(steps.drop_last(), pins) + dry_step(steps.last(), pins[steps.len() - 1]@)
    }
}

impl Pipeline {
    /// Whether there are cpus, or the lack of any, for every command.
    pub open spec fn has_pins(self, pins: Seq<Vec<Vec<usize>>>) -> bool {
        &&& pins.len() == self.steps@.len()
        &&& forall|s: int|
            0 <= s < pins.len() ==> (#[trigger] pins[s])@.len() == self.steps@[s].all_cmds().len()
    }

    /// What a dry run says, line by line. `pins` holds, for every command of
    /// every step, the cpus it would be pinned to, if any.
    pub fn dry_run(&self, pins: &Vec<Vec<Vec<usize>>>) -> (r: Vec<String>)
        requires
            self.has_pins(pins@),
        ensures
            text::texts(r@) == dry_steps(self.steps@, pins@),
    {
        let mut out: Vec<String> = Vec::new();
        assert(text::texts(out@) =~= Seq::<Seq<char>>::empty());
        for s in 0..self.steps.len()
            invariant
                self.has_pins(pins@),
                text::texts(out@) == dry_steps(self.steps@.take(s as int), pins@),
        {
            let mut lines = dry_lines(&self.steps[s], &pins[s]);
            let ghost before = text::texts(out@);
            let ghost more = text::texts(lines@);
            out.append(&mut lines);
            assert(text::texts(out@) =~= before + more);
            assert(self.steps@.take(s + 1).drop_last() =~= self.steps@.take(s as int));
        }
        assert(self.steps@.take(self.steps@.len() as int) =~= self.steps@);
        out
    }

    /// Whether a dry run that holds this many leases of a step has to give the
    /// oldest back before it takes another. Cores really are taken and given back
    /// in one, so the pinning shown is one a run could produce; only as many are
    /// held at once as the step could run at once.
    pub fn gives_back(&self, step: usize, held: usize) -> (r: bool)
        requires
            step < self.steps@.len(),
        ensures
            r == (held >= match self.steps@[step as int].strategy_of() {
                Some(Strategy::Batched { jobs }) => jobs,
                _ => 1,
            }),
    {
        held >= self.steps[step].width()
    }

    /// Start on the run.
    pub fn run(self) -> (r: Run)
        ensures
            r.wf(),
            r.held() == self.steps@,
            r.dir() == self.stderr_dir,
            r.why() is None,
            r@ == (Walk {
                steps: run::states(self.steps@),
                dir: self.stderr_dir is Some,
                made: false,
                phase: Phase::Starting,
                seats: Seq::empty(),
                failed: None,
                stopped: false,
                unfinished: false,
                told: Seq::empty(),
            }),
    {
        Run::new(self.steps, self.stderr_dir)
    }
}

fn dry_lines(step: &Step, pins: &Vec<Vec<usize>>) -> (r: Vec<String>)
    requires
        pins@.len() == step.all_cmds().len(),
    ensures
        text::texts(r@) == dry_step(*step, pins@),
{
    let mut out: Vec<String> = Vec::new();
    let mut heading = "# ".to_owned();
    heading.append(step.label().as_str());
    out.push(heading);
    let ghost want = dry_step(*step, pins@);
    assert(text::texts(out@) =~= want.take(1));
    let cmds = step.cmds();
    for c in 0..cmds.len()
        invariant
            cmds@ == step.all_cmds(),
            pins@.len() == cmds@.len(),
            want == dry_step(*step, pins@),
            text::texts(out@) == want.take(1 + c),
    {
        let ghost before = out@;
        let mut line = cmds[c].label();
        line.append(" ");
        line.append(cmds[c].line().as_str());
        if pins[c].len() > 0 {
            line.append(" [cpu ");
            line.append(cpu::list(pins[c].as_slice()).as_str());
            line.append("]");
        }
        assert(line@ =~= dry_text(cmds@[c as int], pins@[c as int]@));
        out.push(line);
        assert(text::texts(out@) =~= text::texts(before).push(line@));
        assert(text::texts(out@) =~= want.take(1 + c + 1));
    }
    let closures = step.closures();
    let n = cmds.len();
    for c in 0..closures.len()
        invariant
            n == step.all_cmds().len(),
            closures@ == step.all_closures(),
            want == dry_step(*step, pins@),
            text::texts(out@) == want.take(1 + n + c),
    {
        let ghost before = out@;
        // no line to paste, so its name is all there is to show
        out.push(closures[c].label().to_owned());
        assert(text::texts(out@) =~= text::texts(before).push(closures@[c as int].name@));
        assert(text::texts(out@) =~= want.take(1 + n + c + 1));
    }
    assert(text::texts(out@) =~= want);
    out
}

proof fn lemma_log_starts_with_a_digit(
    s_idx: nat,
    step: Option<Seq<char>>,
    c_idx: nat,
    cmd: Option<Seq<char>>,
)
    ensures
        label::log_text(s_idx, step, c_idx, cmd).len() > 0,
        text::is_digit(label::log_text(s_idx, step, c_idx, cmd)[0]),
{
    text::lemma_decimal_digits(s_idx);
    let number = text::decimal(s_idx);
    assert(label::filename_text(s_idx, step)[0] == number[0]);
    assert(label::log_text(s_idx, step, c_idx, cmd)[0] == number[0]);
}

/// No two commands of a pipeline share a failure log, whatever they and their
/// steps are called.
pub proof fn no_two_commands_share_a_log(
    builder: PipelineBuilder,
    stamp: Seq<char>,
    s1: int,
    c1: int,
    s2: int,
    c2: int,
)
    requires
        0 <= s1 < builder.steps@.len(),
        0 <= s2 < builder.steps@.len(),
        0 <= c1 < builder.steps@[s1].all_cmds().len(),
        0 <= c2 < builder.steps@[s2].all_cmds().len(),
        builder.log_at(stamp, s1, c1) is Some,
        builder.log_at(stamp, s1, c1) == builder.log_at(stamp, s2, c2),
    ensures
        s1 == s2,
        c1 == c2,
{
    let step1 = builder.steps@[s1];
    let step2 = builder.steps@[s2];
    let name1 = step::name_text(step1.name);
    let name2 = step::name_text(step2.name);
    let cmd1 = step::name_text(step1.all_cmds()[c1].name);
    let cmd2 = step::name_text(step2.all_cmds()[c2].name);
    let i = (s1 + 1) as nat;
    let j = (s2 + 1) as nat;
    let m = (c1 + 1) as nat;
    let n = (c2 + 1) as nat;
    let a = label::log_text(i, name1, m, cmd1);
    let b = label::log_text(j, name2, n, cmd2);
    lemma_log_starts_with_a_digit(i, name1, m, cmd1);
    lemma_log_starts_with_a_digit(j, name2, n, cmd2);
    let dir = builder.log_dir(stamp)->0;
    let front = if dir.len() == 0 || dir.last() == '/' {
        dir
    } else {
        dir.push('/')
    };
    assert(front + a == front + b);
    assert((front + a).skip(front.len() as int) =~= a);
    assert((front + b).skip(front.len() as int) =~= b);
    label::logs_are_distinct(i, name1, m, cmd1, j, name2, n, cmd2);
}

impl PipelineBuilder {
    /// The failure log of the command at `c` of the step at `s`, if it gets one.
    pub open spec fn log_at(self, stamp: Seq<char>, s: int, c: int) -> Option<Seq<char>> {
        log_of(
            self.log_dir(stamp),
            (s + 1) as nat,
            step::name_text(self.steps@[s].name),
            (c + 1) as nat,
            self.steps@[s].all_cmds()[c],
        )
    }
}

/// Building runs nothing: a pipeline of things that never ran is one whose walk
/// nobody has taken a step of, so everything a sink is promised holds of it.
pub proof fn building_runs_nothing(
    builder: PipelineBuilder,
    stamp: Seq<char>,
    pipeline: Pipeline,
    walk: Walk,
)
    requires
        forall|s: int, j: int|
            0 <= s < builder.steps@.len() && 0 <= j < builder.steps@[s].statuses().len()
                ==> #[trigger] builder.steps@[s].statuses()[j] is NotRun,
        pipeline.steps@.len() == builder.steps@.len(),
        forall|s: int|
            0 <= s < builder.steps@.len() ==> step_settled(
                #[trigger] pipeline.steps@[s],
                builder.steps@[s],
                (s + 1) as usize,
                builder.log_dir(stamp),
            ),
        walk == (Walk {
            steps: run::states(pipeline.steps@),
            dir: pipeline.stderr_dir is Some,
            made: false,
            phase: Phase::Starting,
            seats: Seq::empty(),
            failed: None,
            stopped: false,
            unfinished: false,
            told: Seq::empty(),
        }),
    ensures
        walk.is_fresh(),
{
    assert(pipeline.steps@.len() == pipeline.steps.len());
    assert forall|s: int| 0 <= s < walk.steps.len() implies (
    #[trigger] walk.steps[s]).statuses.len() <= usize::MAX by {
        step::lemma_count(pipeline.steps@[s]);
    }
    assert forall|s: int, j: int| #[trigger] walk.has(s, j) implies walk.steps[s].statuses[j]
        is NotRun by {
        let now = pipeline.steps@[s];
        let then = builder.steps@[s];
        assert(step_settled(now, then, (s + 1) as usize, builder.log_dir(stamp)));
        assert(then.statuses()[j] is NotRun);
        assert(now.statuses()[j] == then.statuses()[j]);
    }
}

/// Building leaves every command the cores it asked for itself, whatever its step
/// asks for; one that asked for none of its own gets what its step asks for each of
/// them.
pub proof fn a_command_keeps_the_cores_it_asked_for(
    before: Step,
    after: Step,
    index: usize,
    dir: Option<Seq<char>>,
    c: int,
)
    requires
        step_settled(after, before, index, dir),
        before.items is Cmds,
        0 <= c < before.items->cmds@.len(),
    ensures
        after.items is Cmds,
        after.items->cmds@.len() == before.items->cmds@.len(),
        before.items->cmds@[c].cores is Some ==> after.items->cmds@[c].cores
            == before.items->cmds@[c].cores,
        before.items->cmds@[c].cores is None ==> after.items->cmds@[c].cores
            == before.items->cores,
{
    let now = after.items->cmds@[c];
    assert(now.cores == cores_of(before.items->cmds@[c], before.items->cores));
}

/// Building changes nothing else of a command but where its stderr goes, and that
/// only if it went nowhere and there is a directory for logs: then it goes to a file
/// of its own in there, to be kept only if the command fails.
pub proof fn building_settles_nothing_else(
    before: Step,
    after: Step,
    index: usize,
    dir: Option<Seq<char>>,
    c: int,
)
    requires
        step_settled(after, before, index, dir),
        before.items is Cmds,
        0 <= c < before.items->cmds@.len(),
    ensures
        after.index == Some(index),
        after.name == before.name && after.on_error == before.on_error && after.elapsed_s
            == before.elapsed_s,
        after.items->strategy == before.items->strategy,
        ({
            let now = after.items->cmds@[c];
            let then = before.items->cmds@[c];
            &&& now.name == then.name && now.program == then.program && now.sub == then.sub
            &&& now.opts == then.opts && now.positionals == then.positionals && now.env == then.env
            &&& now.dir == then.dir && now.timeout == then.timeout && now.stdout == then.stdout
            &&& now.fields == then.fields && now.tags == then.tags && now.status == then.status
            &&& now.cpus == then.cpus
            &&& !(dir is Some && then.stderr is Null) ==> now.stderr == then.stderr
            &&& dir is Some && then.stderr is Null ==> {
                &&& now.stderr is OnFailure
                &&& now.stderr->OnFailure_0@ == path::joined_path(
                    dir->0,
                    label::log_text(
                        index as nat,
                        match before.name {
                            Some(name) => Some(name@),
                            None => None,
                        },
                        (c + 1) as nat,
                        match then.name {
                            Some(name) => Some(name@),
                            None => None,
                        },
                    ),
                )
            }
        }),
{
    let now = after.items->cmds@[c];
    let then = before.items->cmds@[c];
    assert(cmd_settled(
        now,
        then,
        before.items->cores,
        log_of(dir, index as nat, step::name_text(before.name), (c + 1) as nat, then),
    ));
}

/// A closure comes out of a build as it went in.
pub proof fn a_closure_is_built_as_it_is(
    before: Step,
    after: Step,
    index: usize,
    dir: Option<Seq<char>>,
)
    requires
        step_settled(after, before, index, dir),
        before.items is Closures,
    ensures
        after.items == before.items,
        after.index == Some(index),
        after.name == before.name && after.on_error == before.on_error,
{
}

/// Whether a command of this step ends up asking for more cores than there are: more
/// of its own, or none of its own in a step that asks for more for each.
pub open spec fn asks_too_much(step: Step, c: int, cores: usize) -> bool {
    &&& step.items is Cmds
    &&& 0 <= c < step.items->cmds@.len()
    &&& match step.items->cmds@[c].cores {
        Some(own) => own > cores,
        None => step.items->cores matches Some(each) && each > cores,
    }
}

proof fn lemma_first_greedy(step: Step, c: int, machine: Machine)
    requires
        too_greedy(step, c, machine),
    ensures
        any_greedy(step, machine),
    decreases c,
{
    if forall|k: int| 0 <= k < c ==> !#[trigger] too_greedy(step, k, machine) {
        assert(first_greedy(step, c, machine));
    } else {
        let k = choose|k: int| 0 <= k < c && #[trigger] too_greedy(step, k, machine);
        lemma_first_greedy(step, k, machine);
    }
}

proof fn lemma_fails(builder: PipelineBuilder, s: int, machine: Machine)
    requires
        0 <= s < builder.steps@.len(),
        any_greedy(builder.steps@[s], machine),
    ensures
        exists|k: int| #[trigger] builder.fails_at(k, machine),
    decreases s,
{
    if forall|k: int| 0 <= k < s ==> !any_greedy(#[trigger] builder.steps@[k], machine) {
        assert(builder.fails_at(s, machine));
    } else {
        let k = choose|k: int| 0 <= k < s && any_greedy(#[trigger] builder.steps@[k], machine);
        lemma_fails(builder, k, machine);
    }
}

/// A pipeline fails to build exactly when one of its commands asks for more cores
/// than the machine has, and the one it is put down to is the first that does.
pub proof fn a_build_fails_only_for_want_of_cores(builder: PipelineBuilder, machine: Machine)
    ensures
        (exists|s: int| #[trigger] builder.fails_at(s, machine)) <==> exists|s: int, c: int|
            0 <= s < builder.steps@.len() && #[trigger] asks_too_much(
                builder.steps@[s],
                c,
                machine.cores,
            ),
        forall|s: int, c: int, t: int, d: int|
            #![trigger builder.fails_at(s, machine), first_greedy(builder.steps@[s], c, machine),
                asks_too_much(builder.steps@[t], d, machine.cores)]
            builder.fails_at(s, machine) && first_greedy(builder.steps@[s], c, machine) && 0 <= t
                < builder.steps@.len() && asks_too_much(builder.steps@[t], d, machine.cores)
                ==> asks_too_much(builder.steps@[s], c, machine.cores) && (s < t || s == t && c
                <= d),
{
    assert forall|t: int, d: int|
        0 <= t < builder.steps@.len() && #[trigger] asks_too_much(
            builder.steps@[t],
            d,
            machine.cores,
        ) implies any_greedy(builder.steps@[t], machine) && too_greedy(
        builder.steps@[t],
        d,
        machine,
    ) by {
        assert(too_greedy(builder.steps@[t], d, machine));
        lemma_first_greedy(builder.steps@[t], d, machine);
    }
    if exists|s: int| #[trigger] builder.fails_at(s, machine) {
        let s = choose|s: int| #[trigger] builder.fails_at(s, machine);
        let c = choose|c: int| #[trigger] first_greedy(builder.steps@[s], c, machine);
        assert(first_greedy(builder.steps@[s], c, machine));
        assert(asks_too_much(builder.steps@[s], c, machine.cores));
    }
    if exists|s: int, c: int|
        0 <= s < builder.steps@.len() && #[trigger] asks_too_much(
            builder.steps@[s],
            c,
            machine.cores,
        ) {
        let (s, c) = choose|s: int, c: int|
            0 <= s < builder.steps@.len() && #[trigger] asks_too_much(
                builder.steps@[s],
                c,
                machine.cores,
            );
        lemma_fails(builder, s, machine);
    }
}

/// What is said of a command that asks for too much is which it is, how many cores it
/// ends up asking for and how many there are.
pub proof fn a_complaint_names_the_command_and_the_numbers(
    step: Step,
    index: nat,
    c: int,
    machine: Machine,
)
    requires
        asks_too_much(step, c, machine.cores),
    ensures
        ({
            let cmd = step.items->cmds@[c];
            let asked = match cmd.cores {
                Some(own) => own,
                None => step.items->cores->0,
            };
            let name = match step.name {
                Some(name) => Some(name@),
                None => None,
            };
            &&& greed_text(step, index, c, machine) == label::label_text(index, name) + "."@
                + cmd.label_text() + " wants "@ + text::decimal(asked as nat)
                + " cores, and the machine has "@ + text::decimal(machine.cores as nat)
            &&& text::spells(text::decimal(asked as nat), asked as int)
            &&& text::spells(text::decimal(machine.cores as nat), machine.cores as int)
        }),
{
    let cmd = step.items->cmds@[c];
    let asked = wanted(cmd, inherited_by(step));
    text::a_number_reads_back(asked as nat);
    text::a_number_reads_back(machine.cores as nat);
}

/// A directory for logs is one of its own inside the one that was asked for, and a
/// step has use for it exactly when one of its commands sends its stderr nowhere.
pub proof fn logs_go_inside_the_directory_asked_for(
    builder: PipelineBuilder,
    stamp: Seq<char>,
    step: Step,
)
    ensures
        builder.stderr_dir is None ==> builder.log_dir(stamp) is None,
        builder.stderr_dir matches Some(dir) ==> builder.log_dir(stamp) == Some(
            path::joined_path(dir@, stamp),
        ),
        any_routes(step) <==> step.items is Cmds && exists|c: int|
            0 <= c < step.items->cmds@.len() && (#[trigger] step.items->cmds@[c]).stderr is Null,
{
    if any_routes(step) {
        let c = choose|c: int| #[trigger] routes(step, c);
        assert(step.items->cmds@[c].stderr is Null);
    }
    if step.items is Cmds && exists|c: int|
        0 <= c < step.items->cmds@.len() && (#[trigger] step.items->cmds@[c]).stderr is Null {
        let c = choose|c: int|
            0 <= c < step.items->cmds@.len() && (#[trigger] step.items->cmds@[c]).stderr is Null;
        assert(routes(step, c));
    }
}

/// A dry run says of a command what it is called and the line to run it, and the cpus
/// it would be pinned to exactly when there are any.
pub proof fn a_dry_run_shows_the_line_and_the_cpus(cmd: Cmd, cpus: Seq<usize>)
    ensures
        dry_text(cmd, Seq::empty()) == cmd.label_text() + seq![' '] + cmd.line_text(),
        cpus.len() > 0 ==> dry_text(cmd, cpus) == dry_text(cmd, Seq::empty()) + " [cpu "@
            + cpu::list_text(cpus) + "]"@,
{
    reveal_strlit(" ");
    assert(" "@ =~= seq![' ']);
    assert(dry_text(cmd, Seq::empty()) =~= cmd.label_text() + seq![' '] + cmd.line_text());
    if cpus.len() > 0 {
        assert(dry_text(cmd, cpus) =~= dry_text(cmd, Seq::empty()) + " [cpu "@ + cpu::list_text(
            cpus,
        ) + "]"@);
    }
}

/// A dry run goes through a step's commands in order under a heading, then through
/// its closures by name, and through the steps one after another.
pub proof fn a_dry_run_goes_through_everything_in_order(
    steps: Seq<Step>,
    step: Step,
    pins: Seq<Vec<Vec<usize>>>,
    own: Seq<Vec<usize>>,
    i: int,
)
    ensures
        dry_steps(Seq::empty(), pins) == Seq::<Seq<char>>::empty(),
        dry_steps(steps.push(step), pins) == dry_steps(steps, pins) + dry_step(
            step,
            pins[steps.len() as int]@,
        ),
        dry_step(step, own).len() == 1 + step.count(),
        dry_step(step, own)[0] == "# "@ + step.label_text(),
        step.items matches Items::Cmds { cmds, .. } ==> 0 <= i < cmds@.len() ==> dry_step(
            step,
            own,
        )[1 + i] == dry_text(cmds@[i], own[i]@),
        step.items matches Items::Closures(closures) ==> 0 <= i < closures@.len() ==> dry_step(
            step,
            own,
        )[1 + i] == closures@[i].name@,
{
    assert(steps.push(step).drop_last() =~= steps);
}

} // verus!
