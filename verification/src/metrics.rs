//! What a row of the table has to say about what something cost and how it went.

use vstd::prelude::*;

use crate::execute;
use crate::execute::{Secs, Status, Timing};
use crate::fmt;
use crate::item::Item;
use crate::layout;
use crate::layout::{Cell, Square};
use crate::step::Step;
use crate::text;

verus! {

/// The columns every row ends with, after whatever fields and tags the run
/// carries.
pub const METRICS: [&'static str; 8] = [
    "wall(s)",
    "user(s)",
    "sys(s)",
    "cpu(%)",
    "max_rss",
    "exit",
    "status",
    "argv",
];

/// The columns every row ends with.
pub open spec fn metric_labels() -> Seq<Seq<char>> {
    seq![
        "wall(s)"@,
        "user(s)"@,
        "sys(s)"@,
        "cpu(%)"@,
        "max_rss"@,
        "exit"@,
        "status"@,
        "argv"@,
    ]
}

pub fn metric_names() -> (r: Vec<String>)
    ensures
        text::texts(r@) == metric_labels(),
{
    let mut out: Vec<String> = Vec::new();
    for i in 0..8usize
        invariant
            text::texts(out@) == metric_labels().take(i as int),
    {
        let ghost before = out@;
        out.push(METRICS[i].to_owned());
        assert(text::texts(out@) =~= text::texts(before).push(METRICS[i as int]@));
        assert(text::texts(out@) =~= metric_labels().take(i + 1));
    }
    assert(metric_labels().take(8) =~= metric_labels());
    out
}

/// The two added up, or as far as a number of nanoseconds goes.
pub open spec fn added(a: int, b: int) -> int {
    if a + b > i128::MAX {
        i128::MAX as int
    } else if a + b < i128::MIN {
        i128::MIN as int
    } else {
        a + b
    }
}

/// The two added up, or as far as a number of nanoseconds goes.
fn plus(a: Secs, b: Secs) -> (r: Secs)
    ensures
        r.nanos == added(a.nanos as int, b.nanos as int),
{
    let nanos: i128 = if b.nanos > 0 && a.nanos > i128::MAX - b.nanos {
        i128::MAX
    } else if b.nanos < 0 && a.nanos < i128::MIN - b.nanos {
        i128::MIN
    } else {
        a.nanos + b.nanos
    };
    Secs { nanos }
}

/// What one row has to say about what something cost and how it went, in
/// nanoseconds and kilobytes.
pub struct Figures {
    pub wall: Option<int>,
    pub user: Option<int>,
    pub sys: Option<int>,
    pub max_rss_kb: Option<int>,
    pub exit: Option<int>,
    pub status: Option<Seq<char>>,
    pub argv: Option<Seq<char>>,
}

/// A dash where there is nothing to say.
pub open spec fn or_dash(text: Option<Seq<char>>) -> Seq<char> {
    match text {
        Some(text) => text,
        None => "-"@,
    }
}

impl Figures {
    /// The cells, in the order [`METRICS`] names them.
    pub open spec fn squares(self) -> Seq<Square> {
        seq![
            layout::left(fmt::secs_text(self.wall)),
            layout::left(fmt::secs_text(self.user)),
            layout::left(fmt::secs_text(self.sys)),
            layout::left(
                match (self.user, self.sys) {
                    (Some(user), Some(sys)) => fmt::cpu_pct_text(added(user, sys), self.wall),
                    _ => "-"@,
                },
            ),
            layout::left(
                match self.max_rss_kb {
                    Some(kb) => fmt::bytes_text(kb),
                    None => "-"@,
                },
            ),
            layout::left(
                match self.exit {
                    Some(exit) => text::signed(exit),
                    None => "-"@,
                },
            ),
            layout::left(or_dash(self.status)),
            layout::left(or_dash(self.argv)),
        ]
    }
}

/// What one row has to say about what something cost and how it went. Anything
/// left out prints as `-`, which is how a command that never started says it has
/// no numbers.
pub struct Metrics {
    pub wall_s: Option<Secs>,
    pub user_s: Option<Secs>,
    pub sys_s: Option<Secs>,
    pub max_rss_kb: Option<i64>,
    pub exit: Option<i32>,
    pub status: Option<&'static str>,
    pub argv: Option<String>,
}

impl View for Metrics {
    type V = Figures;

    open spec fn view(&self) -> Figures {
        Figures {
            wall: execute::nanos_of(self.wall_s),
            user: execute::nanos_of(self.user_s),
            sys: execute::nanos_of(self.sys_s),
            max_rss_kb: match self.max_rss_kb {
                Some(kb) => Some(kb as int),
                None => None,
            },
            exit: match self.exit {
                Some(exit) => Some(exit as int),
                None => None,
            },
            status: match self.status {
                Some(status) => Some(status@),
                None => None,
            },
            argv: match self.argv {
                Some(argv) => Some(argv@),
                None => None,
            },
        }
    }
}

impl Default for Metrics {
    /// Nothing measured and nothing to say.
    fn default() -> (r: Metrics)
        ensures
            r@ == (Figures {
                wall: None,
                user: None,
                sys: None,
                max_rss_kb: None,
                exit: None,
                status: None,
                argv: None,
            }),
    {
        Metrics {
            wall_s: None,
            user_s: None,
            sys_s: None,
            max_rss_kb: None,
            exit: None,
            status: None,
            argv: None,
        }
    }
}

impl Metrics {
    /// The cells, in the order [`METRICS`] names them.
    pub fn cells(self) -> (r: Vec<Cell>)
        ensures
            layout::squares(r@) == self@.squares(),
            r@.len() == METRICS@.len(),
    {
        let cpu = match (self.user_s, self.sys_s) {
            (Some(user), Some(sys)) => fmt::cpu_pct(plus(user, sys), self.wall_s),
            _ => fmt::dash(),
        };
        let rss = match self.max_rss_kb {
            Some(kb) => fmt::bytes(kb),
            None => fmt::dash(),
        };
        let exit = match self.exit {
            Some(exit) => text::write_signed(exit as i128),
            None => fmt::dash(),
        };
        let status = match self.status {
            Some(status) => status.to_owned(),
            None => fmt::dash(),
        };
        let argv = match &self.argv {
            Some(argv) => argv.clone(),
            None => fmt::dash(),
        };
        let mut out: Vec<Cell> = Vec::new();
        out.push(Cell { text: fmt::secs(self.wall_s), right: false });
        out.push(Cell { text: fmt::secs(self.user_s), right: false });
        out.push(Cell { text: fmt::secs(self.sys_s), right: false });
        out.push(Cell { text: cpu, right: false });
        out.push(Cell { text: rss, right: false });
        out.push(Cell { text: exit, right: false });
        out.push(Cell { text: status, right: false });
        out.push(Cell { text: argv, right: false });
        assert(layout::squares(out@) =~= self@.squares());
        out
    }
}

/// What the status column says.
pub open spec fn status_text(status: Status) -> Seq<char> {
    match status {
        Status::NotRun => "-"@,
        Status::Skipped => "skip"@,
        Status::TimedOut(_) => "time"@,
        Status::Finished(t) => if t.is_ok() {
            "ok"@
        } else {
            "fail"@
        },
        Status::Failed(_) => "fail"@,
    }
}

/// The status column. It answers one question — did this work — and leaves the
/// exit column to say what the command actually reported, which is also how
/// "never started" tells itself apart from "started and failed" without a word
/// of its own: there is no exit code beside it.
pub fn status_word(status: &Status) -> (r: &'static str)
    ensures
        r@ == status_text(*status),
{
    match status {
        Status::NotRun => "-",
        Status::Skipped => "skip",
        Status::TimedOut(_) => "time",
        Status::Finished(t) if t.ok() => "ok",
        _ => "fail",
    }
}

/// What the timings of the first `n` things a step holds are, for the ones that
/// have any.
pub open spec fn timings(step: Step, n: int) -> Seq<Timing>
    decreases n,
{
    if n <= 0 {
        Seq::empty()
    } else {
        match step.at(n - 1).status_of().timing_of() {
            Some(t) => timings(step, n - 1).push(t),
            None => timings(step, n - 1),
        }
    }
}

/// The user time of all of these added up, unless one has none.
pub open spec fn user_sum(timings: Seq<Timing>) -> Option<int>
    decreases timings.len(),
{
    if timings.len() == 0 {
        Some(0)
    } else {
        match (user_sum(timings.drop_last()), timings.last().user_s) {
            (Some(sum), Some(more)) => Some(added(sum, more.nanos as int)),
            _ => None,
        }
    }
}

/// The system time of all of these added up, unless one has none.
pub open spec fn sys_sum(timings: Seq<Timing>) -> Option<int>
    decreases timings.len(),
{
    if timings.len() == 0 {
        Some(0)
    } else {
        match (sys_sum(timings.drop_last()), timings.last().sys_s) {
            (Some(sum), Some(more)) => Some(added(sum, more.nanos as int)),
            _ => None,
        }
    }
}

/// The largest peak memory among these, of the ones that have one.
pub open spec fn rss_max(timings: Seq<Timing>) -> Option<int>
    decreases timings.len(),
{
    if timings.len() == 0 {
        None
    } else {
        match (rss_max(timings.drop_last()), timings.last().max_rss_kb) {
            (Some(most), Some(kb)) => Some(
                if kb > most {
                    kb as int
                } else {
                    most
                },
            ),
            (None, Some(kb)) => Some(kb as int),
            (most, None) => most,
        }
    }
}

/// The figures on a step's own line: measured wall clock, and its commands' CPU
/// added up. A step with nothing timed has no CPU to add up.
pub open spec fn step_figures(step: Step) -> Figures {
    let timed = timings(step, step.count() as int);
    Figures {
        wall: execute::nanos_of(step.elapsed_s),
        user: if timed.len() == 0 {
            None
        } else {
            user_sum(timed)
        },
        sys: if timed.len() == 0 {
            None
        } else {
            sys_sum(timed)
        },
        max_rss_kb: rss_max(timed),
        exit: None,
        status: None,
        argv: None,
    }
}

/// The figures on the line of one item.
pub open spec fn item_figures(item: Item<'_>) -> Figures {
    let timing = item.status_of().timing_of();
    Figures {
        wall: match timing {
            Some(t) => Some(t.wall_s.nanos as int),
            None => None,
        },
        user: match timing {
            Some(t) => execute::nanos_of(t.user_s),
            None => None,
        },
        sys: match timing {
            Some(t) => execute::nanos_of(t.sys_s),
            None => None,
        },
        max_rss_kb: match timing {
            Some(t) => match t.max_rss_kb {
                Some(kb) => Some(kb as int),
                None => None,
            },
            None => None,
        },
        exit: match item.exit_of() {
            Some(exit) => Some(exit as int),
            None => None,
        },
        status: Some(status_text(item.status_of())),
        argv: item.line_text(),
    }
}

/// One more of them, if that is a number either has.
fn add_up(sum: Option<Secs>, more: Option<Secs>) -> (r: Option<Secs>)
    ensures
        execute::nanos_of(r) == match (sum, more) {
            (Some(sum), Some(more)) => Some(added(sum.nanos as int, more.nanos as int)),
            _ => None,
        },
{
    match (sum, more) {
        (Some(sum), Some(more)) => Some(plus(sum, more)),
        _ => None,
    }
}

/// The figures on a step's own line.
pub fn step_metrics(step: &Step) -> (r: Metrics)
    ensures
        r@ == step_figures(*step),
{
    // summed CPU against measured wall is what shows whether a batch actually
    // bought anything: a step that ran four at once reads about four times what
    // any one of them did
    //
    // a closure has no cpu figure, and a sum over only what was measured would
    // read as the step's whole cost. giving up on the total is the honest answer
    let mut any = false;
    let mut user: Option<Secs> = Some(Secs { nanos: 0 });
    let mut sys: Option<Secs> = Some(Secs { nanos: 0 });
    // the largest any one process got, which is not the same as the most the
    // step held at once — wait4 cannot tell that. a max, unlike a sum, is not
    // spoiled by one with no number at all
    let mut rss: Option<i64> = None;
    let n = step.len();
    for j in 0..n
        invariant
            n == step.count(),
            any == (timings(*step, j as int).len() > 0),
            execute::nanos_of(user) == user_sum(timings(*step, j as int)),
            execute::nanos_of(sys) == sys_sum(timings(*step, j as int)),
            (match rss {
                Some(rss) => Some(rss as int),
                None => None,
            }) == rss_max(timings(*step, j as int)),
    {
        let ghost timed = timings(*step, j as int);
        if let Some(t) = step.item(j).status().timing() {
            assert(timed.push(*t).drop_last() =~= timed);
            any = true;
            user = add_up(user, t.user_s);
            sys = add_up(sys, t.sys_s);
            rss =
            match (rss, t.max_rss_kb) {
                (Some(most), Some(kb)) => Some(
                    if kb > most {
                        kb
                    } else {
                        most
                    },
                ),
                (None, Some(kb)) => Some(kb),
                (most, None) => most,
            };
        }
    }
    // exit, status and argv belong to commands; a count or a rollup here would be
    // a different quantity sharing a column
    Metrics {
        wall_s: step.wall_s(),
        user_s: if any {
            user
        } else {
            None
        },
        sys_s: if any {
            sys
        } else {
            None
        },
        max_rss_kb: rss,
        exit: None,
        status: None,
        argv: None,
    }
}

/// The figures on the line of one item.
pub fn item_metrics(item: &Item<'_>) -> (r: Metrics)
    ensures
        r@ == item_figures(*item),
{
    // two separate questions: what it cost, and how it went. one that could not
    // start has nothing to say about the first
    let timing = item.status().timing();
    Metrics {
        wall_s: match timing {
            Some(t) => Some(t.wall_s),
            None => None,
        },
        user_s: match timing {
            Some(t) => t.user_s,
            None => None,
        },
        sys_s: match timing {
            Some(t) => t.sys_s,
            None => None,
        },
        max_rss_kb: match timing {
            Some(t) => t.max_rss_kb,
            None => None,
        },
        exit: item.exit(),
        status: Some(status_word(item.status())),
        argv: item.line(),
    }
}

/// What the status column says is how the item went: that it is fine exactly when it
/// exited with nought, that it timed out exactly when it did, that it was skipped
/// exactly when it was, nothing when it never ran, and that it failed otherwise. So
/// nothing that failed ever reads as fine.
pub proof fn a_status_reads_as_it_went(item: Item<'_>)
    ensures
        item_figures(item).status is Some,
        ({
            let said = item_figures(item).status->0;
            let status = item.status_of();
            &&& said == "ok"@ <==> (status matches Status::Finished(t) && t.exit == 0)
            &&& said == "time"@ <==> status is TimedOut
            &&& said == "skip"@ <==> status is Skipped
            &&& said == "-"@ <==> status is NotRun
            &&& said == "fail"@ <==> status is Failed || (status matches Status::Finished(t)
                && t.exit != 0)
            &&& status.has_failed() <==> said == "fail"@ || said == "time"@
        }),
{
    reveal_strlit("ok");
    reveal_strlit("time");
    reveal_strlit("skip");
    reveal_strlit("-");
    reveal_strlit("fail");
    assert("ok"@.len() == 2 && "-"@.len() == 1);
    assert("time"@[0] == 't' && "skip"@[0] == 's' && "fail"@[0] == 'f');
}

/// An item's line says what it cost and how it exited as they were measured, and the
/// line to run it again if it has one.
pub proof fn an_item_s_line_says_what_was_measured(item: Item<'_>)
    ensures
        ({
            let f = item_figures(item);
            let status = item.status_of();
            &&& status matches Status::Finished(t) ==> costs(f, t)
            &&& status matches Status::TimedOut(t) ==> costs(f, t)
            &&& !(status is Finished || status is TimedOut) ==> {
                &&& f.wall is None && f.user is None && f.sys is None
                &&& f.max_rss_kb is None && f.exit is None
            }
            &&& item matches Item::Cmd(cmd) ==> {
                &&& f.argv == Some(cmd.line_text())
                &&& cmd.status matches Status::Finished(t) ==> f.exit == Some(t.exit as int)
                &&& cmd.status matches Status::TimedOut(t) ==> f.exit == Some(t.exit as int)
            }
            &&& item is Closure ==> f.argv is None && f.exit is None
        }),
{
}

/// Whether these are the costs in that timing, each in its place.
pub open spec fn costs(f: Figures, t: Timing) -> bool {
    &&& f.wall == Some(t.wall_s.nanos as int)
    &&& match t.user_s {
        Some(user) => f.user == Some(user.nanos as int),
        None => f.user is None,
    }
    &&& match t.sys_s {
        Some(sys) => f.sys == Some(sys.nanos as int),
        None => f.sys is None,
    }
    &&& match t.max_rss_kb {
        Some(kb) => f.max_rss_kb == Some(kb as int),
        None => f.max_rss_kb is None,
    }
}

/// Every figure stands under its label, in the words for it, and a dash where there
/// is none.
pub proof fn every_figure_stands_under_its_label(f: Figures)
    ensures
        ({
            let cells = f.squares();
            let labels = metric_labels();
            &&& cells.len() == 8 && labels.len() == 8
            &&& labels[0] == "wall(s)"@ && cells[0].text == fmt::secs_text(f.wall)
            &&& labels[1] == "user(s)"@ && cells[1].text == fmt::secs_text(f.user)
            &&& labels[2] == "sys(s)"@ && cells[2].text == fmt::secs_text(f.sys)
            &&& labels[3] == "cpu(%)"@
            &&& f.user is Some && f.sys is Some && i128::MIN <= f.user->0 + f.sys->0
                <= i128::MAX ==> cells[3].text == fmt::cpu_pct_text(
                f.user->0 + f.sys->0,
                f.wall,
            )
            &&& f.user is None || f.sys is None ==> cells[3].text == "-"@
            &&& labels[4] == "max_rss"@
            &&& f.max_rss_kb matches Some(kb) ==> cells[4].text == fmt::bytes_text(kb)
            &&& f.max_rss_kb is None ==> cells[4].text == "-"@
            &&& labels[5] == "exit"@
            &&& f.exit matches Some(exit) ==> cells[5].text == text::signed(exit)
            &&& f.exit is None ==> cells[5].text == "-"@
            &&& labels[6] == "status"@
            &&& f.status matches Some(status) ==> cells[6].text == status
            &&& f.status is None ==> cells[6].text == "-"@
            &&& labels[7] == "argv"@
            &&& f.argv matches Some(argv) ==> cells[7].text == argv
            &&& f.argv is None ==> cells[7].text == "-"@
            &&& forall|i: int| 0 <= i < 8 ==> !(#[trigger] cells[i]).right
        }),
{
}

/// The timings of a step are those of the things in it that have one, all of them and
/// no others.
pub proof fn every_timing_counts(step: Step, n: int)
    requires
        0 <= n,
    ensures
        forall|j: int|
            0 <= j < n && (#[trigger] step.at(j)).status_of().timing_of() is Some ==> timings(
                step,
                n,
            ).contains(step.at(j).status_of().timing_of()->0),
        forall|i: int|
            0 <= i < timings(step, n).len() ==> exists|j: int|
                0 <= j < n && (#[trigger] step.at(j)).status_of().timing_of() == Some(
                    #[trigger] timings(step, n)[i],
                ),
    decreases n,
{
    if n > 0 {
        let most = timings(step, n - 1);
        let all = timings(step, n);
        every_timing_counts(step, n - 1);
        assert forall|j: int|
            0 <= j < n && (#[trigger] step.at(j)).status_of().timing_of()
                is Some implies all.contains(step.at(j).status_of().timing_of()->0) by {
            let t = step.at(j).status_of().timing_of()->0;
            if j < n - 1 {
                assert(most.contains(t));
                let i = choose|i: int| 0 <= i < most.len() && most[i] == t;
                assert(all[i] == t);
            } else {
                assert(all[most.len() as int] == t);
            }
        }
        assert forall|i: int| 0 <= i < all.len() implies exists|j: int|
            0 <= j < n && (#[trigger] step.at(j)).status_of().timing_of() == Some(
                #[trigger] all[i],
            ) by {
            if i < most.len() {
                assert(all[i] == most[i]);
                let j = choose|j: int|
                    0 <= j < n - 1 && (#[trigger] step.at(j)).status_of().timing_of() == Some(
                        most[i],
                    );
                assert(step.at(j).status_of().timing_of() == Some(all[i]));
            } else {
                assert(step.at(n - 1).status_of().timing_of() == Some(all[i]));
            }
        }
    }
}

proof fn lemma_peak(timed: Seq<Timing>)
    ensures
        rss_max(timed) is None <==> forall|i: int|
            0 <= i < timed.len() ==> (#[trigger] timed[i]).max_rss_kb is None,
        forall|i: int|
            0 <= i < timed.len() && (#[trigger] timed[i]).max_rss_kb is Some ==> rss_max(timed)
                is Some && rss_max(timed)->0 >= timed[i].max_rss_kb->0,
        rss_max(timed) is Some ==> exists|i: int|
            0 <= i < timed.len() && (#[trigger] timed[i]).max_rss_kb is Some
                && timed[i].max_rss_kb->0 == rss_max(timed)->0,
    decreases timed.len(),
{
    if timed.len() > 0 {
        let most = timed.drop_last();
        let at = timed.len() - 1;
        lemma_peak(most);
        assert forall|i: int|
            0 <= i < timed.len() && (#[trigger] timed[i]).max_rss_kb is Some implies rss_max(timed)
            is Some && rss_max(timed)->0 >= timed[i].max_rss_kb->0 by {
            if i < at {
                assert(most[i] == timed[i]);
            }
        }
        if rss_max(timed) is Some {
            if rss_max(timed) == rss_max(most) {
                let i = choose|i: int|
                    0 <= i < most.len() && (#[trigger] most[i]).max_rss_kb is Some
                        && most[i].max_rss_kb->0 == rss_max(most)->0;
                assert(timed[i].max_rss_kb->0 == rss_max(timed)->0);
            } else {
                assert(timed[at].max_rss_kb->0 == rss_max(timed)->0);
            }
        }
        if forall|i: int| 0 <= i < timed.len() ==> (#[trigger] timed[i]).max_rss_kb is None {
            assert forall|i: int| 0 <= i < most.len() implies (
            #[trigger] most[i]).max_rss_kb is None by {
                assert(timed[i].max_rss_kb is None);
            }
            assert(timed[at].max_rss_kb is None);
        }
    }
}

/// A step's peak memory is the largest any one thing in it got: no less than any of
/// them, as much as one of them, and absent exactly when none has one.
pub proof fn a_step_s_peak_is_the_largest_of_all(step: Step)
    ensures
        forall|j: int|
            #![trigger step.at(j)]
            0 <= j < step.count() ==> (peak_of(step, j) matches Some(kb)
                ==> step_figures(step).max_rss_kb is Some && step_figures(step).max_rss_kb->0
                >= kb),
        step_figures(step).max_rss_kb matches Some(most) ==> exists|j: int|
            #![trigger step.at(j)]
            0 <= j < step.count() && (peak_of(step, j) matches Some(kb) && kb == most),
{
    let n = step.count() as int;
    let timed = timings(step, n);
    every_timing_counts(step, n);
    lemma_peak(timed);
    assert forall|j: int|
        #![trigger step.at(j)]
        0 <= j < n implies (peak_of(step, j) matches Some(kb)
        ==> step_figures(step).max_rss_kb is Some && step_figures(step).max_rss_kb->0 >= kb) by {
        if peak_of(step, j) is Some {
            let t = step.at(j).status_of().timing_of()->0;
            assert(timed.contains(t));
            let i = choose|i: int| 0 <= i < timed.len() && timed[i] == t;
            assert(timed[i].max_rss_kb is Some);
        }
    }
    if rss_max(timed) is Some {
        let i = choose|i: int|
            0 <= i < timed.len() && (#[trigger] timed[i]).max_rss_kb is Some
                && timed[i].max_rss_kb->0 == rss_max(timed)->0;
        let j = choose|j: int|
            0 <= j < n && (#[trigger] step.at(j)).status_of().timing_of() == Some(timed[i]);
        assert(peak_of(step, j) matches Some(kb) && kb == rss_max(timed)->0);
    }
}

/// The peak memory of one thing in a step, if it has any.
pub open spec fn peak_of(step: Step, j: int) -> Option<i64> {
    match step.at(j).status_of() {
        Status::Finished(t) => t.max_rss_kb,
        Status::TimedOut(t) => t.max_rss_kb,
        _ => None,
    }
}

/// CPU is added up: none is nought, one more adds what it used and nothing else, and
/// one that was not measured leaves no total, whatever comes after.
pub proof fn cpu_is_added_up(timed: Seq<Timing>, t: Timing)
    ensures
        user_sum(Seq::empty()) == Some(0int),
        sys_sum(Seq::empty()) == Some(0int),
        user_sum(timed) is None || t.user_s is None <==> user_sum(timed.push(t)) is None,
        sys_sum(timed) is None || t.sys_s is None <==> sys_sum(timed.push(t)) is None,
        user_sum(timed) is Some && t.user_s is Some && i128::MIN <= user_sum(timed)->0
            + t.user_s->0.nanos <= i128::MAX ==> user_sum(timed.push(t))->0 == user_sum(timed)->0
            + t.user_s->0.nanos,
        sys_sum(timed) is Some && t.sys_s is Some && i128::MIN <= sys_sum(timed)->0
            + t.sys_s->0.nanos <= i128::MAX ==> sys_sum(timed.push(t))->0 == sys_sum(timed)->0
            + t.sys_s->0.nanos,
{
    assert(timed.push(t).drop_last() =~= timed);
}

/// A step's line has its own wall clock, and the CPU of everything timed in it if
/// anything was, all of it measured; it has no exit, status or line of its own.
pub proof fn a_step_s_line_is_the_sum_of_its_parts(step: Step)
    ensures
        ({
            let f = step_figures(step);
            let timed = timings(step, step.count() as int);
            &&& step.elapsed_s matches Some(wall) ==> f.wall == Some(wall.nanos as int)
            &&& step.elapsed_s is None ==> f.wall is None
            &&& timed.len() == 0 ==> f.user is None && f.sys is None && f.max_rss_kb is None
            &&& timed.len() > 0 ==> f.user == user_sum(timed) && f.sys == sys_sum(timed)
            &&& timed.len() == 0 <==> forall|j: int|
                0 <= j < step.count() ==> (#[trigger] step.at(j)).status_of().timing_of() is None
            &&& f.exit is None && f.status is None && f.argv is None
        }),
{
    let timed = timings(step, step.count() as int);
    every_timing_counts(step, step.count() as int);
    if timed.len() > 0 {
        let t = timed[0];
        let j = choose|j: int|
            0 <= j < step.count() && (#[trigger] step.at(j)).status_of().timing_of() == Some(t);
        assert(step.at(j).status_of().timing_of() is Some);
    } else {
        assert(rss_max(timed) is None);
    }
}

/// Each timing counts once, in the order the step holds the things it is of.
pub proof fn each_timing_counts_once(step: Step, n: int)
    requires
        0 <= n,
    ensures
        timings(step, 0).len() == 0,
        step.at(n).status_of().timing_of() is None ==> timings(step, n + 1) == timings(step, n),
        step.at(n).status_of().timing_of() matches Some(t) ==> timings(step, n + 1) == timings(
            step,
            n,
        ).push(t),
{
}

} // verus!
