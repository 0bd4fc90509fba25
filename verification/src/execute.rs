//! What running something came to, and what stopping it takes.

use vstd::prelude::*;

verus! {

/// A length of time in seconds, kept to the nanosecond.
#[derive(Clone, Copy, Debug, PartialEq, Eq)]
pub struct Secs {
    pub nanos: i128,
}

/// What something cost and how it exited.
#[derive(Clone, Copy, Debug, PartialEq, Eq)]
pub struct Timing {
    pub wall_s: Secs,
    /// Absent for a closure: a thread has no `wait4` to ask for these.
    pub user_s: Option<Secs>,
    pub sys_s: Option<Secs>,
    pub max_rss_kb: Option<i64>,
    pub exit: i32,
}

impl Timing {
    pub open spec fn is_ok(self) -> bool {
        self.exit == 0
    }

    pub fn ok(&self) -> (r: bool)
        ensures
            r == self.is_ok(),
    {
        self.exit == 0
    }
}

/// How far something got.
#[derive(Clone, Debug)]
pub enum Status {
    NotRun,
    Skipped,
    Failed(String),
    Finished(Timing),
    TimedOut(Timing),
}

impl Status {
    pub open spec fn has_failed(self) -> bool {
        match self {
            Status::NotRun | Status::Skipped => false,
            Status::Failed(_) | Status::TimedOut(_) => true,
            Status::Finished(t) => !t.is_ok(),
        }
    }

    /// Whether it ran and is over, however it went.
    pub open spec fn has_run(self) -> bool {
        !(self is NotRun) && !(self is Skipped)
    }

    pub open spec fn timing_of(self) -> Option<Timing> {
        match self {
            Status::Finished(t) => Some(t),
            Status::TimedOut(t) => Some(t),
            _ => None,
        }
    }

    pub fn failed(&self) -> (r: bool)
        ensures
            r == self.has_failed(),
    {
        match self {
            Status::NotRun | Status::Skipped => false,
            Status::Failed(_) | Status::TimedOut(_) => true,
            Status::Finished(t) => !t.ok(),
        }
    }

    /// Whether it ran and is over, however it went.
    pub fn ran(&self) -> (r: bool)
        ensures
            r == self.has_run(),
    {
        match self {
            Status::NotRun | Status::Skipped => false,
            _ => true,
        }
    }

    /// What this cost, for the two states that got far enough to have an
    /// answer. A command killed on its deadline still burned everything it says
    /// it burned, so it counts.
    pub fn timing(&self) -> (r: Option<&Timing>)
        ensures
            r is Some <==> self.timing_of() is Some,
            r matches Some(t) ==> self.timing_of() == Some(*t),
    {
        match self {
            Status::Finished(t) => Some(t),
            Status::TimedOut(t) => Some(t),
            _ => None,
        }
    }
}

/// How something that ran came out, and the cpus it was given to run on.
#[derive(Clone, Debug)]
pub struct Ran {
    pub status: Status,
    pub cpus: Vec<usize>,
}

/// The exit code of a process a wait came back with this status for: what it
/// exited with, or 128 and the signal it was killed by, or -1 if it is neither
/// over nor killed.
pub open spec fn exit_of(status: i32) -> int {
    let low = status as int % 128;
    if low == 0 {
        (status as int / 256) % 256
    } else if low < 127 {
        128 + low
    } else {
        -1
    }
}

/// `libc::WIFEXITED`: whether the low seven bits of the status are all clear.
#[verifier::external_body]
fn exited(status: i32) -> (r: bool)
    ensures
        r == (status as int % 128 == 0),
{
    libc::WIFEXITED(status)
}

/// `libc::WEXITSTATUS`: the eight bits of the status above the low eight.
#[verifier::external_body]
fn exit_status(status: i32) -> (r: i32)
    ensures
        r == (status as int / 256) % 256,
{
    libc::WEXITSTATUS(status)
}

/// `libc::WIFSIGNALED`: whether the low seven bits of the status are neither all
/// clear nor all set.
#[verifier::external_body]
fn signaled(status: i32) -> (r: bool)
    ensures
        r == (0 < status as int % 128 < 127),
{
    libc::WIFSIGNALED(status)
}

/// `libc::WTERMSIG`: the low seven bits of the status.
#[verifier::external_body]
fn term_signal(status: i32) -> (r: i32)
    ensures
        r == status as int % 128,
{
    libc::WTERMSIG(status)
}

/// The exit code of a process a wait came back with this status for.
pub fn exit_code(status: i32) -> (r: i32)
    ensures
        r == exit_of(status),
{
    if exited(status) {
        exit_status(status)
    } else if signaled(status) {
        128 + term_signal(status)
    } else {
        -1
    }
}

/// How many nanoseconds there are in this, if it is anything.
pub open spec fn nanos_of(secs: Option<Secs>) -> Option<int> {
    match secs {
        Some(secs) => Some(secs.nanos as int),
        None => None,
    }
}

/// A clock's reading in nanoseconds.
pub open spec fn clock_nanos(sec: i64, usec: i64) -> int {
    sec * 1_000_000_000 + usec * 1000
}

impl Secs {
    /// What a process clock that reads this many seconds and microseconds says.
    pub fn from_clock(sec: i64, usec: i64) -> (r: Secs)
        ensures
            r.nanos == clock_nanos(sec, usec),
    {
        Secs { nanos: sec as i128 * 1_000_000_000 + usec as i128 * 1000 }
    }
}

/// A whole number of kilobytes in this many bytes, less any part of one.
pub open spec fn whole_kb(bytes: int) -> int {
    if bytes >= 0 {
        bytes / 1024
    } else {
        -((-bytes) / 1024)
    }
}

/// Peak memory in kilobytes. The kernel hands it back in kilobytes on some
/// systems and in bytes on others, so only the others need the conversion.
pub fn max_rss_kb(max_rss: i64, in_bytes: bool) -> (r: i64)
    ensures
        r == if in_bytes {
            whole_kb(max_rss as int)
        } else {
            max_rss as int
        },
{
    if !in_bytes {
        max_rss
    } else if max_rss >= 0 {
        max_rss / 1024
    } else {
        let bytes: i128 = -(max_rss as i128);
        (-(bytes / 1024)) as i64
    }
}

/// What a process that is over used, the way the kernel counts it.
#[derive(Clone, Copy, Debug)]
pub struct Usage {
    /// User time in seconds, and the microseconds on top.
    pub user: (i64, i64),
    /// System time likewise.
    pub sys: (i64, i64),
    pub max_rss: i64,
    /// Whether that is in bytes rather than kilobytes.
    pub in_bytes: bool,
}

/// What a process cost that took this long by the clock, and that a wait came
/// back with this status and usage for.
pub open spec fn timing_of(wall_s: Secs, status: i32, usage: Usage) -> Timing {
    Timing {
        wall_s,
        user_s: Some(Secs { nanos: clock_nanos(usage.user.0, usage.user.1) as i128 }),
        sys_s: Some(Secs { nanos: clock_nanos(usage.sys.0, usage.sys.1) as i128 }),
        max_rss_kb: Some(
            if usage.in_bytes {
                whole_kb(usage.max_rss as int) as i64
            } else {
                usage.max_rss
            },
        ),
        exit: exit_of(status) as i32,
    }
}

impl Timing {
    /// What a process cost that took this long by the clock, and that a wait came
    /// back with this status and usage for.
    pub fn of(wall_s: Secs, status: i32, usage: &Usage) -> (r: Timing)
        ensures
            r == timing_of(wall_s, status, *usage),
    {
        Timing {
            wall_s,
            user_s: Some(Secs::from_clock(usage.user.0, usage.user.1)),
            sys_s: Some(Secs::from_clock(usage.sys.0, usage.sys.1)),
            max_rss_kb: Some(max_rss_kb(usage.max_rss, usage.in_bytes)),
            exit: exit_code(status),
        }
    }
}

/// How a command went that was waited for.
pub open spec fn outcome_of(waited: Result<(Timing, bool), String>) -> Status {
    match waited {
        Ok((timing, killed)) => if killed {
            Status::TimedOut(timing)
        } else {
            Status::Finished(timing)
        },
        Err(why) => Status::Failed(why),
    }
}

/// How a command went that was waited for: what it cost and whether it had to be
/// killed on its deadline, or why it could not be waited for, or started.
pub fn outcome(waited: Result<(Timing, bool), String>) -> (r: Status)
    ensures
        r == match waited {
            Ok((timing, true)) => Status::TimedOut(timing),
            Ok((timing, false)) => Status::Finished(timing),
            Err(why) => Status::Failed(why),
        },
        r == outcome_of(waited),
{
    match waited {
        Ok((timing, true)) => Status::TimedOut(timing),
        Ok((timing, false)) => Status::Finished(timing),
        Err(why) => Status::Failed(why),
    }
}

/// What counts as having failed: not starting, being killed on a deadline, and
/// exiting with anything but nought. What never ran has not failed, and what failed
/// ran.
pub proof fn what_counts_as_failing(status: Status, why: String, timing: Timing)
    ensures
        Status::Failed(why).has_failed(),
        Status::TimedOut(timing).has_failed(),
        Status::Finished(timing).has_failed() <==> timing.exit != 0,
        !Status::NotRun.has_failed() && !Status::Skipped.has_failed(),
        !Status::NotRun.has_run() && !Status::Skipped.has_run(),
        status.has_run() <==> status is Failed || status is Finished || status is TimedOut,
        status.has_failed() ==> status.has_run(),
{
}

/// Only what ran to an end or a deadline has a cost, and that is the one it came
/// back with.
pub proof fn only_what_got_far_enough_has_a_cost(status: Status, timing: Timing)
    ensures
        Status::Finished(timing).timing_of() == Some(timing),
        Status::TimedOut(timing).timing_of() == Some(timing),
        status.timing_of() is Some <==> status is Finished || status is TimedOut,
{
}

/// A process that exits with a code reports that code, and one that is killed by a
/// signal reports the signal and 128 more, whether or not it left a core behind.
pub proof fn an_exit_code_is_the_code_or_the_signal(code: i32, signal: i32)
    requires
        0 <= code <= 255,
        1 <= signal <= 126,
    ensures
        exit_of((code * 256) as i32) == code,
        exit_of(signal) == 128 + signal,
        exit_of((signal + 128) as i32) == 128 + signal,
        exit_of((code * 256 + 127) as i32) == -1,
{
    assert((code * 256) as int % 128 == 0);
    assert((code * 256 + 127) as int % 128 == 127);
}

/// Nothing reads as having worked that did not exit, and with nought.
pub proof fn only_an_exit_with_nought_is_a_success(status: i32)
    ensures
        exit_of(status) == 0 <==> status as int % 128 == 0 && (status as int / 256) % 256 == 0,
        -1 <= exit_of(status) <= 255,
{
}

/// A clock that reads nothing says nothing, and a second more is a thousand million
/// nanoseconds more, a microsecond more a thousand.
pub proof fn a_clock_counts_in_nanoseconds(sec: i64, usec: i64)
    requires
        sec < i64::MAX,
        usec < i64::MAX,
    ensures
        clock_nanos(0, 0) == 0,
        clock_nanos((sec + 1) as i64, usec) - clock_nanos(sec, usec) == 1_000_000_000,
        clock_nanos(sec, (usec + 1) as i64) - clock_nanos(sec, usec) == 1_000,
{
}

/// A number of bytes is so many whole kilobytes and less than one more, and it does
/// not matter which side of nought it is on.
pub proof fn kilobytes_are_whole(bytes: int)
    ensures
        bytes >= 0 ==> whole_kb(bytes) * 1024 <= bytes < (whole_kb(bytes) + 1) * 1024,
        whole_kb(-bytes) == -whole_kb(bytes),
{
}

/// What a process cost is what the clock and the kernel said, each in its place:
/// the wall clock as it was read, user time from the user clock and system time
/// from the system clock, peak memory in kilobytes whichever way it was counted,
/// and the exit code.
pub proof fn a_cost_is_what_was_measured(wall_s: Secs, status: i32, usage: Usage)
    ensures
        ({
            let t = timing_of(wall_s, status, usage);
            &&& t.wall_s == wall_s
            &&& t.user_s matches Some(user) && user.nanos == usage.user.0 * 1_000_000_000
                + usage.user.1 * 1_000
            &&& t.sys_s matches Some(sys) && sys.nanos == usage.sys.0 * 1_000_000_000
                + usage.sys.1 * 1_000
            &&& t.max_rss_kb is Some
            &&& !usage.in_bytes ==> t.max_rss_kb == Some(usage.max_rss)
            &&& usage.in_bytes && usage.max_rss >= 0 ==> t.max_rss_kb->0 * 1024 <= usage.max_rss < (
            t.max_rss_kb->0 + 1) * 1024
            &&& t.exit == exit_of(status)
            &&& t.is_ok() <==> exit_of(status) == 0
        }),
{
}

/// A command that was waited for keeps what it cost, and counts as timed out exactly when
/// it had to be killed; one that could not be says why and has no cost.
pub proof fn what_was_waited_for_is_reported(timing: Timing, killed: bool, why: String)
    ensures
        ({
            let ran = outcome_of(Ok((timing, killed)));
            let lost = outcome_of(Err(why));
            &&& ran.timing_of() == Some(timing)
            &&& ran is TimedOut <==> killed
            &&& ran is Finished <==> !killed
            &&& ran.has_failed() <==> killed || timing.exit != 0
            &&& lost is Failed && lost->Failed_0 == why
            &&& lost.timing_of() is None
            &&& lost.has_failed()
        }),
{
}

} // verus!
