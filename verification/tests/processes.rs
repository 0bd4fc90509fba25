//! What a process came to, and what stopping one takes.

use pail::batch::{Batch, Deadline, Minding, Signal, SIGTERM_GRACE_S};
use pail::closure::{panic_msg, Called};
use pail::execute::{exit_code, max_rss_kb, outcome, Status, Timing, Usage};
use pail::launch::{cannot_open, cannot_spawn, Open};
use pail::reap::{Reaper, Reaping};
use pail::{Closure, Cmd, Output, Secs};

/// SIGTERM and SIGKILL, by number.
const SIGTERM: i32 = libc::SIGTERM;
const SIGKILL: i32 = libc::SIGKILL;

/// The status a wait gives back for a process that exited with this.
fn exited(code: i32) -> i32 {
    code << 8
}

fn usage() -> Usage {
    Usage {
        user: (1, 250_000),
        sys: (0, 4000),
        max_rss: 2048,
        in_bytes: false,
    }
}

fn timing(exit: i32) -> Timing {
    Timing::of(Secs { nanos: 5 }, exited(exit), &usage())
}

/// Mind a deadline whose waits find the process over, or not, as `finished`
/// says in turn. Gives back what was sent and whether it counts as killed.
fn mind(finished: &[bool]) -> (Vec<Signal>, bool) {
    let mut deadline = Deadline::new();
    let mut waits = finished.iter();
    let mut sent = Vec::new();
    loop {
        match deadline.next() {
            Minding::Wait | Minding::WaitGrace => deadline.waited(*waits.next().unwrap()),
            Minding::Send(signal) => {
                sent.push(signal);
                deadline.signalled();
            }
            Minding::Over { killed } => return (sent, killed),
        }
    }
}

#[test]
fn reap_reports_the_exit_code() {
    let timing = Timing::of(Secs { nanos: 5 }, exited(3), &usage());
    assert_eq!(timing.exit, 3);
    assert!(!timing.ok());
}

#[test]
fn reap_turns_a_signal_into_128_plus_it() {
    let timing = Timing::of(Secs { nanos: 5 }, SIGTERM, &usage());
    assert_eq!(timing.exit, 128 + SIGTERM);
}

#[test]
fn reap_collects_what_the_process_actually_cost() {
    let timing = Timing::of(Secs { nanos: 5 }, 0, &usage());

    assert_eq!(timing.user_s, Some(Secs { nanos: 1_250_000_000 }));
    assert_eq!(timing.sys_s, Some(Secs { nanos: 4_000_000 }));
    assert_eq!(timing.max_rss_kb, Some(2048));
    assert_eq!(timing.wall_s, Secs { nanos: 5 });
    assert!(timing.ok());
}

/// Reap a process the first wait on which goes as `watched` says. Gives back what
/// was done, in order, and what came of it.
fn reap(
    watched: Option<&str>,
    collected: Result<(i32, Usage), String>,
) -> (Vec<Reaping>, Result<Timing, String>) {
    let mut reaper = Reaper::new();
    let mut done = Vec::new();
    loop {
        let next = reaper.next();
        done.push(next);
        match next {
            Reaping::Watch => reaper.watched(Secs { nanos: 5 }, watched.map(str::to_string)),
            Reaping::Tell => reaper.told(),
            Reaping::Collect => reaper.collected(collected.clone()),
            Reaping::Over => return (done, reaper.result().unwrap()),
        }
    }
}

#[test]
fn the_pid_is_still_ours_when_exited_runs_and_gone_after() {
    // this is the whole reason for two waits: anything holding the pid has to be
    // told to let go while it is still a zombie, because once the reap lands it
    // could belong to someone else
    let (done, result) = reap(None, Ok((exited(0), usage())));
    assert_eq!(
        done,
        [Reaping::Watch, Reaping::Tell, Reaping::Collect, Reaping::Over]
    );
    assert_eq!(result, Ok(timing(0)));

    // a second reap finds nothing
    let (_, result) = reap(Some("No child processes"), Ok((exited(0), usage())));
    assert!(result.is_err());
}

#[test]
fn exited_runs_even_when_the_wait_fails() {
    // nothing is ever told twice, so the one call has to happen on both paths
    let (done, result) = reap(Some("No child processes"), Ok((exited(0), usage())));
    assert_eq!(
        result,
        Err("waitid failed: No child processes".to_string()),
        "waiting on a pid we never spawned"
    );
    assert_eq!(done.iter().filter(|d| **d == Reaping::Tell).count(), 1);
    assert_eq!(done, [Reaping::Watch, Reaping::Tell, Reaping::Over]);

    let (done, result) = reap(None, Err("No child processes".to_string()));
    assert_eq!(result, Err("wait4 failed: No child processes".to_string()));
    assert_eq!(done.iter().filter(|d| **d == Reaping::Tell).count(), 1);
}

#[test]
fn reaping_ignores_what_it_did_not_ask_for() {
    let mut reaper = Reaper::new();
    reaper.told();
    reaper.collected(Ok((0, usage())));
    assert_eq!(reaper.next(), Reaping::Watch);
    assert!(reaper.result().is_none());
}

#[test]
fn a_process_starts_with_what_the_command_says() {
    let mut cmd = Cmd::new("/bin/nail")
        .sub("search")
        .arg("-E", 10)
        .env("B", "2")
        .env("A", "1 1")
        .dir("/tmp/work")
        .stdout(Output::Append("out".into()))
        .stderr(Output::OnFailure("err".into()));
    cmd.cpus = vec![0, 2];
    let launch = cmd.spawn();

    assert_eq!(launch.program, "/bin/nail");
    // nothing here is quoted: no shell reads it
    assert_eq!(launch.args, ["search", "-E", "10"]);
    assert_eq!(
        launch.env,
        [
            ("A".to_string(), "1 1".to_string()),
            ("B".to_string(), "2".to_string())
        ]
    );
    assert_eq!(launch.dir.as_deref(), Some("/tmp/work"));
    assert_eq!(launch.cpus, [0, 2]);
    assert_eq!(launch.stdout, Open::File { path: "out".into(), append: true });
    assert_eq!(launch.stderr, Open::File { path: "err".into(), append: false });
}

#[test]
fn appending_keeps_what_is_there_and_a_file_replaces_it() {
    let file = |path: &str, append: bool| Open::File { path: path.into(), append };
    assert_eq!(Output::Append("o".into()).stdio(), file("o", true));
    assert_eq!(Output::File("o".into()).stdio(), file("o", false));
    assert_eq!(Output::OnFailure("o".into()).stdio(), file("o", false));
    assert_eq!(Output::Null.stdio(), Open::Null);
    assert_eq!(Output::Inherit.stdio(), Open::Inherit);
    assert_eq!(cannot_open("o", false), "failed to create o");
    assert_eq!(cannot_open("o", true), "failed to open o for append");
}

#[test]
fn every_exit_code_and_every_signal_is_told_apart() {
    for code in 0..256 {
        assert_eq!(exit_code(exited(code)), code);
    }
    for signal in 1..127 {
        assert_eq!(exit_code(signal), 128 + signal);
        // with a core dumped
        assert_eq!(exit_code(signal | 0x80), 128 + signal);
    }
    // stopped, and going again: neither over nor killed
    assert_eq!(exit_code(0x137f), -1);
    assert_eq!(exit_code(0xffff), -1);
    assert_eq!(exit_code(-1), -1);
    assert_eq!(exit_code(-256), 255);
}

#[test]
fn peak_memory_is_in_kilobytes_wherever_it_comes_from() {
    assert_eq!(max_rss_kb(2047, false), 2047);
    assert_eq!(max_rss_kb(2047, true), 1);
    assert_eq!(max_rss_kb(-2047, true), -1);
    assert_eq!(max_rss_kb(i64::MIN, true), i64::MIN / 1024);
}

#[test]
fn every_clock_reading_is_kept_as_it_is() {
    assert_eq!(Secs::from_clock(-1, 0), Secs { nanos: -1_000_000_000 });
    assert_eq!(Secs::from_clock(-1, 1), Secs { nanos: -999_999_000 });
    assert_eq!(
        Secs::from_clock(i64::MAX, i64::MAX),
        Secs { nanos: i64::MAX as i128 * 1_000_001_000 }
    );
    assert_eq!(Secs::from_clock(2, 1), Secs { nanos: 2_000_001_000 });
}

#[test]
fn a_command_that_beats_its_deadline_does_not_wait_for_it() {
    let (sent, killed) = mind(&[true]);
    assert_eq!(sent, []);
    assert!(matches!(outcome(Ok((timing(0), killed))), Status::Finished(_)));
}

#[test]
fn a_command_that_outstays_its_deadline_is_terminated() {
    let (sent, killed) = mind(&[false, true]);
    assert_eq!(sent, [Signal::Term]);

    let ended = Timing::of(Secs { nanos: 5 }, SIGTERM, &usage());
    let Status::TimedOut(timing) = outcome(Ok((ended, killed))) else {
        panic!("expected a timeout");
    };
    assert_eq!(timing.exit, 128 + SIGTERM);
}

#[test]
fn a_command_that_ignores_the_deadline_is_killed_once_the_grace_is_up() {
    let (sent, killed) = mind(&[false, false]);
    assert_eq!(sent, [Signal::Term, Signal::Kill]);

    let ended = Timing::of(Secs { nanos: 5 }, SIGKILL, &usage());
    let Status::TimedOut(timing) = outcome(Ok((ended, killed))) else {
        panic!("expected a timeout");
    };
    assert_eq!(timing.exit, 128 + SIGKILL, "should have been killed");
    assert_eq!(SIGTERM_GRACE_S, 5);
}

#[test]
fn a_command_with_no_deadline_is_left_to_finish() {
    let Status::Finished(timing) = outcome(Ok((timing(0), false))) else {
        panic!("expected a clean finish");
    };
    assert_eq!(timing.exit, 0);
}

#[test]
fn a_command_that_cannot_start_says_so_rather_than_panicking() {
    let tool = Cmd::new("/no/such/tool").spawn().program;
    assert_eq!(cannot_spawn(&tool), "failed to spawn /no/such/tool");
    let Status::Failed(why) = outcome(Err(cannot_spawn(&tool))) else {
        panic!("expected a failure to launch");
    };
    assert!(why.contains("/no/such/tool"), "unhelpful message: {why}");
}

#[test]
fn minding_a_deadline_ignores_what_it_did_not_ask_for() {
    let mut deadline = Deadline::new();
    deadline.signalled();
    assert_eq!(deadline.next(), Minding::Wait);
    deadline.waited(false);
    deadline.waited(true);
    assert_eq!(deadline.next(), Minding::Send(Signal::Term));
}

#[test]
fn a_cancel_reaches_what_runs_and_what_starts_after_it() {
    let mut batch = Batch::new();
    assert!(!batch.cancelled());
    assert!(batch.starts());
    assert!(!batch.add(10));
    assert!(!batch.add(11));
    assert!(!batch.add(12));
    assert!(!batch.remove(11));

    assert_eq!(batch.cancel(), Some(vec![10, 12]));
    assert!(batch.cancelled());
    assert!(!batch.starts());
    // once more does nothing extra
    assert_eq!(batch.cancel(), None);
    // one that started while the batch was being cancelled still has to go
    assert!(batch.add(13));

    assert_eq!(batch.kill_remaining(false), []);
    assert_eq!(batch.kill_remaining(true), [10, 12, 13]);
    assert!(!batch.remove(10));
    assert!(!batch.remove(12));
    assert!(batch.remove(13));
    assert_eq!(batch.kill_remaining(true), []);
}

#[test]
fn commands_are_handed_out_once_each_until_the_batch_is_cancelled() {
    let mut batch = Batch::new();
    assert_eq!(batch.claim(3), Some(0));
    assert_eq!(batch.claim(3), Some(1));
    assert_eq!(batch.cancel(), Some(vec![]));
    assert_eq!(batch.claim(3), None);

    let mut batch = Batch::new();
    let claimed: Vec<usize> = std::iter::from_fn(|| batch.claim(3)).collect();
    assert_eq!(claimed, [0, 1, 2]);
}

#[test]
fn a_closure_reports_a_wall_clock_and_nothing_else() {
    let mut closure = Closure::new("sleeps");
    closure.execute(Some(Called::Returned), Secs { nanos: 30_000_000 });

    match closure.status() {
        Status::Finished(t) => {
            assert_eq!(t.wall_s, Secs { nanos: 30_000_000 });
            // the whole contract: a thread has no wait4 to ask for these
            assert_eq!(t.user_s, None, "{t:?}");
            assert_eq!(t.sys_s, None, "{t:?}");
            assert_eq!(t.max_rss_kb, None, "{t:?}");
            assert_eq!(t.exit, 0, "{t:?}");
        }
        other => panic!("expected a finished closure, got {other:?}"),
    }
}

#[test]
fn a_closure_that_has_already_run_has_nothing_left_to_do() {
    let mut closure = Closure::new("c");
    closure.execute(Some(Called::Errored("nope".into())), Secs { nanos: 1 });
    closure.execute(None, Secs { nanos: 2 });
    assert!(matches!(closure.status(), Status::Failed(why) if why == "nope"));
}

#[test]
fn a_panic_says_what_it_was_given_to_say() {
    let owned = "boom 7".to_string();
    assert_eq!(panic_msg(Some("boom"), None), "boom");
    assert_eq!(panic_msg(None, Some(&owned)), "boom 7");
    assert_eq!(panic_msg(None, None), "no message");
}
