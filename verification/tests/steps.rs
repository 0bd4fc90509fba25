//! Steps, and how far a failure in one reaches.

use pail::step::Items;
use pail::{Closure, Cmd, Item, OnError, Secs, Status, Step, Strategy, Timing};

fn timing(exit: i32) -> Timing {
    Timing {
        wall_s: Secs { nanos: 1_000_000_000 },
        user_s: Some(Secs { nanos: 1_000_000_000 }),
        sys_s: Some(Secs { nanos: 0 }),
        max_rss_kb: Some(1024),
        exit,
    }
}

/// Two commands, the second having gone however `outcome` says.
fn step(on_error: OnError, outcome: Status) -> Step {
    let mut step = Step::serial(vec![Cmd::new("/a"), Cmd::new("/b")]).on_error(on_error);
    step.set_status(0, Status::Finished(timing(0)));
    step.set_status(1, outcome);
    step
}

#[test]
fn nothing_failed_so_nothing_reaches_anywhere() {
    for on_error in [OnError::Continue, OnError::Skip, OnError::Abort] {
        let step = step(on_error, Status::Finished(timing(0)));
        assert!(!step.skips(), "{on_error:?} skipped a clean step");
        assert!(step.aborts().is_none(), "{on_error:?} aborted a clean step");
    }
}

#[test]
fn continue_lets_a_failure_pass() {
    let step = step(OnError::Continue, Status::Finished(timing(1)));
    assert!(!step.skips());
    assert!(step.aborts().is_none());
}

#[test]
fn skip_stops_the_step_and_stops_there() {
    let step = step(OnError::Skip, Status::Finished(timing(1)));
    assert!(step.skips());
    assert!(step.aborts().is_none());
}

#[test]
fn abort_stops_the_step_and_names_what_did_it() {
    let step = step(OnError::Abort, Status::Finished(timing(1)));
    assert!(step.skips());
    let why = step.aborts().expect("a failing command should abort");
    assert!(why.starts_with("b failed: "), "{why}");
    assert_eq!(why, "b failed: /b > /dev/null 2> /dev/null");
}

#[test]
fn abort_is_the_default() {
    assert_eq!(OnError::default(), OnError::Abort);
}

#[test]
fn a_command_that_never_ran_is_not_a_failure() {
    for outcome in [Status::NotRun, Status::Skipped] {
        let step = step(OnError::Abort, outcome);
        assert!(!step.skips());
        assert!(step.aborts().is_none());
    }
}

#[test]
fn every_way_of_failing_counts() {
    for outcome in [
        Status::Failed("could not spawn".into()),
        Status::TimedOut(timing(143)),
        Status::Finished(timing(1)),
    ] {
        let step = step(OnError::Abort, outcome);
        assert!(step.skips());
        assert!(step.aborts().is_some());
    }
}

#[test]
fn a_batch_always_has_a_worker() {
    // zero jobs would mean no workers at all, which hangs rather than
    // finishing empty
    assert_eq!(Step::batched(0, vec![Cmd::new("/a")]).width(), 1);
    assert_eq!(Step::batched(4, vec![Cmd::new("/a")]).width(), 4);
    assert_eq!(Step::serial(vec![Cmd::new("/a")]).width(), 1);
}

#[test]
fn the_first_failure_is_the_one_that_gets_named() {
    let mut step = Step::serial(vec![Cmd::new("/a"), Cmd::new("/b"), Cmd::new("/c")]);
    step.set_status(1, Status::Failed("no".into()));
    step.set_status(2, Status::Finished(timing(2)));
    assert!(step.failed().unwrap().starts_with("b failed: "));
}

#[test]
fn a_closure_that_failed_says_why_itself() {
    let mut step = Step::from_closures(vec![Closure::new("ok"), Closure::new("boom")]);
    assert_eq!(step.failed(), None);

    step.set_status(1, Status::Failed("no such database".into()));
    assert_eq!(
        step.aborts().as_deref(),
        Some("boom failed: no such database")
    );

    // a failure with no words of its own
    step.set_status(1, Status::TimedOut(timing(143)));
    assert_eq!(step.aborts().as_deref(), Some("boom failed"));
}

#[test]
fn a_step_goes_by_nothing_until_it_has_a_number() {
    let mut step = Step::serial(vec![]).name("s");
    assert_eq!(step.label(), "");
    step.index = Some(3);
    assert_eq!(step.label(), "[3](s)");

    let mut step = Step::serial(vec![]);
    assert_eq!(step.label(), "");
    step.index = Some(3);
    assert_eq!(step.label(), "[3]");
}

#[test]
fn cores_are_set_on_commands_and_nothing_else() {
    let step = Step::serial(vec![Cmd::new("/a")]).cores(3);
    assert!(matches!(step.items, Items::Cmds { cores: Some(3), .. }));

    let step = Step::from_closures(vec![Closure::new("c")]).cores(3);
    assert!(matches!(step.items, Items::Closures(_)));
    assert_eq!(step.closures().len(), 1);
    assert_eq!(step.cmds().len(), 0);
}

#[test]
fn a_bare_command_or_closure_is_a_step_of_one() {
    let step = Step::from(Cmd::new("/a"));
    assert_eq!(step.strategy(), Some(Strategy::Serial));
    assert_eq!(step.cmds().len(), 1);
    assert_eq!(step.len(), 1);

    let step = Step::from(Closure::new("c"));
    assert_eq!(step.strategy(), None);
    assert_eq!(step.closures()[0].label(), "c");
    assert_eq!(step.len(), 1);
}

#[test]
fn a_step_hands_out_what_it_holds_in_order() {
    let step = Step::batched(2, vec![Cmd::new("/a"), Cmd::new("/b").cores(2)]);
    let labels: Vec<String> = step.items().iter().map(|i| i.label()).collect();
    assert_eq!(labels, ["a", "b"]);
    assert_eq!(step.item(1).cores(), 2);
    assert_eq!(step.item(0).cores(), 0);
    assert_eq!(step.wall_s(), None);
}

#[test]
fn a_closure_has_no_answer_for_what_only_a_process_has() {
    let closure = Closure::new("c");
    let item = Item::Closure(&closure);
    assert_eq!(item.exit(), None);
    assert_eq!(item.line(), None);
    assert_eq!(item.cpus(), None);
    assert_eq!(item.cores(), 0);

    let mut cmd = Cmd::new("/x").stdout(pail::Output::Inherit).stderr_to("e");
    cmd.status = Status::TimedOut(timing(143));
    assert_eq!(Item::Cmd(&cmd).exit(), Some(143));
    assert_eq!(Item::Cmd(&cmd).line().as_deref(), Some("/x 2> e"));
    assert_eq!(Item::Cmd(&cmd).cpus(), Some(&[][..]));
    cmd.cpus = vec![0, 2];
    assert_eq!(Item::Cmd(&cmd).cpus(), Some(&[0, 2][..]));
}

#[test]
fn statuses_know_how_far_they_got() {
    assert!(!Status::NotRun.ran());
    assert!(!Status::Skipped.ran());
    assert!(Status::Failed("x".into()).ran());
    assert!(Status::Finished(timing(0)).ran());
    assert!(Status::Failed("x".into()).timing().is_none());
    assert_eq!(Status::TimedOut(timing(143)).timing().unwrap().exit, 143);
    assert!(timing(0).ok());
    assert!(!timing(1).ok());
}
