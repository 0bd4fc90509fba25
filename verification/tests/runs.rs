//! Building pipelines and walking through them, with made-up commands.

use pail::batch::Batch;
use pail::closure::Called;
use pail::execute::{exit_code, Ran};
use pail::label::{filename, label, log_name, safe};
use pail::run::{Action, Reply, Tell, Verdict};
use pail::{
    Closure, Cmd, Item, Machine, OnError, Output, Pipeline, PipelineBuilder, Run, Secs, Status,
    Step, Timing,
};

/// A machine with this many cores.
fn machine(cores: usize) -> Machine {
    Machine { cores }
}

fn build(builder: PipelineBuilder) -> Pipeline {
    builder.build("20260102-030405", &machine(8)).unwrap()
}

fn sh(name: &str, script: &str) -> Cmd {
    Cmd::new("/bin/sh").name(name).arg("-c", script)
}

/// How long a script would take in milliseconds, and what it would exit with.
fn script(cmd: &Cmd) -> (u64, i32) {
    let text = cmd.args().pop().unwrap_or_default();
    let mut took = 0;
    let mut code = 0;
    for part in text.split(';') {
        match part.trim().split_once(' ') {
            Some(("exit", n)) => code = n.parse().unwrap(),
            Some(("sleep", s)) => took += (s.parse::<f64>().unwrap() * 1000.0) as u64,
            _ => {}
        }
    }
    (took, code)
}

fn timing(took: u64, exit: i32) -> Timing {
    let cpu = Some(Secs { nanos: 0 });
    Timing {
        wall_s: Secs { nanos: took as i128 * 1_000_000 },
        user_s: cpu,
        sys_s: cpu,
        max_rss_kb: Some(1),
        exit,
    }
}

fn ran(status: Status) -> Ran {
    Ran { status, cpus: vec![] }
}

#[derive(Default)]
struct Log {
    /// One entry per announcement, so anything announced twice shows up twice.
    records: Vec<(String, String, Status)>,
    /// One entry per `ItemStart`, by name.
    started: Vec<String>,
    /// `+label` on a step start and `-label` on a step done, so the two can
    /// be checked for pairing and order.
    order: Vec<String>,
    abandoned: Option<String>,
    finished: usize,
    told: Vec<Tell>,
    made: usize,
    left: usize,
    tidied: usize,
    replies: usize,
}

impl Log {
    fn of(&self, cmd: &str) -> Vec<&Status> {
        self.records
            .iter()
            .filter(|(_, label, _)| label == cmd)
            .map(|(_, _, status)| status)
            .collect()
    }
}

/// What one worker of a batch is up to.
#[derive(Clone, Copy)]
enum Worker {
    Idle,
    Waiting(usize),
    Running { at: usize, until: u64 },
}

/// A batch in progress.
struct Crew {
    batch: Batch,
    workers: Vec<Worker>,
    free: usize,
    now: u64,
}

impl Crew {
    /// The next thing a worker has to say.
    fn next(&mut self, step: &Step) -> Reply {
        let cmds = step.cmds();
        let want = |at: usize| cmds[at].cores.unwrap_or(0);
        let elapsed_s = Secs { nanos: self.now as i128 * 1_000_000 };
        for i in 0..self.workers.len() {
            if let Worker::Idle = self.workers[i] {
                if let Some(at) = self.batch.claim(cmds.len()) {
                    self.workers[i] = Worker::Waiting(at);
                }
            }
            if let Worker::Waiting(at) = self.workers[i] {
                if !self.batch.starts() {
                    self.workers[i] = Worker::Idle;
                    return Reply::Back { at, ran: None, elapsed_s };
                }
                if want(at) <= self.free {
                    self.free -= want(at);
                    self.batch.add(at as i32);
                    let until = self.now + script(&cmds[at]).0;
                    self.workers[i] = Worker::Running { at, until };
                    return Reply::Started { at };
                }
            }
        }
        let first = (0..self.workers.len())
            .filter_map(|i| match self.workers[i] {
                Worker::Running { at, until } => Some((until, i, at)),
                _ => None,
            })
            .min();
        match first {
            None => Reply::Drained,
            Some((until, i, at)) => {
                let (took, code) = script(&cmds[at]);
                let timing = if self.batch.cancelled() {
                    timing(0, exit_code(15))
                } else {
                    self.now = until;
                    timing(took, code)
                };
                self.batch.remove(at as i32);
                self.free += want(at);
                self.workers[i] = Worker::Idle;
                Reply::Back {
                    at,
                    ran: Some(ran(Status::Finished(timing))),
                    elapsed_s: Secs { nanos: self.now as i128 * 1_000_000 },
                }
            }
        }
    }
}

/// The world outside a run: sinks that may be broken, and closures that do what
/// they are down for.
#[derive(Default)]
struct World {
    /// A sink that cannot write when this is announced.
    broken_by: Option<&'static str>,
    /// A sink that cannot take this.
    refuses: Option<Tell>,
    no_dir: bool,
    calls: Vec<(&'static str, Called)>,
}

impl World {
    fn broken_by(cmd: &'static str) -> World {
        World { broken_by: Some(cmd), ..World::default() }
    }

    fn calling(calls: Vec<(&'static str, Called)>) -> World {
        World { calls, ..World::default() }
    }

    fn takes(&self, log: &mut Log, run: &Run, tell: Tell) -> bool {
        log.told.push(tell);
        match tell {
            Tell::Start => {}
            Tell::StepStart { step } => log.order.push(format!("+{}", run.steps()[step].label())),
            Tell::ItemStart { step, at } => {
                log.started.push(run.steps()[step].item(at).label());
            }
            Tell::ItemDone { step, at } => {
                let step = &run.steps()[step];
                let item = step.item(at);
                log.records
                    .push((step.label(), item.label(), item.status().clone()));
                if self.broken_by == Some(item.label().as_str()) {
                    return false;
                }
            }
            Tell::StepDone { step } => log.order.push(format!("-{}", run.steps()[step].label())),
            Tell::Abandoned => log.abandoned = run.failure().clone(),
            Tell::Finish => log.finished += 1,
        }
        self.refuses != Some(tell)
    }

    /// Run it all, giving back what the sinks heard and how it ended.
    fn run(&self, pipeline: Pipeline) -> (Log, Verdict, Run) {
        let mut run = pipeline.run();
        let mut log = Log::default();
        let mut crew: Option<Crew> = None;
        loop {
            let reply = match run.action() {
                Action::Tell(tell) => Reply::Told(self.takes(&mut log, &run, tell)),
                Action::MakeDir => {
                    log.made += 1;
                    Reply::Made(!self.no_dir)
                }
                Action::Execute { step, at } => {
                    let status = match run.steps()[step].item(at) {
                        Item::Cmd(cmd) => {
                            let (took, code) = script(cmd);
                            Status::Finished(timing(took, code))
                        }
                        Item::Closure(closure) => {
                            let mut closure = closure.clone();
                            let called = self
                                .calls
                                .iter()
                                .find(|(name, _)| *name == closure.label())
                                .map(|(_, called)| called.clone())
                                .unwrap_or(Called::Returned);
                            closure.execute(Some(called), Secs { nanos: 7 });
                            closure.status().clone()
                        }
                    };
                    Reply::Ran { ran: ran(status), elapsed_s: Secs { nanos: 9 } }
                }
                Action::Batch { step, jobs } => {
                    let mut hired = Crew {
                        batch: Batch::new(),
                        workers: vec![Worker::Idle; jobs],
                        free: 8,
                        now: 0,
                    };
                    let reply = hired.next(&run.steps()[step]);
                    crew = Some(hired);
                    reply
                }
                Action::Listen { step, cancel } => {
                    let crew = crew.as_mut().unwrap();
                    if cancel {
                        crew.batch.cancel();
                    }
                    crew.next(&run.steps()[step])
                }
                Action::Leave { .. } => {
                    crew.as_mut().unwrap().batch.cancel();
                    log.left += 1;
                    Reply::Left
                }
                Action::Tidy => {
                    log.tidied += 1;
                    Reply::Tidied
                }
                Action::End(verdict) => return (log, verdict, run),
            };
            run.reply(reply);
            log.replies += 1;
        }
    }
}

#[test]
fn a_command_takes_its_core_count_from_the_step_unless_it_has_its_own() {
    let pipeline = build(
        PipelineBuilder::new()
            .step(Step::serial(vec![Cmd::new("/a"), Cmd::new("/b").cores(2)]).cores(4))
            .step(Step::serial(vec![Cmd::new("/c")]))
            .no_stderr(),
    );

    assert_eq!(pipeline.steps[0].cmds()[0].cores, Some(4));
    assert_eq!(pipeline.steps[0].cmds()[1].cores, Some(2));
    assert_eq!(pipeline.steps[1].cmds()[0].cores, None);
}

#[test]
fn asking_for_more_cores_than_the_machine_has_fails_the_build() {
    let machine = machine(8);
    let too_many = machine.cores + 1;
    let built = PipelineBuilder::new()
        .step(Step::serial(vec![Cmd::new("/a").name("greedy")]).name("big").cores(too_many))
        .no_stderr()
        .build("now", &machine);

    let Err(error) = built else {
        panic!("a pipeline that can never be placed should not build");
    };

    assert!(error.contains("greedy"), "{error}");
    assert!(error.contains("big"), "{error}");
    assert!(error.contains(&too_many.to_string()), "{error}");
    assert_eq!(error, "[1](big).greedy wants 9 cores, and the machine has 8");
}

#[test]
fn the_first_command_that_asks_for_too_much_is_the_one_that_gets_named() {
    let built = PipelineBuilder::new()
        .step(Closure::new("c").into())
        .step(Step::serial(vec![
            Cmd::new("/a").cores(8),
            Cmd::new("/b").cores(10),
            Cmd::new("/c").cores(11),
        ]))
        .step(Step::serial(vec![Cmd::new("/d").cores(12)]))
        .build("now", &machine(8));
    assert_eq!(
        built.unwrap_err(),
        "[2].b wants 10 cores, and the machine has 8"
    );
}

#[test]
fn steps_are_numbered_from_one() {
    let pipeline = build(
        PipelineBuilder::new()
            .step(Cmd::new("/a").into())
            .step(Cmd::new("/b").into())
            .no_stderr(),
    );

    assert_eq!(pipeline.steps[0].label(), "[1]");
    assert_eq!(pipeline.steps[1].label(), "[2]");
}

#[test]
fn an_unrouted_stderr_gets_a_file_of_its_own_and_a_routed_one_is_left_alone() {
    let pipeline = build(
        PipelineBuilder::new()
            .step(
                Step::serial(vec![
                    Cmd::new("/a").name("x"),
                    Cmd::new("/b").name("y").stderr(Output::Inherit),
                ])
                .name("s"),
            )
            .stderr_dir("/tmp/pipeline-test-stderr"),
    );

    let Output::OnFailure(path) = &pipeline.steps[0].cmds()[0].stderr else {
        panic!("expected a failure log, got {:?}", pipeline.steps[0].cmds()[0].stderr);
    };
    assert!(path.ends_with("1-s.1-x.stderr"), "{path}");
    assert_eq!(
        path,
        "/tmp/pipeline-test-stderr/20260102-030405/1-s.1-x.stderr"
    );
    assert_eq!(pipeline.steps[0].cmds()[1].stderr, Output::Inherit);
    assert!(pipeline.stderr_dir.is_some());
}

#[test]
fn no_directory_is_claimed_when_nothing_needed_a_failure_log() {
    let pipeline = build(
        PipelineBuilder::new()
            .step(Cmd::new("/a").stderr(Output::Inherit).into())
            .stderr_dir("/tmp/pipeline-test-unused"),
    );

    assert!(pipeline.stderr_dir.is_none());
}

#[test]
fn failure_logs_go_in_a_directory_of_their_own_unless_told_otherwise() {
    let pipeline = build(PipelineBuilder::default().step(Cmd::new("/a").into()));
    assert_eq!(pipeline.stderr_dir.as_deref(), Some("stderr/20260102-030405"));
    assert_eq!(
        pipeline.steps[0].cmds()[0].stderr_path(),
        Some("stderr/20260102-030405/1.1.stderr")
    );

    let pipeline = build(PipelineBuilder::new().step(Cmd::new("/a").into()).no_stderr());
    assert_eq!(pipeline.stderr_dir, None);
    assert_eq!(pipeline.steps[0].cmds()[0].stderr, Output::Null);
}

#[test]
fn no_two_commands_share_a_log_however_they_are_named() {
    // a step called `1.1` with nothing but digits and dots about it is the
    // closest two names can come
    assert_eq!(log_name(1, Some("1.1"), 2, None), "1-1.1.2.stderr");
    assert_eq!(log_name(1, Some("1"), 1, Some("2")), "1-1.1-2.stderr");
    assert_ne!(log_name(1, None, 11, None), log_name(11, None, 1, None));
    assert_eq!(label(3, Some("a b")), "[3](a b)");
    assert_eq!(filename(3, Some("a b/č")), "3-a_b__");
    assert_eq!(safe("ok._-Z9"), "ok._-Z9");
}

#[test]
fn a_failed_step_ends_the_run_and_says_which_command_did_it() {
    let (log, verdict, run) = World::default().run(build(
        PipelineBuilder::new()
            .step(Step::serial(vec![sh("first", "exit 0")]))
            .step(Step::serial(vec![sh("bad", "exit 1")]))
            .step(Step::serial(vec![sh("never", "exit 0")]))
            .no_stderr(),
    ));

    assert_eq!(verdict, Verdict::Failed);
    let error = run.failure().clone().unwrap();
    assert!(error.contains("bad"), "{error}");
    assert_eq!(log.abandoned, Some(error));

    assert!(matches!(log.of("first")[..], [Status::Finished(_)]));
    assert!(matches!(log.of("never")[..], [Status::Skipped]));
    assert_eq!(log.order, ["+[1]", "-[1]", "+[2]", "-[2]", "+[3]", "-[3]"]);
    assert_eq!(log.started, ["first", "bad"]);
    assert_eq!(log.told.last(), Some(&Tell::Finish));
}

#[test]
fn giving_up_comes_right_after_the_step_that_caused_it() {
    let (log, _, _) = World::default().run(build(
        PipelineBuilder::new()
            .step(Step::serial(vec![sh("first", "exit 0")]))
            .step(Step::batched(2, vec![sh("bad", "exit 1"), sh("other", "exit 0")]))
            .step(Step::serial(vec![sh("never", "exit 0")])),
    ));

    let at = log.told.iter().position(|t| *t == Tell::Abandoned).unwrap();
    assert_eq!(log.told[at - 1], Tell::StepDone { step: 1 });
    assert_eq!(log.told[at + 1], Tell::StepStart { step: 2 });
    assert_eq!(log.told.iter().filter(|t| **t == Tell::Abandoned).count(), 1);
    // and the directory it made is seen to once it is over
    assert_eq!((log.made, log.tidied), (1, 1));
}

#[test]
fn continue_lets_the_rest_of_the_run_happen() {
    let (log, verdict, _) = World::default().run(build(
        PipelineBuilder::new()
            .step(
                Step::serial(vec![sh("bad", "exit 1"), sh("after", "exit 0")])
                    .on_error(OnError::Continue),
            )
            .step(Step::serial(vec![sh("later", "exit 0")]))
            .no_stderr(),
    ));

    assert_eq!(verdict, Verdict::Passed, "a tolerated failure should not end the run");
    assert!(matches!(log.of("after")[..], [Status::Finished(_)]));
    assert!(matches!(log.of("later")[..], [Status::Finished(_)]));
    assert_eq!(log.abandoned, None);
}

#[test]
fn skip_leaves_the_rest_of_its_own_step_and_nothing_else() {
    let (log, verdict, _) = World::default().run(build(
        PipelineBuilder::new()
            .step(
                Step::serial(vec![sh("bad", "exit 1"), sh("sibling", "exit 0")])
                    .on_error(OnError::Skip),
            )
            .step(Step::serial(vec![sh("later", "exit 0")]))
            .no_stderr(),
    ));

    assert_eq!(verdict, Verdict::Passed, "skip should not fail the run");
    assert!(matches!(log.of("sibling")[..], [Status::Skipped]));
    assert!(matches!(log.of("later")[..], [Status::Finished(_)]));
}

#[test]
fn a_sink_that_cannot_write_still_gets_told_the_run_is_over() {
    let (log, verdict, _) = World::broken_by("bad").run(build(
        PipelineBuilder::new()
            .step(Step::serial(vec![sh("bad", "exit 0")]))
            .step(Step::serial(vec![sh("later", "exit 0")]))
            .no_stderr(),
    ));

    assert_eq!(verdict, Verdict::Stopped);
    assert_eq!(log.finished, 1, "finish must run even when the walk gave up");
    assert!(log.of("later").is_empty());
}

#[test]
fn every_command_is_announced_exactly_once_and_never_as_not_run() {
    // the contract a sink is promised: by the time you see a command it has
    // finished, failed to start, or been skipped
    let names = [
        "serial-ok",
        "batched-a",
        "batched-b",
        "batched-c",
        "stopper",
        "sibling",
        "unreached",
    ];

    let (log, verdict, _) = World::default().run(build(
        PipelineBuilder::new()
            .step(Step::serial(vec![sh("serial-ok", "exit 0")]))
            .step(Step::batched(
                2,
                vec![
                    sh("batched-a", "exit 0"),
                    sh("batched-b", "exit 0"),
                    sh("batched-c", "exit 0"),
                ],
            ))
            .step(
                Step::batched(1, vec![sh("stopper", "exit 1"), sh("sibling", "sleep 5")])
                    .on_error(OnError::Skip),
            )
            .step(Step::serial(vec![sh("unreached", "exit 0")]))
            .no_stderr(),
    ));

    assert_eq!(verdict, Verdict::Passed, "skip should not fail the run");
    for name in names {
        let seen = log.of(name);
        assert_eq!(seen.len(), 1, "{name} was announced {} times", seen.len());
        assert!(
            !matches!(seen[0], Status::NotRun),
            "{name} was announced as NotRun"
        );
    }
    assert_eq!(log.records.len(), names.len(), "something extra was announced");
}

#[test]
fn a_command_the_batch_gave_up_on_before_starting_it_is_announced_once() {
    // the awkward case for the contract: a worker takes a command, parks
    // waiting for cores that the hog is holding, and is woken by the cancel.
    // it comes back never having run, and both the batch and the skipping have
    // an opinion about saying so
    let (log, verdict, _) = World::default().run(build(
        PipelineBuilder::new()
            .step(
                Step::batched(
                    3,
                    vec![
                        // slow enough that the other two are placed first
                        sh("boom", "sleep 0.3; exit 1"),
                        sh("hog", "sleep 5").cores(8),
                        sh("waiter", "sleep 5").cores(1),
                    ],
                )
                .on_error(OnError::Skip),
            )
            .no_stderr(),
    ));

    assert_eq!(verdict, Verdict::Passed, "skip should not fail the run");
    let seen = log.of("waiter");
    assert_eq!(seen.len(), 1, "announced {} times: {seen:?}", seen.len());
    assert!(matches!(seen[0], Status::Skipped), "{seen:?}");
    assert!(matches!(log.of("hog")[..], [Status::Finished(t)] if t.exit == 143));
    assert_eq!(log.started, ["boom", "hog"]);
}

#[test]
fn a_batch_reports_every_command_it_was_given() {
    let (log, verdict, run) = World::default().run(build(
        PipelineBuilder::new()
            .step(Step::batched(
                3,
                (0..6).map(|i| sh(&format!("job-{i}"), "exit 0")).collect(),
            ))
            .no_stderr(),
    ));

    assert_eq!(verdict, Verdict::Passed);
    assert_eq!(log.records.len(), 6);
    for i in 0..6 {
        assert!(matches!(log.of(&format!("job-{i}"))[..], [Status::Finished(_)]));
    }
    assert_eq!(run.steps()[0].wall_s(), Some(Secs { nanos: 0 }));
}

#[test]
fn a_closure_that_returns_an_error_ends_the_run_and_names_itself() {
    let world = World::calling(vec![("boom", Called::Errored("no such database".into()))]);
    let (log, verdict, run) = world.run(build(
        PipelineBuilder::new()
            .step(Step::from_closures(vec![Closure::new("boom")]))
            .step(Step::serial(vec![sh("never", "exit 0")]))
            .no_stderr(),
    ));

    assert_eq!(verdict, Verdict::Failed);
    let error = run.failure().clone().unwrap();
    assert!(error.contains("boom"), "{error}");
    // there is no stderr file to send anyone to, so the reason has to be in
    // the error itself
    assert!(error.contains("no such database"), "{error}");

    match log.of("boom")[..] {
        [Status::Failed(why)] => assert!(why.contains("no such database"), "{why}"),
        ref other => panic!("expected one failure, got {other:?}"),
    }
    assert!(matches!(log.of("never")[..], [Status::Skipped]));
}

#[test]
fn a_tolerated_closure_failure_lets_the_rest_of_the_run_happen() {
    let world = World::calling(vec![("bad", Called::Errored("nope".into()))]);
    let (log, verdict, _) = world.run(build(
        PipelineBuilder::new()
            .step(
                Step::from_closures(vec![Closure::new("bad"), Closure::new("after")])
                    .on_error(OnError::Continue),
            )
            .step(Step::serial(vec![sh("later", "exit 0")]))
            .no_stderr(),
    ));

    assert_eq!(verdict, Verdict::Passed, "a tolerated failure should not end the run");
    assert!(matches!(log.of("bad")[..], [Status::Failed(_)]));
    assert!(matches!(log.of("after")[..], [Status::Finished(_)]));
    assert!(matches!(log.of("later")[..], [Status::Finished(_)]));
}

#[test]
fn a_panicking_closure_fails_only_itself() {
    let world = World::calling(vec![("panics", Called::Panicked("boom 7".into()))]);
    let (log, verdict, _) = world.run(build(
        PipelineBuilder::new()
            .step(
                Step::from_closures(vec![Closure::new("panics"), Closure::new("after")])
                    .on_error(OnError::Continue),
            )
            .no_stderr(),
    ));

    assert_eq!(
        verdict,
        Verdict::Passed,
        "a caught panic is a failed closure, not a failed run"
    );
    match log.of("panics")[..] {
        [Status::Failed(why)] => {
            assert!(why.contains("panicked"), "{why}");
            assert!(why.contains("boom 7"), "{why}");
        }
        ref other => panic!("expected one caught panic, got {other:?}"),
    }
    assert!(matches!(log.of("after")[..], [Status::Finished(_)]));
}

#[test]
fn a_closure_that_never_ran_is_announced_once_as_skipped() {
    let world = World::calling(vec![("bad", Called::Errored("nope".into()))]);
    let (log, verdict, _) = world.run(build(
        PipelineBuilder::new()
            // the first stops its own step, so its sibling never runs
            .step(Step::from_closures(vec![
                Closure::new("bad"),
                Closure::new("sibling"),
            ]))
            // and this whole step is never reached
            .step(Step::from_closures(vec![Closure::new("unreached")]))
            .no_stderr(),
    ));

    assert_eq!(verdict, Verdict::Failed);
    // exactly once each, and never as NotRun, which is what a sink is promised
    assert!(matches!(log.of("sibling")[..], [Status::Skipped]));
    assert!(matches!(log.of("unreached")[..], [Status::Skipped]));
    assert_eq!(log.records.len(), 3, "{:?}", log.records);
}

#[test]
fn a_refusal_in_a_batch_calls_it_off_and_leaves_only_the_finish() {
    let (log, verdict, _) = World::broken_by("a").run(build(
        PipelineBuilder::new()
            .step(Step::batched(
                2,
                vec![sh("a", "exit 0"), sh("b", "sleep 5"), sh("c", "exit 0")],
            ))
            .step(Step::serial(vec![sh("later", "exit 0")]))
            .no_stderr(),
    ));

    assert_eq!(verdict, Verdict::Stopped);
    assert_eq!(log.left, 1);
    assert_eq!(log.finished, 1);
    assert_eq!(
        log.told[log.told.len() - 2..],
        [Tell::ItemDone { step: 0, at: 0 }, Tell::Finish]
    );
}

#[test]
fn everything_a_run_asks_for_can_be_refused() {
    let pipeline = || {
        build(
            PipelineBuilder::new()
                .step(Step::serial(vec![sh("bad", "exit 1"), sh("sibling", "exit 0")]))
                .step(Step::serial(vec![sh("never", "exit 0")])),
        )
    };
    let (log, verdict, _) = World::default().run(pipeline());
    assert_eq!(verdict, Verdict::Failed);
    assert_eq!((log.made, log.tidied, log.finished), (1, 1, 1));

    for refused in log.told.clone() {
        let world = World { refuses: Some(refused), ..World::default() };
        let (heard, verdict, _) = world.run(pipeline());
        let at = log.told.iter().position(|t| *t == refused).unwrap();
        match refused {
            // one whose start was refused never gets going, but it still ends
            Tell::Start => {
                assert_eq!(heard.told, [Tell::Start, Tell::Finish]);
                assert_eq!((heard.made, heard.tidied, heard.finished), (0, 0, 1));
                assert_eq!(verdict, Verdict::Stopped);
            }
            Tell::Finish => {
                assert_eq!(heard.told, log.told);
                assert_eq!(heard.tidied, 1);
                assert_eq!(verdict, Verdict::Unfinished);
            }
            _ => {
                assert_eq!(heard.told[..=at], log.told[..=at]);
                assert_eq!(heard.told[at + 1..], [Tell::Finish]);
                assert_eq!(heard.tidied, 1);
                assert_eq!(verdict, Verdict::Stopped);
            }
        }
    }

    let world = World { no_dir: true, ..World::default() };
    let (heard, verdict, _) = world.run(pipeline());
    assert_eq!(heard.told, [Tell::Start, Tell::Finish]);
    assert_eq!((heard.tidied, heard.finished), (0, 1));
    assert_eq!(verdict, Verdict::Stopped);
}

#[test]
fn a_command_called_off_before_it_started_is_skipped_with_the_rest() {
    // "waits" is claimed before "bad" fails, but the cores it needs are taken
    let (log, verdict, run) = World::default().run(build(
        PipelineBuilder::new()
            .step(Step::batched(
                3,
                vec![
                    sh("bad", "exit 1").cores(4),
                    sh("busy", "sleep 5").cores(4),
                    sh("waits", "exit 0").cores(4),
                    sh("unclaimed", "exit 0"),
                ],
            ))
            .no_stderr(),
    ));

    assert_eq!(verdict, Verdict::Failed);
    assert_eq!(log.started, ["bad", "busy"]);
    for ran in ["bad", "busy"] {
        assert!(matches!(log.of(ran)[..], [Status::Finished(_)]), "{ran}");
    }
    // told once each, in the order they were declared
    let skipped: Vec<&str> = log
        .records
        .iter()
        .filter(|(_, _, status)| matches!(status, Status::Skipped))
        .map(|(_, label, _)| label.as_str())
        .collect();
    assert_eq!(skipped, ["waits", "unclaimed"]);
    assert_eq!(log.records.len(), 4);
    for at in 0..4 {
        assert!(!matches!(run.steps()[0].item(at).status(), Status::NotRun));
    }
}

#[test]
fn a_pipeline_with_nothing_in_it_starts_and_finishes() {
    let (log, verdict, _) = World::default().run(build(PipelineBuilder::new()));
    assert_eq!(log.told, [Tell::Start, Tell::Finish]);
    assert_eq!(verdict, Verdict::Passed);

    let (log, verdict, _) = World::default().run(build(
        PipelineBuilder::new()
            .step(Step::serial(vec![]))
            .step(Step::batched(3, vec![])),
    ));
    assert_eq!(log.order, ["+[1]", "-[1]", "+[2]", "-[2]"]);
    assert_eq!(verdict, Verdict::Passed);
}

#[test]
fn a_run_takes_no_more_replies_than_its_steps_have_room_for() {
    let sizes = [0, 1, 4, 3];
    for on_error in [OnError::Continue, OnError::Skip, OnError::Abort] {
        for code in [0, 1] {
            let job = |i: usize| sh("job", &format!("sleep {i}; exit {}", code * (i % 2)));
            let mut builder = PipelineBuilder::new();
            for n in sizes {
                let cmds = || (0..n).map(job).collect();
                builder = builder
                    .step(Step::serial(cmds()).on_error(on_error))
                    .step(Step::batched(2, cmds()).on_error(on_error));
            }
            let (log, _, _) = World::default().run(build(builder));
            let room: usize = sizes.iter().map(|n| 2 * (4 * n + 4)).sum();
            assert!(log.replies <= room + 5, "{} of {room}", log.replies);
            assert_eq!(log.finished, 1);
            assert_eq!(log.records.len(), 2 * sizes.iter().sum::<usize>());
        }
    }
}

#[test]
fn a_reply_nobody_asked_for_changes_nothing() {
    let mut run = build(PipelineBuilder::new().step(sh("a", "exit 0").into())).run();
    let asked = run.action();
    let elapsed_s = Secs { nanos: 1 };
    for reply in [
        Reply::Made(true),
        Reply::Ran { ran: ran(Status::Skipped), elapsed_s },
        Reply::Started { at: 0 },
        Reply::Back { at: 0, ran: None, elapsed_s },
        Reply::Drained,
        Reply::Left,
        Reply::Tidied,
    ] {
        run.reply(reply);
        assert_eq!(run.action(), asked);
    }
    run.reply(Reply::Told(true));
    assert_eq!(run.action(), Action::MakeDir);
    run.reply(Reply::Made(true));
    run.reply(Reply::Told(true));
    run.reply(Reply::Told(true));
    assert_eq!(run.action(), Action::Execute { step: 0, at: 0 });
    // something that never ran cannot be what running it came to
    run.reply(Reply::Ran { ran: ran(Status::NotRun), elapsed_s });
    assert_eq!(run.action(), Action::Execute { step: 0, at: 0 });
}

#[test]
fn a_result_brings_its_cpus_and_the_clock_with_it() {
    let mut run = build(PipelineBuilder::new().step(sh("a", "exit 0").into()).no_stderr()).run();
    for _ in 0..3 {
        run.reply(Reply::Told(true));
    }
    run.reply(Reply::Ran {
        ran: Ran {
            status: Status::Finished(timing(1, 0)),
            cpus: vec![1, 3],
        },
        elapsed_s: Secs { nanos: 77 },
    });
    let step = &run.steps()[0];
    assert_eq!(step.wall_s(), Some(Secs { nanos: 77 }));
    assert_eq!(step.cmds()[0].cpus, [1, 3]);
    assert_eq!(step.item(0).cpus(), Some(&[1, 3][..]));
}

#[test]
fn a_dry_run_says_what_would_run_and_where() {
    let pipeline = build(
        PipelineBuilder::new()
            .step(
                Step::batched(
                    2,
                    vec![
                        Cmd::new("/bin/a").stderr(Output::Inherit).cores(2),
                        Cmd::new("/bin/b").name("second").stderr(Output::Inherit),
                    ],
                )
                .name("pair"),
            )
            .step(Step::from_closures(vec![Closure::new("check")])),
    );
    let pins = vec![vec![vec![0, 2], vec![]], vec![]];
    assert_eq!(
        pipeline.dry_run(&pins),
        [
            "# [1](pair)",
            "a /bin/a > /dev/null [cpu 0,2]",
            "second /bin/b > /dev/null",
            "# [2]",
            "check",
        ]
    );
    // only as many are held at once as the step could run at once
    assert!(!pipeline.gives_back(0, 1));
    assert!(pipeline.gives_back(0, 2));
    assert!(pipeline.gives_back(1, 1));
}
