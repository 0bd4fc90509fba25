//! The summary table.

use pail::columns::Columns;
use pail::cpu::{list, list_width};
use pail::layout::{render, write_row, Cell};
use pail::metrics::{status_word, step_metrics, Metrics, METRICS};
use pail::{
    Closure, Cmd, Headers, Machine, Mode, OnError, Output, PipelineBuilder, Secs, Status, Step,
    Table, Timing,
};

/// Fixed numbers so a rendered table is the same every time: 2.25s of CPU
/// over 1.5s of wall is 150%, and 2048 KiB is 2.00MiB.
fn timing(exit: i32) -> Timing {
    Timing {
        wall_s: Secs { nanos: 1_500_000_000 },
        user_s: Some(Secs { nanos: 2_000_000_000 }),
        sys_s: Some(Secs { nanos: 250_000_000 }),
        max_rss_kb: Some(2048),
        exit,
    }
}

fn cmd(program: &str, name: &str) -> Cmd {
    Cmd::new(program)
        .name(name)
        .stdout(Output::Inherit)
        .stderr(Output::Inherit)
}

fn finish(step: &mut Step, index: usize) {
    step.index = Some(index);
    step.elapsed_s = Some(Secs { nanos: 1_500_000_000 });
    for j in 0..step.cmds().len() {
        step.set_status(j, Status::Finished(timing(0)));
    }
    for j in 0..step.closures().len() {
        // a closure only ever has a wall clock behind it
        step.set_status(
            j,
            Status::Finished(Timing {
                user_s: None,
                sys_s: None,
                max_rss_kb: None,
                ..timing(0)
            }),
        );
    }
}

/// A step of one that collapses, then a batch of two carrying a field.
fn steps() -> Vec<Step> {
    let mut setup = Step::serial(vec![cmd("/mkdir", "mkdir")]).name("setup");
    finish(&mut setup, 1);

    let mut burn = Step::batched(
        2,
        vec![
            cmd("/a", "a").field("job", 1),
            cmd("/b", "b").field("job", 2),
        ],
    )
    .name("burn");
    finish(&mut burn, 2);

    vec![setup, burn]
}

/// Drive the table the way a pipeline would, and give back what its file would
/// say.
fn write(mode: Mode, steps: &[Step]) -> String {
    let mut table = Table::new("runs.tbl").mode(mode);
    let mut file;

    table.start(steps);
    file = table.text().to_string();
    for step in steps {
        if table.step_done(step) {
            file = table.text().to_string();
        }
    }
    if table.finish() {
        file = table.text().to_string();
    }
    file
}

fn header_lines(text: &str) -> usize {
    text.lines().filter(|l| l.starts_with("# step")).count()
}

#[test]
fn a_block_lays_out_under_its_header() {
    let expected = "\
# step     cmd   job wall(s) user(s) sys(s) cpu(%) max_rss exit status argv
# -------- ----- --- ------- ------- ------ ------ ------- ---- ------ ----
[1](setup) mkdir -   1.50    2.00    0.25   150%   2.00MiB 0    ok     /mkdir
[2](burn)  -     -   1.50    4.00    0.50   300%   2.00MiB -    -      -
        || a     1   1.50    2.00    0.25   150%   2.00MiB 0    ok     /a
        || b     2   1.50    2.00    0.25   150%   2.00MiB 0    ok     /b
";
    assert_eq!(write(Mode::default(), &steps()), expected);
}

#[test]
fn a_step_of_one_keeps_the_first_column_instead_of_a_line_of_its_own() {
    let text = write(Mode::default(), &steps());
    let rows: Vec<&str> = text.lines().skip(2).collect();

    assert_eq!(rows.len(), 4, "one collapsed step plus a step row and two commands");
    assert!(rows[0].starts_with("[1](setup) mkdir"), "{}", rows[0]);
    assert!(rows[1].starts_with("[2](burn)  -"), "{}", rows[1]);
}

#[test]
fn a_batch_marks_its_commands_differently_from_a_serial_one() {
    let mut serial = Step::serial(vec![cmd("/a", "a"), cmd("/b", "b")]).name("s");
    finish(&mut serial, 1);
    let mut batched = Step::batched(2, vec![cmd("/a", "a"), cmd("/b", "b")]).name("b");
    finish(&mut batched, 2);

    let text = write(Mode::default(), &[serial, batched]);
    assert_eq!(text.matches(" | ").count(), 2, "{text}");
    assert_eq!(text.matches("|| ").count(), 2, "{text}");
}

#[test]
fn a_step_that_never_ran_has_no_numbers_to_report() {
    let mut step = Step::serial(vec![cmd("/a", "a"), cmd("/b", "b")]).name("s");
    step.index = Some(1);

    let text = write(Mode::default(), &[step]);
    let step_row = text.lines().nth(2).unwrap();

    assert!(step_row.starts_with("[1](s)"), "{step_row}");
    assert!(
        !step_row.contains('%'),
        "no command finished, so there is no cpu figure: {step_row}"
    );
}

#[test]
fn blocks_with_one_header_writes_it_before_anything_runs() {
    let mut table = Table::new("runs.tbl").mode(Mode::default());
    table.start(&steps());

    let text = table.text();
    assert_eq!(header_lines(text), 1);
    assert_eq!(text.lines().count(), 2, "header and separator, no rows yet");
}

#[test]
fn one_header_serves_every_block() {
    assert_eq!(header_lines(&write(Mode::default(), &steps())), 1);
}

#[test]
fn a_header_on_every_block_means_one_per_step() {
    let steps = steps();
    let text = write(
        Mode::Blocks {
            headers: Headers::Each,
        },
        &steps,
    );
    assert_eq!(header_lines(&text), steps.len());
}

#[test]
fn a_block_with_its_own_header_is_padded_to_its_own_contents() {
    let expected = "\
# step     cmd   job wall(s) user(s) sys(s) cpu(%) max_rss exit status argv
# -------- ----- --- ------- ------- ------ ------ ------- ---- ------ ----
[1](setup) mkdir -   1.50    2.00    0.25   150%   2.00MiB 0    ok     /mkdir
# step    cmd job wall(s) user(s) sys(s) cpu(%) max_rss exit status argv
# ------- --- --- ------- ------- ------ ------ ------- ---- ------ ----
[2](burn) -   -   1.50    4.00    0.50   300%   2.00MiB -    -      -
       || a   1   1.50    2.00    0.25   150%   2.00MiB 0    ok     /a
       || b   2   1.50    2.00    0.25   150%   2.00MiB 0    ok     /b
";
    let mode = Mode::Blocks {
        headers: Headers::Each,
    };
    assert_eq!(write(mode, &steps()), expected);
}

#[test]
fn whole_holds_everything_back_until_the_run_is_over() {
    let steps = steps();

    let mut table = Table::new("runs.tbl").mode(Mode::Whole);
    table.start(&steps);
    for step in &steps {
        assert!(!table.step_done(step));
    }
    assert_eq!(table.text(), "", "nothing should reach the file before finish");

    assert!(table.finish());
    let text = table.text();
    assert_eq!(header_lines(text), 1);
    assert_eq!(text.lines().count(), 6);
}

#[test]
fn ragged_gives_each_block_only_the_columns_its_own_commands_use() {
    let text = write(Mode::Ragged, &steps());
    let heads: Vec<&str> = text.lines().filter(|l| l.starts_with("# step")).collect();

    assert_eq!(heads.len(), 2, "ragged blocks each need their own header");
    assert!(!heads[0].contains("job"), "setup has no fields: {}", heads[0]);
    assert!(heads[1].contains("job"), "burn does: {}", heads[1]);
}

#[test]
fn every_block_shares_the_header_widths_as_a_floor() {
    // the second step's names are shorter, but its columns stay lined up
    // with the first block rather than closing up
    let text = write(Mode::default(), &steps());
    let lines: Vec<&str> = text.lines().collect();

    let column_of = |line: &str, n: usize| line.match_indices("1.50").nth(n).map(|(i, _)| i);
    assert_eq!(column_of(lines[2], 0), column_of(lines[3], 0));
    assert_eq!(column_of(lines[2], 0), column_of(lines[4], 0));
}

#[test]
fn a_value_wider_than_its_heading_widens_the_column() {
    let mut step = Step::serial(vec![cmd("/x", "an-unusually-long-command-name")]).name("s");
    finish(&mut step, 1);

    let text = write(Mode::default(), &[step]);
    let lines: Vec<&str> = text.lines().collect();
    let head = lines[0].find("cmd").unwrap();

    assert!(
        lines[2][head..].starts_with("an-unusually-long-command-name"),
        "{}",
        lines[2]
    );
    assert!(lines[2].contains("1.50"), "the numbers still follow: {}", lines[2]);
}

#[test]
fn argv_is_the_last_column_and_never_padded() {
    let text = write(Mode::default(), &steps());
    for line in text.lines().skip(2) {
        assert_eq!(line.trim_end(), line, "trailing pad on: {line:?}");
    }
    // the separator underlines the label rather than the whole column
    assert!(text.lines().nth(1).unwrap().ends_with("----"));
}

#[test]
fn columns_are_sorted_and_asked_for_only_once() {
    let step = Step::serial(vec![
        cmd("/a", "a").field("zed", 1).field("alpha", 2).tag("slow"),
        cmd("/b", "b").field("alpha", 3).tag("slow").tag("first"),
    ]);
    let columns = Columns::of(&[step]);

    assert_eq!(columns.keys, ["alpha", "zed"]);
    assert_eq!(columns.tags, ["first", "slow"]);
}

#[test]
fn a_tag_reads_as_present_or_absent_rather_than_as_a_value() {
    let mut step = Step::serial(vec![cmd("/a", "a").tag("setup"), cmd("/b", "b")]).name("s");
    finish(&mut step, 1);

    let text = write(Mode::default(), &[step]);
    let lines: Vec<&str> = text.lines().collect();
    let at = lines[0].find("setup").unwrap();

    assert_eq!(&lines[3][at..at + 1], "x");
    assert_eq!(&lines[4][at..at + 1], "-");
}

#[test]
fn a_row_with_nothing_measured_is_all_dashes() {
    let cells = Metrics::default().cells();
    assert_eq!(cells.len(), METRICS.len());
    for cell in &cells {
        assert_eq!(cell.text, "-");
    }
}

#[test]
fn status_and_exit_answer_different_questions() {
    // a command that never started has no exit code beside its "fail", which
    // is how it tells itself apart from one that started and failed
    assert_eq!(status_word(&Status::NotRun), "-");
    assert_eq!(status_word(&Status::Skipped), "skip");
    assert_eq!(status_word(&Status::Failed("x".into())), "fail");
    assert_eq!(status_word(&Status::TimedOut(timing(143))), "time");
    assert_eq!(status_word(&Status::Finished(timing(0))), "ok");
    assert_eq!(status_word(&Status::Finished(timing(1))), "fail");
}

#[test]
fn a_skipped_step_still_gets_a_row() {
    let mut step = Step::serial(vec![cmd("/a", "a")])
        .name("never")
        .on_error(OnError::Continue);
    step.index = Some(1);
    step.set_status(0, Status::Skipped);

    let text = write(Mode::default(), &[step]);
    let row = text.lines().nth(2).unwrap();

    assert!(row.starts_with("[1](never) a"), "{row}");
    assert!(row.contains("skip"), "{row}");
}

#[test]
fn a_step_of_one_closure_collapses_and_shares_its_columns_with_commands() {
    let mut setup = Step::serial(vec![cmd("/mkdir", "mkdir").field("job", 1)]).name("setup");
    finish(&mut setup, 1);

    // `shard` is the closure's alone, so the column can only come from it;
    // `job` is shared, so the two have to agree about where it sits
    let mut check = Step::from_closures(vec![Closure::new("verify")
        .field("job", 2)
        .field("shard", 7)])
    .name("check");
    finish(&mut check, 2);

    // the closure row carries a wall clock and a verdict, and dashes every
    // column a thread has no answer for
    let expected = "\
# step     cmd    job shard wall(s) user(s) sys(s) cpu(%) max_rss exit status argv
# -------- ------ --- ----- ------- ------- ------ ------ ------- ---- ------ ----
[1](setup) mkdir  1   -     1.50    2.00    0.25   150%   2.00MiB 0    ok     /mkdir
[2](check) verify 2   7     1.50    -       -      -      -       -    ok     -
";

    assert_eq!(write(Mode::default(), &[setup, check]), expected);
}

#[test]
fn a_step_of_two_closures_gets_a_line_of_its_own() {
    let mut step =
        Step::from_closures(vec![Closure::new("first"), Closure::new("second")]).name("check");
    finish(&mut step, 1);

    let text = write(Mode::default(), &[step]);
    let rows: Vec<&str> = text.lines().skip(2).collect();

    assert_eq!(rows.len(), 3, "a step row and two closures: {rows:?}");
    assert!(rows[0].starts_with("[1](check)"), "{}", rows[0]);
    // serial, so the same marker a serial command step gets
    assert!(rows[1].trim_start().starts_with("| first"), "{}", rows[1]);
    assert!(rows[2].trim_start().starts_with("| second"), "{}", rows[2]);

    // the step's own row has a wall clock but no cpu to add up
    let step_row = rows[0];
    assert!(step_row.contains("1.50"), "{step_row}");
}

#[test]
fn a_pinned_run_gets_a_column_for_the_cpus() {
    let pinned = cmd("/a", "a").cores(2);
    let mut step = Step::serial(vec![pinned, cmd("/b", "b")]).name("s");
    step.index = Some(1);

    let mut table = Table::new("runs.tbl");
    table.start(std::slice::from_ref(&step));
    finish(&mut step, 1);
    step.take_result(
        0,
        Some(pail::execute::Ran {
            status: Status::Finished(timing(0)),
            cpus: vec![0, 2],
        }),
        Secs { nanos: 3_000_000_000 },
    );
    table.step_done(&step);

    let expected = "\
# step cmd wall(s) user(s) sys(s) cpu(%) max_rss exit status cpus  argv
# ---- --- ------- ------- ------ ------ ------- ---- ------ ----- ----
[1](s) -   3.00    4.00    0.50   150%   2.00MiB -    -      -     -
     | a   1.50    2.00    0.25   150%   2.00MiB 0    ok     0,2   /a
     | b   1.50    2.00    0.25   150%   2.00MiB 0    ok     -     /b
";
    assert_eq!(table.text(), expected);
    assert_eq!(table.path(), "runs.tbl");
}

#[test]
fn a_step_with_something_unmeasured_has_no_total_but_still_a_peak() {
    let mut step = Step::serial(vec![cmd("/a", "a"), cmd("/b", "b"), cmd("/c", "c")]).name("s");
    finish(&mut step, 1);
    step.set_status(
        1,
        Status::Finished(Timing {
            user_s: None,
            max_rss_kb: None,
            ..timing(0)
        }),
    );
    step.set_status(2, Status::Failed("could not start".into()));

    let text = write(Mode::default(), &[step]);
    let rows: Vec<Vec<&str>> = text
        .lines()
        .skip(2)
        .map(|l| l.split_whitespace().collect())
        .collect();

    assert_eq!(rows[0][2..], ["1.50", "-", "0.50", "-", "2.00MiB", "-", "-", "-"]);
    assert_eq!(rows[2][2..], ["1.50", "-", "0.25", "-", "-", "0", "ok", "/b"]);
    assert_eq!(rows[3][2..], ["-", "-", "-", "-", "-", "-", "fail", "/c"]);
}

#[test]
fn an_empty_step_gets_a_line_of_its_own() {
    let mut step = Step::serial(vec![]).name("s");
    step.index = Some(1);
    let text = write(Mode::default(), &[step]);
    assert_eq!(
        text.lines().nth(2),
        Some("[1](s) -   -       -       -      -      -       -    -      -")
    );
    assert_eq!(text.lines().count(), 3);
}

#[test]
fn a_floor_from_other_columns_is_no_floor() {
    let header = vec!["a".to_string(), "b".to_string()];
    let row = || vec![vec![Cell::right("x"), Cell::left("y")]];

    let plain = render(&header, &row(), true, &None);
    assert_eq!(plain, "# a b\n# - -\n  x y\n");
    assert_eq!(render(&header, &row(), true, &Some(vec![9])), plain);
    assert_eq!(
        render(&header, &row(), false, &Some(vec![5, 1])),
        "    x y\n"
    );
    assert_eq!(
        render(&header, &row(), true, &Some(vec![5, 9])),
        "# a   b\n# --- -\n    x y\n"
    );
}

#[test]
fn width_is_counted_in_characters() {
    let mut step = Step::serial(vec![cmd("/x", "čč"), cmd("/y", "ab")]).name("é");
    finish(&mut step, 1);
    let text = write(Mode::default(), &[step]);
    let columns: Vec<usize> = text
        .lines()
        .skip(2)
        .map(|l| l.chars().position(|c| c == '1').unwrap_or(0))
        .collect();
    assert_eq!(columns[1], columns[2]);
}

#[test]
fn the_last_cell_of_a_row_needs_no_width() {
    let cells = || vec![Cell::left("a"), Cell::right("b"), Cell::left("rest")];

    let mut out = String::from("before\n");
    write_row(&mut out, &cells(), &vec![3, 2]);
    assert_eq!(out, "before\na    b rest\n");

    // and goes by none it is given
    let mut wide = String::from("before\n");
    write_row(&mut wide, &cells(), &vec![3, 2, 9]);
    assert_eq!(wide, out);
}

#[test]
fn the_cpus_column_goes_by_the_cores_asked_for() {
    for (cores, reserved) in [(1, 4), (2, 5), (3, 8), (12, 35)] {
        assert_eq!(list_width(cores).max(4), reserved);
        let steps = [
            Step::serial(vec![cmd("/a", "a").cores(1), cmd("/b", "b").cores(cores)]),
            Step::serial(vec![cmd("/c", "c")]),
        ];
        let columns = Columns::of(&steps);
        let widths = columns.measure(&steps);
        assert_eq!(widths.len(), columns.header().len());
        assert_eq!(widths[widths.len() - 2], reserved);

        // building changes nothing of that
        let built = steps
            .into_iter()
            .fold(PipelineBuilder::new(), PipelineBuilder::step)
            .no_stderr()
            .build("now", &Machine { cores: 12 })
            .unwrap();
        assert_eq!(columns.measure(&built.steps)[widths.len() - 2], reserved);
    }
    assert_eq!(list_width(0), 0);
    assert_eq!(list_width(usize::MAX), usize::MAX);
}

#[test]
fn cpus_are_listed_with_commas() {
    assert_eq!(list(&[]), "");
    assert_eq!(list(&[7]), "7");
    assert_eq!(list(&[0, 2, 11]), "0,2,11");
}

#[test]
fn a_step_adds_up_as_far_as_numbers_go() {
    let huge = |nanos: i128| {
        Status::Finished(Timing {
            user_s: Some(Secs { nanos }),
            ..timing(0)
        })
    };
    let mut step = Step::serial(vec![cmd("/a", "a"), cmd("/b", "b")]);
    step.set_status(0, huge(i128::MAX));
    step.set_status(1, huge(1));
    assert_eq!(step_metrics(&step).user_s, Some(Secs { nanos: i128::MAX }));
    step.set_status(0, huge(i128::MIN));
    step.set_status(1, huge(-1));
    assert_eq!(step_metrics(&step).user_s, Some(Secs { nanos: i128::MIN }));
    step.set_status(1, huge(1));
    assert_eq!(step_metrics(&step).user_s, Some(Secs { nanos: i128::MIN + 1 }));
}
