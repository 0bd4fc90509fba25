//! Building commands, and the lines they come to.

use std::time::Duration;

use pail::execute::{Status, Timing};
use pail::{Closure, Cmd, Output, Secs, Value};

/// What a list of keyed values holds, for comparing.
fn pairs(fields: &pail::Fields) -> Vec<(String, String)> {
    (0..fields.len())
        .map(|i| (fields.key(i).to_string(), fields.value(i).to_string()))
        .collect()
}

fn names(tags: &pail::Tags) -> Vec<String> {
    (0..tags.len()).map(|i| tags.tag(i).to_string()).collect()
}

fn pair(key: &str, value: &str) -> (String, String) {
    (key.to_string(), value.to_string())
}

fn timing(exit: i32) -> Timing {
    Timing {
        wall_s: Secs { nanos: 0 },
        user_s: Some(Secs { nanos: 0 }),
        sys_s: Some(Secs { nanos: 0 }),
        max_rss_kb: Some(0),
        exit,
    }
}

#[test]
fn positionals_come_last_however_they_were_added() {
    // the whole reason a Cmd keeps its pieces apart: several of these tools
    // read a trailing option as another input file
    let cmd = Cmd::new("/bin/mmseqs")
        .path("query.fa")
        .arg("-s", "7.5")
        .path("target.fa")
        .flag("--quiet")
        .sub("search");

    assert_eq!(
        cmd.args(),
        ["search", "-s", "7.5", "--quiet", "query.fa", "target.fa"]
    );
}

#[test]
fn options_keep_the_order_they_were_given_in() {
    let cmd = Cmd::new("/x").arg("-a", 1).flag("-b").arg("-c", 3);
    assert_eq!(cmd.args(), ["-a", "1", "-b", "-c", "3"]);
}

#[test]
fn subcommands_nest_in_front() {
    let cmd = Cmd::new("/x").sub("outer").sub("inner").flag("-q");
    assert_eq!(cmd.args(), ["outer", "inner", "-q"]);
}

#[test]
fn pieces_come_to_the_same_line_in_any_order() {
    let one = Cmd::new("/x").path("p").arg("-a", 1).sub("s");
    let other = Cmd::new("/x").sub("s").arg("-a", 1).path("p");
    assert_eq!(one.args(), ["s", "-a", "1", "p"]);
    assert_eq!(one.args(), other.args());
    assert_eq!(one.line(), other.line());
}

#[test]
fn pinning_stays_out_of_the_argv() {
    let mut cmd = Cmd::new("/bin/nail").sub("search");
    cmd.cpus = vec![0, 2];
    let (program, args) = cmd.argv();

    assert_eq!(program, "/bin/nail");
    assert_eq!(args, ["search"]);
    assert_eq!(cmd.line(), "/bin/nail search > /dev/null 2> /dev/null");
}

#[test]
fn a_line_carries_its_environment_in_front() {
    let line = Cmd::new("/usr/bin/wc")
        .env("LC_ALL", "C")
        .flag("-l")
        .stdout(Output::Inherit)
        .stderr(Output::Inherit)
        .line();

    assert_eq!(line, "LC_ALL=C /usr/bin/wc -l");
}

#[test]
fn variables_come_in_order_and_quoted_where_they_have_to_be() {
    let line = Cmd::new("/my tools/wc")
        .env("Z", "it's")
        .env("A", "")
        .env("A", "two words")
        .stdout(Output::Inherit)
        .stderr(Output::Inherit)
        .line();

    assert_eq!(line, r"A='two words' Z='it'\''s' '/my tools/wc'");
}

#[test]
fn a_working_directory_becomes_a_subshell_with_the_redirects_outside_it() {
    // the files are opened before the child moves anywhere, so a relative
    // redirect lands in the same place whether or not you paste the cd
    let line = Cmd::new("/usr/bin/wc")
        .flag("-l")
        .path("data.txt")
        .dir("/tmp/work")
        .stdout_to("out.txt")
        .stderr(Output::Inherit)
        .line();

    assert_eq!(line, "(cd /tmp/work && /usr/bin/wc -l data.txt) > out.txt");
}

#[test]
fn everything_on_a_line_is_quoted_where_it_has_to_be() {
    let line = Cmd::new("/my tools/x")
        .env("MODE", "a b")
        .path("it's")
        .path("2")
        .dir("/tmp/my work")
        .stdout(Output::Append("o ut".into()))
        .stderr_to("e&rr")
        .line();

    assert_eq!(
        line,
        r"(cd '/tmp/my work' && MODE='a b' '/my tools/x' 'it'\''s' 2) >> 'o ut' 2> 'e&rr'"
    );
}

#[test]
fn a_line_says_where_each_stream_went() {
    let base = || Cmd::new("/x").stderr(Output::Inherit);

    assert_eq!(base().line(), "/x > /dev/null");
    assert_eq!(base().stdout(Output::Inherit).line(), "/x");
    assert_eq!(base().stdout_to("o").line(), "/x > o");
    assert_eq!(base().stdout(Output::Append("o".into())).line(), "/x >> o");
    // OnFailure still writes to the file, it just may not survive the run
    assert_eq!(
        base().stdout(Output::OnFailure("o".into())).line(),
        "/x > o"
    );
    assert_eq!(
        Cmd::new("/x").stderr_to("e").line(),
        "/x > /dev/null 2> e",
        "stdout comes before stderr"
    );
}

#[test]
fn a_label_falls_back_to_the_program_with_the_path_dropped() {
    assert_eq!(Cmd::new("/home/jack/tools/bin/nail").label(), "nail");
    assert_eq!(Cmd::new("mkdir").label(), "mkdir");
    assert_eq!(Cmd::new("/x").name("prep").label(), "prep");
}

#[test]
fn a_program_with_no_name_of_its_own_goes_by_all_of_it() {
    assert_eq!(Cmd::new("/").label(), "/");
    assert_eq!(Cmd::new("a/..").label(), "a/..");
    assert_eq!(Cmd::new("bin/nail/").label(), "nail");
    assert_eq!(Cmd::new("bin/nail/.").label(), "nail");
}

#[test]
fn every_kind_of_value_is_written_the_way_it_prints() {
    let text = String::from("s");
    assert_eq!("a".render(), "a");
    assert_eq!(text.clone().render(), "s");
    assert_eq!((&text).render(), "s");
    assert_eq!('c'.render(), "c");
    assert_eq!(true.render(), "true");
    assert_eq!(false.render(), "false");
    assert_eq!(255u8.render(), "255");
    assert_eq!(65535u16.render(), "65535");
    assert_eq!(7u32.render(), "7");
    assert_eq!(u64::MAX.render(), "18446744073709551615");
    assert_eq!(0usize.render(), "0");
    assert_eq!((-128i8).render(), "-128");
    assert_eq!((-1i16).render(), "-1");
    assert_eq!(i32::MIN.render(), "-2147483648");
    assert_eq!(i64::MIN.render(), "-9223372036854775808");
    assert_eq!(12isize.render(), "12");
}

#[test]
fn fields_are_sorted_by_key_and_the_last_value_stands() {
    let cmd = Cmd::new("/x")
        .field("zed", 1)
        .field("alpha", 2)
        .field("zed", 3);
    assert_eq!(
        pairs(cmd.fields()),
        [pair("alpha", "2"), pair("zed", "3")]
    );
    assert_eq!(cmd.fields().get("zed"), Some("3"));
    assert_eq!(cmd.fields().get("z"), None);

    let closure = Closure::new("c").field("b", 'y').field("a", 'x');
    assert_eq!(pairs(closure.fields()), [pair("a", "x"), pair("b", "y")]);
}

#[test]
fn tags_are_sorted_and_kept_once() {
    let cmd = Cmd::new("/x").tag("slow").tag("first").tag("slow");
    assert_eq!(names(cmd.tags()), ["first", "slow"]);
    assert!(cmd.tags().contains("first"));
    assert!(!cmd.tags().contains("fir"));

    let closure = Closure::new("c").tag("b").tag("a").tag("b");
    assert_eq!(names(closure.tags()), ["a", "b"]);
}

#[test]
fn keys_sort_the_way_bytes_do() {
    let mut cmd = Cmd::new("/x");
    let keys = ["é", "z", "A", "a", "aa", "", "~", "日", "𐍈", "\u{ffff}"];
    for key in keys {
        cmd = cmd.field(key, 0);
    }
    let mut sorted: Vec<String> = keys.iter().map(|k| k.to_string()).collect();
    sorted.sort();
    let held: Vec<String> = pairs(cmd.fields()).into_iter().map(|(k, _)| k).collect();
    assert_eq!(held, sorted);
}

#[test]
fn a_new_command_has_nothing_but_a_program() {
    let cmd = Cmd::new("/x");
    assert!(matches!(cmd.status(), Status::NotRun));
    assert_eq!(cmd.args().len(), 0);
    assert_eq!(cmd.stdout, Output::Null);
    assert_eq!(cmd.stderr, Output::default());
    assert_eq!(cmd.stderr_path(), None);
    assert_eq!(cmd.cores, None);
    assert_eq!(cmd.timeout, None);
    assert_eq!(cmd.dir, None);
}

#[test]
fn a_command_says_where_its_stderr_goes() {
    assert_eq!(Cmd::new("/x").stderr_to("e").stderr_path(), Some("e"));
    let cmd = Cmd::new("/x").stderr(Output::Append("f".into()));
    assert_eq!(cmd.stderr_path(), Some("f"));
    let cmd = Cmd::new("/x").stderr(Output::OnFailure("g".into()));
    assert_eq!(cmd.stderr_path(), Some("g"));
    let cmd = Cmd::new("/x").stderr(Output::Inherit);
    assert_eq!(cmd.stderr_path(), None);
}

#[test]
fn a_limit_and_a_core_count_are_kept() {
    let cmd = Cmd::new("/x").timeout(Duration::from_secs(60)).cores(2);
    assert_eq!(cmd.timeout, Some(Duration::from_secs(60)));
    assert_eq!(cmd.cores, Some(2));
}

#[test]
fn a_failure_with_something_to_say_keeps_its_stderr() {
    let mut cmd = Cmd::new("/x").stderr(Output::OnFailure("e.stderr".into()));
    let drop = cmd.report(Status::Finished(timing(1)), Some(16));

    assert_eq!(drop, None, "a failure with output should be kept");
    assert!(matches!(cmd.status(), Status::Finished(t) if t.exit == 1));
}

#[test]
fn a_failure_with_nothing_to_say_leaves_no_file_behind() {
    let mut cmd = Cmd::new("/x").stderr(Output::OnFailure("e.stderr".into()));
    let drop = cmd.report(Status::Failed("could not spawn".into()), Some(0));

    assert_eq!(
        drop.as_deref(),
        Some("e.stderr"),
        "an empty log is not worth keeping"
    );
    assert!(matches!(cmd.status(), Status::Failed(why) if why == "could not spawn"));
}

#[test]
fn a_failure_whose_log_cannot_be_asked_leaves_no_file_behind() {
    let mut cmd = Cmd::new("/x").stderr(Output::OnFailure("e.stderr".into()));
    let drop = cmd.report(Status::TimedOut(timing(143)), None);
    assert_eq!(drop.as_deref(), Some("e.stderr"));
}

#[test]
fn a_command_that_worked_leaves_no_file_behind() {
    let mut cmd = Cmd::new("/x").stderr(Output::OnFailure("e.stderr".into()));
    let drop = cmd.report(Status::Finished(timing(0)), Some(18));

    assert_eq!(
        drop.as_deref(),
        Some("e.stderr"),
        "nothing failed, so there is nothing to read"
    );
}

#[test]
fn a_stderr_the_caller_asked_for_is_kept_whatever_happened() {
    let mut cmd = Cmd::new("/x").stderr(Output::File("e.stderr".into()));
    let drop = cmd.report(Status::Finished(timing(0)), Some(0));

    assert_eq!(drop, None, "only OnFailure files are tidied away");
}
