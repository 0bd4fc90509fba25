//! Naming steps: once for a reader, once for a filename.

use vstd::prelude::*;

use crate::text;

verus! {

/// What an optional name says.
pub open spec fn name_of(name: Option<&str>) -> Option<Seq<char>> {
    match name {
        Some(name) => Some(name@),
        None => None,
    }
}

/// `[3](build)`, or `[3]` with no name.
pub open spec fn label_text(index: nat, name: Option<Seq<char>>) -> Seq<char> {
    match name {
        Some(name) => "["@ + text::decimal(index) + "]("@ + name + ")"@,
        None => "["@ + text::decimal(index) + "]"@,
    }
}

/// `3-build`, or `3` with no name.
pub open spec fn filename_text(index: nat, name: Option<Seq<char>>) -> Seq<char> {
    match name {
        Some(name) => text::decimal(index) + "-"@ + safe_text(name),
        None => text::decimal(index),
    }
}

/// Whether a character can stand in a filename as it is.
pub open spec fn is_safe(c: char) -> bool {
    text::is_alphanumeric(c) || c == '.' || c == '_' || c == '-'
}

/// Every character that cannot stand in a filename replaced by `_`.
pub open spec fn safe_text(name: Seq<char>) -> Seq<char> {
    name.map_values(|c: char| if is_safe(c) { c } else { '_' })
}

/// The file a command's stderr goes to: its step's filename, its own, and the
/// extension.
pub open spec fn log_text(
    s_idx: nat,
    step: Option<Seq<char>>,
    c_idx: nat,
    cmd: Option<Seq<char>>,
) -> Seq<char> {
    filename_text(s_idx, step) + "."@ + filename_text(c_idx, cmd) + ".stderr"@
}

/// What a step is called in the table and on the progress lines: its number, and
/// its name if it was given one.
pub fn label(index: usize, name: Option<&str>) -> (r: String)
    ensures
        r@ == label_text(index as nat, name_of(name)),
{
    let mut out = "[".to_owned();
    out.append(text::write_decimal(index as u128).as_str());
    match name {
        Some(name) => {
            out.append("](");
            out.append(name);
            out.append(")");
        },
        None => {
            out.append("]");
        },
    }
    out
}

/// The same thing as a path component, for the stderr file a command may leave
/// behind.
pub fn filename(index: usize, name: Option<&str>) -> (r: String)
    ensures
        r@ == filename_text(index as nat, name_of(name)),
{
    let mut out = text::write_decimal(index as u128);
    match name {
        Some(name) => {
            out.append("-");
            out.append(safe(name).as_str());
        },
        None => {},
    }
    out
}

/// `name` with everything but ASCII letters, digits, `.`, `_` and `-` replaced.
pub fn safe(name: &str) -> (r: String)
    ensures
        r@ == safe_text(name@),
        forall|i: int| 0 <= i < r@.len() ==> is_safe(#[trigger] r@[i]),
{
    let cs = text::chars(name);
    let mut out = String::new();
    for i in 0..cs.len()
        invariant
            cs@ == name@,
            out@ == safe_text(name@.take(i as int)),
    {
        let c = cs[i];
        let letter = ('a' <= c && c <= 'z') || ('A' <= c && c <= 'Z') || ('0' <= c && c <= '9');
        if letter || c == '.' || c == '_' || c == '-' {
            out.push(c);
        } else {
            out.push('_');
        }
        assert(out@ =~= safe_text(name@.take(i + 1)));
    }
    assert(name@.take(name@.len() as int) =~= name@);
    out
}

/// The name of the file `cmd`'s stderr goes to.
pub fn log_name(s_idx: usize, step: Option<&str>, c_idx: usize, cmd: Option<&str>) -> (r: String)
    ensures
        r@ == log_text(s_idx as nat, name_of(step), c_idx as nat, name_of(cmd)),
{
    let mut out = filename(s_idx, step);
    out.append(".");
    out.append(filename(c_idx, cmd).as_str());
    out.append(".stderr");
    out
}

/// A filename begins with its number, and what follows the number does not begin
/// with a digit.
proof fn lemma_filename_shape(index: nat, name: Option<Seq<char>>) -> (rest: Seq<char>)
    ensures
        filename_text(index, name) == text::decimal(index) + rest,
        rest.len() == 0 || rest[0] == '-',
{
    reveal_strlit("-");
    match name {
        Some(name) => {
            let rest = "-"@ + safe_text(name);
            assert(filename_text(index, Some(name)) =~= text::decimal(index) + rest);
            rest
        },
        None => {
            assert(text::decimal(index) =~= text::decimal(index) + Seq::<char>::empty());
            Seq::empty()
        },
    }
}

/// Two commands never share a stderr file, whatever the two are called: the file
/// tells their steps apart by number, and commands of one step by theirs.
pub proof fn logs_are_distinct(
    s1: nat,
    step1: Option<Seq<char>>,
    c1: nat,
    cmd1: Option<Seq<char>>,
    s2: nat,
    step2: Option<Seq<char>>,
    c2: nat,
    cmd2: Option<Seq<char>>,
)
    requires
        s1 == s2 ==> step1 == step2,
        log_text(s1, step1, c1, cmd1) == log_text(s2, step2, c2, cmd2),
    ensures
        s1 == s2,
        c1 == c2,
{
    let (r1, q1) = lemma_log_shape(s1, step1, c1, cmd1);
    let (r2, q2) = lemma_log_shape(s2, step2, c2, cmd2);
    text::decimal_reads_back(s1, s2, r1, r2);
    let head = filename_text(s1, step1) + "."@;
    lemma_cancel(head, text::decimal(c1) + q1, text::decimal(c2) + q2);
    text::decimal_reads_back(c1, c2, q1, q2);
}

proof fn lemma_cancel(head: Seq<char>, x: Seq<char>, y: Seq<char>)
    requires
        head + x == head + y,
    ensures
        x == y,
{
    assert(x =~= (head + x).skip(head.len() as int));
    assert(y =~= (head + y).skip(head.len() as int));
}

/// A log's name begins with its step's number, and after the step's filename and
/// a dot comes the command's.
proof fn lemma_log_shape(
    s: nat,
    step: Option<Seq<char>>,
    c: nat,
    cmd: Option<Seq<char>>,
) -> (rests: (Seq<char>, Seq<char>))
    ensures
        log_text(s, step, c, cmd) == text::decimal(s) + rests.0,
        rests.0.len() == 0 || !text::is_digit(rests.0[0]),
        log_text(s, step, c, cmd) == (filename_text(s, step) + "."@) + (text::decimal(c)
            + rests.1),
        rests.1.len() == 0 || !text::is_digit(rests.1[0]),
{
    reveal_strlit(".");
    reveal_strlit(".stderr");
    let r = lemma_filename_shape(s, step);
    let q = lemma_filename_shape(c, cmd);
    let inner = q + ".stderr"@;
    let after = r + ("."@ + filename_text(c, cmd) + ".stderr"@);
    assert(log_text(s, step, c, cmd) =~= text::decimal(s) + after);
    assert(log_text(s, step, c, cmd) =~= (filename_text(s, step) + "."@) + (text::decimal(c)
        + inner));
    (after, inner)
}

/// A label says the number and then the name, if there is one, as it was given.
pub proof fn a_label_says_the_number_and_the_name(index: nat, name: Seq<char>)
    ensures
        exists|digits: Seq<char>| #[trigger]
            text::spells(digits, index as int) && label_text(index, None) == seq!['['] + digits
                + seq![']'] && label_text(index, Some(name)) == seq!['['] + digits + seq![
                ']',
                '(',
            ] + name + seq![')'],
{
    reveal_strlit("[");
    reveal_strlit("]");
    reveal_strlit("](");
    reveal_strlit(")");
    let digits = text::decimal(index);
    text::a_number_reads_back(index);
    assert("["@ =~= seq!['[']);
    assert("]"@ =~= seq![']']);
    assert("]("@ =~= seq![']', '(']);
    assert(")"@ =~= seq![')']);
    assert(text::spells(digits, index as int));
}

/// A name keeps its length in a filename, every letter, digit, dot, underscore and
/// dash where it was, and nothing else of it.
pub proof fn a_safe_name_keeps_what_it_can(name: Seq<char>)
    ensures
        safe_text(name).len() == name.len(),
        forall|i: int|
            0 <= i < name.len() ==> {
                let c = name[i];
                let kept = 'a' <= c <= 'z' || 'A' <= c <= 'Z' || '0' <= c <= '9' || c == '.' || c
                    == '_' || c == '-';
                #[trigger] safe_text(name)[i] == if kept {
                    c
                } else {
                    '_'
                }
            },
{
}

/// A log is named after its step and its command: the number of each, the name of
/// each made safe after a dash if it has one, a dot between them, and the
/// extension.
pub proof fn a_log_is_named_after_its_step_and_its_command(
    s: nat,
    step: Seq<char>,
    c: nat,
    cmd: Seq<char>,
)
    ensures
        exists|x: Seq<char>, y: Seq<char>|
            #![trigger text::spells(x, s as int), text::spells(y, c as int)]
            {
                &&& text::spells(x, s as int)
                &&& text::spells(y, c as int)
                &&& log_text(s, None, c, None) == x + seq!['.'] + y + ".stderr"@
                &&& log_text(s, Some(step), c, Some(cmd)) == x + seq!['-'] + safe_text(step)
                    + seq!['.'] + (y + seq!['-'] + safe_text(cmd)) + ".stderr"@
                &&& log_text(s, Some(step), c, None) == x + seq!['-'] + safe_text(step) + seq!['.']
                    + y + ".stderr"@
                &&& log_text(s, None, c, Some(cmd)) == x + seq!['.'] + (y + seq!['-'] + safe_text(
                    cmd,
                )) + ".stderr"@
            },
{
    reveal_strlit("-");
    reveal_strlit(".");
    assert("-"@ =~= seq!['-']);
    assert("."@ =~= seq!['.']);
    text::a_number_reads_back(s);
    text::a_number_reads_back(c);
    assert(text::spells(text::decimal(s), s as int));
    assert(text::spells(text::decimal(c), c as int));
}

} // verus!
