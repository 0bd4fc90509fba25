//! What starting a command's process takes.

use vstd::prelude::*;

use crate::cmd::{Cmd, Output};
use crate::text;

verus! {

/// How a stream of a process is opened.
#[derive(Clone, Debug, PartialEq, Eq)]
pub enum Open {
    Null,
    Inherit,
    /// A file, in a directory that is made if it is not there. What it held is
    /// kept only by `append`.
    File { path: String, append: bool },
}

/// Everything a process is started with.
#[derive(Clone, Debug)]
pub struct Launch {
    pub program: String,
    pub args: Vec<String>,
    /// Variables it gets on top of everyone's, by key.
    pub env: Vec<(String, String)>,
    pub dir: Option<String>,
    pub stdout: Open,
    pub stderr: Open,
    /// The cpus it pins itself to, if any.
    pub cpus: Vec<usize>,
}

/// Whether opening a stream like this sends it where `out` says.
pub open spec fn opens(open: Open, out: Output) -> bool {
    match (out, open) {
        (Output::Null, Open::Null) => true,
        (Output::Inherit, Open::Inherit) => true,
        (Output::File(p), Open::File { path, append }) => path@ == p@ && !append,
        // it may not survive the run, but it is written like any other
        (Output::OnFailure(p), Open::File { path, append }) => path@ == p@ && !append,
        (Output::Append(p), Open::File { path, append }) => path@ == p@ && append,
        _ => false,
    }
}

/// Variables as they are, by key.
pub open spec fn pairs(env: Seq<(String, String)>) -> Seq<(Seq<char>, Seq<char>)> {
    Seq::new(env.len(), |i: int| (env[i].0@, env[i].1@))
}

/// What to say of a file that could not be opened.
pub open spec fn complaint_text(path: Seq<char>, append: bool) -> Seq<char> {
    if append {
        "failed to open "@ + path + " for append"@
    } else {
        "failed to create "@ + path
    }
}

/// What to say of a file that could not be opened.
pub fn cannot_open(path: &str, append: bool) -> (r: String)
    ensures
        r@ == complaint_text(path@, append),
{
    if append {
        let mut out = "failed to open ".to_owned();
        out.append(path);
        out.append(" for append");
        out
    } else {
        let mut out = "failed to create ".to_owned();
        out.append(path);
        out
    }
}

/// What to say of a program that could not be started.
pub fn cannot_spawn(program: &str) -> (r: String)
    ensures
        r@ == "failed to spawn "@ + program@,
{
    let mut out = "failed to spawn ".to_owned();
    out.append(program);
    out
}

impl Output {
    /// How a stream that goes here is opened.
    pub fn stdio(&self) -> (r: Open)
        ensures
            opens(r, *self),
    {
        match self {
            Output::Null => Open::Null,
            Output::Inherit => Open::Inherit,
            Output::File(path) | Output::OnFailure(path) => Open::File {
                path: path.clone(),
                append: false,
            },
            Output::Append(path) => Open::File { path: path.clone(), append: true },
        }
    }
}

impl Cmd {
    /// Everything its process is started with. The child pins itself on its way
    /// to exec rather than being wrapped in something that does, so the program
    /// and its arguments are exactly the command's own.
    pub fn spawn(&self) -> (r: Launch)
        ensures
            r.program@ == self.program@,
            text::texts(r.args@) == self.arg_words(),
            pairs(r.env@) == self.env@,
            r.dir == self.dir,
            opens(r.stdout, self.stdout),
            opens(r.stderr, self.stderr),
            r.cpus@ == self.cpus@,
    {
        let (program, args) = self.argv();
        let mut env: Vec<(String, String)> = Vec::new();
        let n = self.env.len();
        for i in 0..n
            invariant
                n == self.env@.len(),
                pairs(env@) == self.env@.take(i as int),
        {
            let ghost before = env@;
            env.push((self.env.key(i).to_owned(), self.env.value(i).to_owned()));
            assert(pairs(env@) =~= pairs(before).push(self.env@[i as int]));
            assert(pairs(env@) =~= self.env@.take(i + 1));
        }
        assert(self.env@.take(n as int) =~= self.env@);
        let mut cpus: Vec<usize> = Vec::new();
        for i in 0..self.cpus.len()
            invariant
                cpus@ == self.cpus@.take(i as int),
        {
            cpus.push(self.cpus[i]);
            assert(cpus@ =~= self.cpus@.take(i + 1));
        }
        assert(cpus@ =~= self.cpus@);
        Launch {
            program,
            args,
            env,
            dir: match &self.dir {
                Some(dir) => Some(dir.clone()),
                None => None,
            },
            stdout: self.stdout.stdio(),
            stderr: self.stderr.stdio(),
            cpus,
        }
    }
}

/// A stream is opened the way it was asked to be and no other: nowhere, wherever the
/// caller's goes, or into its file, which is added to only if that was asked for.
pub proof fn a_stream_is_opened_as_it_was_asked_to_be(open: Open, out: Output)
    requires
        opens(open, out),
    ensures
        out is Null <==> open is Null,
        out is Inherit <==> open is Inherit,
        open matches Open::File { path, append } ==> {
            &&& out.file() == Some(path@)
            &&& append <==> out is Append
        },
{
}

/// Variables are handed over as they are, in order.
pub proof fn variables_are_handed_over_as_they_are(env: Seq<(String, String)>, i: int)
    requires
        0 <= i < env.len(),
    ensures
        pairs(env).len() == env.len(),
        pairs(env)[i].0 == env[i].0@,
        pairs(env)[i].1 == env[i].1@,
{
}

/// A file that could not be opened is named in the complaint, which says what was to
/// be done with it.
pub proof fn a_complaint_names_the_file(path: Seq<char>)
    ensures
        complaint_text(path, false) == "failed to create "@ + path,
        complaint_text(path, true) == "failed to open "@ + path + " for append"@,
{
}

} // verus!
