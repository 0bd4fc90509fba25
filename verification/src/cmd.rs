//! Commands, built but not run.

use std::time::Duration;

use vstd::prelude::*;

use crate::execute::Status;
use crate::fields;
use crate::fields::{Fields, Tags};
use crate::path;
use crate::text;

verus! {

/// Where a stream goes.
#[derive(Clone, Debug, PartialEq, Eq)]
pub enum Output {
    Null,
    Inherit,
    File(String),
    Append(String),
    OnFailure(String),
}

impl Default for Output {
    fn default() -> (r: Output)
        ensures
            r is Null,
    {
        Output::Null
    }
}

impl Output {
    /// The file this goes to, if it goes to one.
    pub open spec fn file(self) -> Option<Seq<char>> {
        match self {
            Output::Null => None,
            Output::Inherit => None,
            Output::File(p) => Some(p@),
            Output::Append(p) => Some(p@),
            Output::OnFailure(p) => Some(p@),
        }
    }
}

/// Something that can stand in as the value of an option.
///
/// Each kind of value says for itself how it is written; there is no impl over
/// everything printable.
pub trait Value: Sized {
    /// How the value is written.
    spec fn written(self) -> Seq<char>;

    fn render(self) -> (r: String)
        ensures
            r@ == self.written(),
    ;
}

impl Value for &str {
    open spec fn written(self) -> Seq<char> {
        self@
    }

    fn render(self) -> (r: String) {
        self.to_owned()
    }
}

impl Value for String {
    open spec fn written(self) -> Seq<char> {
        self@
    }

    fn render(self) -> (r: String) {
        self
    }
}

impl Value for &String {
    open spec fn written(self) -> Seq<char> {
        self@
    }

    fn render(self) -> (r: String) {
        self.clone()
    }
}

impl Value for char {
    open spec fn written(self) -> Seq<char> {
        seq![self]
    }

    fn render(self) -> (r: String) {
        let mut out = String::new();
        out.push(self);
        assert(out@ =~= seq![self]);
        out
    }
}

impl Value for bool {
    open spec fn written(self) -> Seq<char> {
        if self {
            "true"@
        } else {
            "false"@
        }
    }

    fn render(self) -> (r: String) {
        if self {
            "true".to_owned()
        } else {
            "false".to_owned()
        }
    }
}

impl Value for u8 {
    open spec fn written(self) -> Seq<char> {
        text::decimal(self as nat)
    }

    fn render(self) -> (r: String) {
        text::write_decimal(self as u128)
    }
}

impl Value for u16 {
    open spec fn written(self) -> Seq<char> {
        text::decimal(self as nat)
    }

    fn render(self) -> (r: String) {
        text::write_decimal(self as u128)
    }
}

impl Value for u32 {
    open spec fn written(self) -> Seq<char> {
        text::decimal(self as nat)
    }

    fn render(self) -> (r: String) {
        text::write_decimal(self as u128)
    }
}

impl Value for u64 {
    open spec fn written(self) -> Seq<char> {
        text::decimal(self as nat)
    }

    fn render(self) -> (r: String) {
        text::write_decimal(self as u128)
    }
}

impl Value for usize {
    open spec fn written(self) -> Seq<char> {
        text::decimal(self as nat)
    }

    fn render(self) -> (r: String) {
        text::write_decimal(self as u128)
    }
}

impl Value for i8 {
    open spec fn written(self) -> Seq<char> {
        text::signed(self as int)
    }

    fn render(self) -> (r: String) {
        text::write_signed(self as i128)
    }
}

impl Value for i16 {
    open spec fn written(self) -> Seq<char> {
        text::signed(self as int)
    }

    fn render(self) -> (r: String) {
        text::write_signed(self as i128)
    }
}

impl Value for i32 {
    open spec fn written(self) -> Seq<char> {
        text::signed(self as int)
    }

    fn render(self) -> (r: String) {
        text::write_signed(self as i128)
    }
}

impl Value for i64 {
    open spec fn written(self) -> Seq<char> {
        text::signed(self as int)
    }

    fn render(self) -> (r: String) {
        text::write_signed(self as i128)
    }
}

impl Value for isize {
    open spec fn written(self) -> Seq<char> {
        text::signed(self as int)
    }

    fn render(self) -> (r: String) {
        text::write_signed(self as i128)
    }
}

/// An option: a flag on its own, or a flag with a value after it.
#[derive(Clone, Debug)]
pub struct Opt {
    pub flag: String,
    pub value: Option<String>,
}

/// The words one option comes to.
pub open spec fn opt_words(opt: Opt) -> Seq<Seq<char>> {
    match opt.value {
        Some(value) => seq![opt.flag@, value@],
        None => seq![opt.flag@],
    }
}

/// The words of every option, in order.
pub open spec fn opts_words(opts: Seq<Opt>) -> Seq<Seq<char>>
    decreases opts.len(),
{
    if opts.len() == 0 {
        Seq::empty()
    } else {
        opts_words(opts.drop_last()) + opt_words(opts.last())
    }
}

/// A command, built but not run.
///
/// The pieces are kept apart rather than in one argv so that the order they are
/// added in doesn't matter. Several of these tools take their query and target
/// as trailing positionals, and an option tacked on after them would be read as
/// another file.
#[derive(Clone, Debug)]
pub struct Cmd {
    pub name: Option<String>,
    pub program: String,
    /// How many cores this asks for. Resolved when the pipeline is built, since
    /// it can come from the step instead.
    pub cores: Option<usize>,
    /// The cpus it was given, filled in when it runs and only for as long as it
    /// held them.
    pub cpus: Vec<usize>,
    pub sub: Vec<String>,
    pub opts: Vec<Opt>,
    pub positionals: Vec<String>,
    pub env: Fields,
    pub dir: Option<String>,
    pub timeout: Option<Duration>,
    pub stdout: Output,
    pub stderr: Output,
    pub fields: Fields,
    pub tags: Tags,
    pub status: Status,
}

/// The words of a shell line for these variables: `KEY=value`, quoted where it
/// has to be.
pub open spec fn env_words(env: Seq<(Seq<char>, Seq<char>)>) -> Seq<Seq<char>> {
    Seq::new(env.len(), |i: int| env[i].0 + "="@ + quoted(env[i].1))
}

/// Each of these quoted for a shell.
pub open spec fn quoted_all(words: Seq<Seq<char>>) -> Seq<Seq<char>> {
    Seq::new(words.len(), |i: int| quoted(words[i]))
}

impl Cmd {
    /// Everything after the program: subcommands, then options, then
    /// positionals.
    pub open spec fn arg_words(self) -> Seq<Seq<char>> {
        text::texts(self.sub@) + opts_words(self.opts@) + text::texts(self.positionals@)
    }

    /// Whether this is `before` with one more subcommand.
    pub open spec fn adds_sub(self, before: Cmd, sub: Seq<char>) -> bool {
        &&& text::texts(self.sub@) == text::texts(before.sub@).push(sub)
        &&& self == (Cmd { sub: self.sub, ..before })
    }

    /// Whether this is `before` with one more option, of these words.
    pub open spec fn adds_opt(self, before: Cmd, words: Seq<Seq<char>>) -> bool {
        &&& opts_words(self.opts@) == opts_words(before.opts@) + words
        &&& self == (Cmd { opts: self.opts, ..before })
    }

    /// Whether this is `before` with one more positional.
    pub open spec fn adds_path(self, before: Cmd, path: Seq<char>) -> bool {
        &&& text::texts(self.positionals@) == text::texts(before.positionals@).push(path)
        &&& self == (Cmd { positionals: self.positionals, ..before })
    }

    /// What to call this command.
    pub open spec fn label_text(self) -> Seq<char> {
        match self.name {
            Some(name) => name@,
            None => match path::file_name_text(self.program@) {
                Some(file) => file,
                None => self.program@,
            },
        }
    }

    /// The environment, the program and its arguments, as a shell reads them.
    pub open spec fn body_text(self) -> Seq<char> {
        text::joined(
            env_words(self.env@) + seq![quoted(self.program@)] + quoted_all(self.arg_words()),
            " "@,
        )
    }

    /// The whole shell line.
    pub open spec fn line_text(self) -> Seq<char> {
        let placed = match self.dir {
            Some(dir) => "(cd "@ + quoted(dir@) + " && "@ + self.body_text() + ")"@,
            None => self.body_text(),
        };
        placed + after_space(redirect_text(self.stdout, ""@)) + after_space(
            redirect_text(self.stderr, "2"@),
        )
    }

    /// Whether the file its stderr went to is not worth keeping, once it went this
    /// way and left so much in it.
    pub open spec fn drops_log(self, status: Status, stderr_len: Option<u64>) -> bool {
        self.stderr is OnFailure && (!status.has_failed() || stderr_len is None || stderr_len->0
            == 0)
    }

    pub fn new(program: &str) -> (r: Cmd)
        ensures
            r.name is None,
            r.program@ == program@,
            r.cores is None,
            r.cpus@.len() == 0,
            r.sub@.len() == 0,
            r.opts@.len() == 0,
            r.positionals@.len() == 0,
            r.env@.len() == 0,
            r.dir is None,
            r.timeout is None,
            r.stdout is Null,
            r.stderr is Null,
            r.fields@.len() == 0,
            r.tags@.len() == 0,
            r.status is NotRun,
    {
        Cmd {
            name: None,
            program: program.to_owned(),
            cores: None,
            cpus: Vec::new(),
            sub: Vec::new(),
            opts: Vec::new(),
            positionals: Vec::new(),
            env: Fields::new(),
            dir: None,
            timeout: None,
            stdout: Output::Null,
            stderr: Output::Null,
            fields: Fields::new(),
            tags: Tags::new(),
            status: Status::NotRun,
        }
    }

    pub fn name(self, name: &str) -> (r: Cmd)
        ensures
            r.name matches Some(n) && n@ == name@,
            r == (Cmd { name: r.name, ..self }),
    {
        Cmd { name: Some(name.to_owned()), ..self }
    }

    /// Pin this command to `cores` physical cores, whichever ones are going.
    /// Overrides whatever its step asked for.
    pub fn cores(self, cores: usize) -> (r: Cmd)
        ensures
            r == (Cmd { cores: Some(cores), ..self }),
    {
        Cmd { cores: Some(cores), ..self }
    }

    /// A subcommand, like the `search` in `mmseqs search`. Call it more than
    /// once for tools that nest them.
    pub fn sub(self, sub: &str) -> (r: Cmd)
        ensures
            r.adds_sub(self, sub@),
    {
        let mut subs = self.sub;
        subs.push(sub.to_owned());
        assert(text::texts(subs@) =~= text::texts(self.sub@).push(sub@));
        Cmd { sub: subs, ..self }
    }

    /// An option that stands alone, like `--allow-overwrite`.
    pub fn flag(self, flag: &str) -> (r: Cmd)
        ensures
            r.adds_opt(self, seq![flag@]),
    {
        let mut opts = self.opts;
        opts.push(Opt { flag: flag.to_owned(), value: None });
        assert(opts@.drop_last() =~= self.opts@);
        assert(opts_words(opts@) =~= opts_words(self.opts@) + seq![flag@]);
        Cmd { opts, ..self }
    }

    /// An option and the value that follows it, like `-E 10`.
    pub fn arg(self, flag: &str, value: impl Value) -> (r: Cmd)
        ensures
            r.adds_opt(self, seq![flag@, value.written()]),
    {
        let mut opts = self.opts;
        opts.push(Opt { flag: flag.to_owned(), value: Some(value.render()) });
        assert(opts@.drop_last() =~= self.opts@);
        assert(opts_words(opts@) =~= opts_words(self.opts@) + seq![flag@, value.written()]);
        Cmd { opts, ..self }
    }

    /// A positional. These come out in the order they were added, after
    /// everything else.
    pub fn path(self, path: &str) -> (r: Cmd)
        ensures
            r.adds_path(self, path@),
    {
        let mut positionals = self.positionals;
        positionals.push(path.to_owned());
        assert(text::texts(positionals@) =~= text::texts(self.positionals@).push(path@));
        Cmd { positionals, ..self }
    }

    pub fn env(self, key: &str, value: impl Value) -> (r: Cmd)
        ensures
            text::increasing(fields::keys(r.env@)),
            fields::as_map(r.env@) == fields::as_map(self.env@).insert(key@, value.written()),
            r == (Cmd { env: r.env, ..self }),
    {
        let env = self.env.insert(key.to_owned(), value.render());
        Cmd { env, ..self }
    }

    pub fn dir(self, dir: &str) -> (r: Cmd)
        ensures
            r.dir matches Some(d) && d@ == dir@,
            r == (Cmd { dir: r.dir, ..self }),
    {
        Cmd { dir: Some(dir.to_owned()), ..self }
    }

    pub fn timeout(self, after: Duration) -> (r: Cmd)
        ensures
            r == (Cmd { timeout: Some(after), ..self }),
    {
        Cmd { timeout: Some(after), ..self }
    }

    pub fn stdout(self, out: Output) -> (r: Cmd)
        ensures
            r == (Cmd { stdout: out, ..self }),
    {
        Cmd { stdout: out, ..self }
    }

    pub fn stderr(self, out: Output) -> (r: Cmd)
        ensures
            r == (Cmd { stderr: out, ..self }),
    {
        Cmd { stderr: out, ..self }
    }

    pub fn stdout_to(self, path: &str) -> (r: Cmd)
        ensures
            r.stdout matches Output::File(p) && p@ == path@,
            r == (Cmd { stdout: r.stdout, ..self }),
    {
        self.stdout(Output::File(path.to_owned()))
    }

    pub fn stderr_to(self, path: &str) -> (r: Cmd)
        ensures
            r.stderr matches Output::File(p) && p@ == path@,
            r == (Cmd { stderr: r.stderr, ..self }),
    {
        self.stderr(Output::File(path.to_owned()))
    }

    pub fn field(self, key: &str, value: impl Value) -> (r: Cmd)
        ensures
            text::increasing(fields::keys(r.fields@)),
            fields::as_map(r.fields@) == fields::as_map(self.fields@).insert(
                key@,
                value.written(),
            ),
            r == (Cmd { fields: r.fields, ..self }),
    {
        let fields = self.fields.insert(key.to_owned(), value.render());
        Cmd { fields, ..self }
    }

    pub fn tag(self, tag: &str) -> (r: Cmd)
        ensures
            text::increasing(r.tags@),
            forall|t: Seq<char>| r.tags@.contains(t) <==> self.tags@.contains(t) || t == tag@,
            r == (Cmd { tags: r.tags, ..self }),
    {
        let tags = self.tags.insert(tag.to_owned());
        Cmd { tags, ..self }
    }

    /// What to call this command in a table or on the progress line: its name if
    /// it was given one, and otherwise the program it runs, with the path in
    /// front of it dropped. Not unique — the argv column is what tells two
    /// `mkdir`s apart.
    pub fn label(&self) -> (r: String)
        ensures
            r@ == self.label_text(),
    {
        match &self.name {
            Some(name) => name.clone(),
            None => match path::file_name(self.program.as_str()) {
                Some(file) => file,
                None => self.program.clone(),
            },
        }
    }

    pub fn status(&self) -> (r: &Status)
        ensures
            *r == self.status,
    {
        &self.status
    }

    pub fn fields(&self) -> (r: &Fields)
        ensures
            *r == self.fields,
    {
        &self.fields
    }

    pub fn tags(&self) -> (r: &Tags)
        ensures
            *r == self.tags,
    {
        &self.tags
    }

    pub fn stderr_path(&self) -> (r: Option<&str>)
        ensures
            r is Some <==> self.stderr.file() is Some,
            r matches Some(p) ==> self.stderr.file() == Some(p@),
    {
        match &self.stderr {
            Output::Null => None,
            Output::Inherit => None,
            Output::File(p) => Some(p.as_str()),
            Output::Append(p) => Some(p.as_str()),
            Output::OnFailure(p) => Some(p.as_str()),
        }
    }

    /// Everything after the program, in the order it gets handed to the shell.
    pub fn args(&self) -> (r: Vec<String>)
        ensures
            text::texts(r@) == self.arg_words(),
    {
        let mut out = text::copied(&self.sub);
        let ghost subs = text::texts(self.sub@);
        assert(opts_words(self.opts@.take(0)) =~= Seq::<Seq<char>>::empty());
        assert(text::texts(out@) =~= subs + opts_words(self.opts@.take(0)));
        for i in 0..self.opts.len()
            invariant
                text::texts(out@) == subs + opts_words(self.opts@.take(i as int)),
        {
            let ghost before = out@;
            out.push(self.opts[i].flag.clone());
            if let Some(value) = &self.opts[i].value {
                out.push(value.clone());
            }
            proof {
                let opt = self.opts@[i as int];
                assert(self.opts@.take(i + 1).drop_last() =~= self.opts@.take(i as int));
                assert(text::texts(out@) =~= text::texts(before) + opt_words(opt));
                assert(text::texts(out@) =~= subs + opts_words(self.opts@.take(i + 1)));
            }
        }
        assert(self.opts@.take(self.opts@.len() as int) =~= self.opts@);
        let mut last = text::copied(&self.positionals);
        let ghost front = out@;
        out.append(&mut last);
        assert(text::texts(out@) =~= text::texts(front) + text::texts(self.positionals@));
        out
    }

    /// The program and everything after it, as they get handed to exec.
    pub fn argv(&self) -> (r: (String, Vec<String>))
        ensures
            r.0@ == self.program@,
            text::texts(r.1@) == self.arg_words(),
    {
        (self.program.clone(), self.args())
    }

    /// The command as a shell line.
    ///
    /// A working directory becomes a subshell, so running it leaves your own
    /// shell where it was. The redirects sit outside it, because the files are
    /// opened before the child moves anywhere, so a relative one lands in the
    /// same place either way.
    ///
    /// Pinning is not in here. The child sets its own affinity rather than
    /// being wrapped in something that sets it, so there is nothing on the
    /// command line to write down; the cpus column says where it ran instead.
    pub fn line(&self) -> (r: String)
        ensures
            r@ == self.line_text(),
    {
        let mut parts: Vec<String> = Vec::new();
        let n = self.env.len();
        for i in 0..n
            invariant
                n == self.env@.len(),
                text::texts(parts@) == env_words(self.env@.take(i as int)),
        {
            let mut word = self.env.key(i).to_owned();
            word.append("=");
            word.append(quote(self.env.value(i)).as_str());
            let ghost before = parts@;
            parts.push(word);
            proof {
                assert(text::texts(parts@) =~= text::texts(before).push(word@));
                assert(env_words(self.env@.take(i + 1)) =~= env_words(
                    self.env@.take(i as int),
                ).push(word@));
            }
        }
        assert(self.env@.take(self.env@.len() as int) =~= self.env@);

        let (program, args) = self.argv();
        parts.push(quote(program.as_str()));
        let ghost front = env_words(self.env@) + seq![quoted(self.program@)];
        assert(text::texts(parts@) =~= front);
        for i in 0..args.len()
            invariant
                text::texts(args@) == self.arg_words(),
                text::texts(parts@) == front + quoted_all(self.arg_words().take(i as int)),
        {
            let ghost before = parts@;
            parts.push(quote(args[i].as_str()));
            proof {
                let word = text::texts(args@)[i as int];
                assert(text::texts(parts@) =~= text::texts(before).push(quoted(word)));
                assert(quoted_all(self.arg_words().take(i + 1)) =~= quoted_all(
                    self.arg_words().take(i as int),
                ).push(quoted(word)));
                assert(text::texts(parts@) =~= front + quoted_all(self.arg_words().take(i + 1)));
            }
        }
        assert(self.arg_words().take(self.arg_words().len() as int) =~= self.arg_words());

        let mut line = text::join(&parts, " ");
        if let Some(dir) = &self.dir {
            let mut placed = "(cd ".to_owned();
            placed.append(quote(dir.as_str()).as_str());
            placed.append(" && ");
            placed.append(line.as_str());
            placed.append(")");
            line = placed;
        }
        if let Some(redirect) = redirect(&self.stdout, "") {
            line.append(" ");
            line.append(redirect.as_str());
        }
        assert(line@ =~= line@ + Seq::<char>::empty());
        if let Some(redirect) = redirect(&self.stderr, "2") {
            line.append(" ");
            line.append(redirect.as_str());
        }
        assert(line@ =~= self.line_text());
        line
    }

    /// Record how the command went. Gives back the stderr file that was only
    /// being kept in case of failure and has nothing worth keeping in it:
    /// `stderr_len` is how long that file came out, if it could be asked.
    pub fn report(&mut self, status: Status, stderr_len: Option<u64>) -> (drop: Option<String>)
        ensures
            *final(self) == (Cmd { status: status, ..*old(self) }),
            drop is Some <==> old(self).stderr is OnFailure && !(status.has_failed() && (
            stderr_len matches Some(n) && n > 0)),
            drop matches Some(p) ==> old(self).stderr.file() == Some(p@),
            drop is Some <==> old(self).drops_log(status, stderr_len),
    {
        let drop = match &self.stderr {
            Output::OnFailure(path) => {
                let full = match stderr_len {
                    Some(n) => n > 0,
                    None => false,
                };
                if status.failed() && full {
                    None
                } else {
                    Some(path.clone())
                }
            },
            _ => None,
        };
        self.status = status;
        drop
    }
}

/// The order the pieces of a command are added in does not matter: a positional,
/// an option and a subcommand come to the same arguments whichever way round they
/// were given, with the subcommand first and the positional last.
pub proof fn pieces_can_be_added_in_any_order(
    cmd: Cmd,
    path: Seq<char>,
    opt: Seq<Seq<char>>,
    sub: Seq<char>,
    one: (Cmd, Cmd, Cmd),
    other: (Cmd, Cmd, Cmd),
)
    requires
        one.0.adds_path(cmd, path) && one.1.adds_opt(one.0, opt) && one.2.adds_sub(one.1, sub),
        other.0.adds_sub(cmd, sub) && other.1.adds_opt(other.0, opt) && other.2.adds_path(
            other.1,
            path,
        ),
    ensures
        one.2.arg_words() == other.2.arg_words(),
        one.2.arg_words() == text::texts(cmd.sub@).push(sub) + (opts_words(cmd.opts@) + opt)
            + text::texts(cmd.positionals@).push(path),
        one.2.line_text() == other.2.line_text(),
{
}

/// A redirect for this stream, unless it goes wherever the caller's does.
pub open spec fn redirect_text(out: Output, fd: Seq<char>) -> Option<Seq<char>> {
    match out {
        Output::Inherit => None,
        Output::Null => Some(fd + "> "@ + "/dev/null"@),
        Output::File(p) => Some(fd + "> "@ + quoted(p@)),
        Output::OnFailure(p) => Some(fd + "> "@ + quoted(p@)),
        Output::Append(p) => Some(fd + ">> "@ + quoted(p@)),
    }
}

/// Something that may follow on a line, with the space in front of it.
pub open spec fn after_space(part: Option<Seq<char>>) -> Seq<char> {
    match part {
        Some(part) => " "@ + part,
        None => Seq::empty(),
    }
}

/// How a shell line sends a stream where `out` says, `fd` being its number.
pub fn redirect(out: &Output, fd: &str) -> (r: Option<String>)
    ensures
        r is Some <==> redirect_text(*out, fd@) is Some,
        r matches Some(s) ==> redirect_text(*out, fd@) == Some(s@),
{
    let mut s = fd.to_owned();
    match out {
        Output::Inherit => {
            return None;
        },
        Output::Null => {
            s.append("> ");
            s.append("/dev/null");
        },
        // OnFailure still writes to the file, it just may not survive the run
        Output::File(p) | Output::OnFailure(p) => {
            s.append("> ");
            s.append(quote(p.as_str()).as_str());
        },
        Output::Append(p) => {
            s.append(">> ");
            s.append(quote(p.as_str()).as_str());
        },
    }
    Some(s)
}

/// Whether a shell reads this character as itself wherever it stands.
pub open spec fn is_plain(c: char) -> bool {
    text::is_alphanumeric(c) || c == '_' || c == '-' || c == '.' || c == '/' || c == '=' || c
        == ':' || c == '+' || c == ',' || c == '@' || c == '%' || c == '^'
}

/// What one character becomes inside single quotes.
pub open spec fn escaped_char(c: char) -> Seq<char> {
    if c == '\'' {
        seq!['\'', '\\', '\'', '\'']
    } else {
        seq![c]
    }
}

/// What a text becomes inside single quotes.
pub open spec fn escaped(arg: Seq<char>) -> Seq<char>
    decreases arg.len(),
{
    if arg.len() == 0 {
        Seq::empty()
    } else {
        escaped(arg.drop_last()) + escaped_char(arg.last())
    }
}

/// A word as a shell has to be given it.
pub open spec fn quoted(arg: Seq<char>) -> Seq<char> {
    if arg.len() > 0 && forall|i: int| 0 <= i < arg.len() ==> is_plain(#[trigger] arg[i]) {
        arg
    } else {
        seq!['\''] + escaped(arg) + seq!['\'']
    }
}

fn plain(c: char) -> (r: bool)
    ensures
        r == is_plain(c),
{
    ('a' <= c && c <= 'z') || ('A' <= c && c <= 'Z') || ('0' <= c && c <= '9') || c == '_' || c
        == '-' || c == '.' || c == '/' || c == '=' || c == ':' || c == '+' || c == ',' || c == '@'
        || c == '%' || c == '^'
}

/// `arg` as a shell has to be given it: as it is if a shell would read it the
/// same way, and in single quotes otherwise.
pub fn quote(arg: &str) -> (r: String)
    ensures
        r@ == quoted(arg@),
{
    let cs = text::chars(arg);
    let mut all: bool = cs.len() > 0;
    let mut out = String::new();
    out.push('\'');
    assert(out@ =~= seq!['\''] + escaped(arg@.take(0)));
    for i in 0..cs.len()
        invariant
            cs@ == arg@,
            all == (cs@.len() > 0 && forall|j: int| 0 <= j < i ==> is_plain(#[trigger] arg@[j])),
            out@ == seq!['\''] + escaped(arg@.take(i as int)),
    {
        let c = cs[i];
        all = all && plain(c);
        let ghost before = out@;
        if c == '\'' {
            out.push('\'');
            out.push('\\');
            out.push('\'');
            out.push('\'');
        } else {
            out.push(c);
        }
        proof {
            assert(out@ =~= before + escaped_char(c));
            assert(arg@.take(i + 1).drop_last() =~= arg@.take(i as int));
            assert(out@ =~= seq!['\''] + escaped(arg@.take(i + 1)));
        }
    }
    assert(arg@.take(arg@.len() as int) =~= arg@);
    if all {
        arg.to_owned()
    } else {
        out.push('\'');
        assert(out@ =~= quoted(arg@));
        out
    }
}

/// Every whole number is written so that it reads back as itself, whichever kind
/// of number it is: no two are written alike, and nothing of one is lost.
pub proof fn every_whole_number_reads_back(a: u8, b: u16, c: u32, d: u64, e: usize)
    ensures
        text::spells(a.written(), a as int),
        text::spells(b.written(), b as int),
        text::spells(c.written(), c as int),
        text::spells(d.written(), d as int),
        text::spells(e.written(), e as int),
{
    text::a_number_reads_back(a as nat);
    text::a_number_reads_back(b as nat);
    text::a_number_reads_back(c as nat);
    text::a_number_reads_back(d as nat);
    text::a_number_reads_back(e as nat);
}

/// Whether this is how a number that may be below nought is written.
pub open spec fn spells_signed(text: Seq<char>, n: int) -> bool {
    if n < 0 {
        text.len() > 1 && text[0] == '-' && text::spells(
            text.subrange(1, text.len() as int),
            -n,
        )
    } else {
        text::spells(text, n)
    }
}

/// The same of the numbers that may be below nought.
pub proof fn every_signed_number_reads_back(a: i8, b: i16, c: i32, d: i64, e: isize)
    ensures
        spells_signed(a.written(), a as int),
        spells_signed(b.written(), b as int),
        spells_signed(c.written(), c as int),
        spells_signed(d.written(), d as int),
        spells_signed(e.written(), e as int),
{
    text::a_signed_number_reads_back(a as int);
    text::a_signed_number_reads_back(b as int);
    text::a_signed_number_reads_back(c as int);
    text::a_signed_number_reads_back(d as int);
    text::a_signed_number_reads_back(e as int);
}

/// Text is written as it is, a character as itself, and a truth value as the word
/// for it.
pub proof fn words_are_written_as_they_are(a: &str, b: String, c: &String, d: char, e: bool)
    ensures
        a.written() == a@,
        b.written() == b@,
        c.written() == c@,
        d.written().len() == 1 && d.written()[0] == d,
        e ==> e.written() == "true"@,
        !e ==> e.written() == "false"@,
{
}

/// One more option puts its flag at the end of the options, and its value right
/// after the flag if it has one.
pub proof fn an_option_is_its_flag_and_then_its_value(opts: Seq<Opt>, opt: Opt)
    ensures
        opts_words(Seq::empty()) == Seq::<Seq<char>>::empty(),
        opt.value is None ==> opts_words(opts.push(opt)) == opts_words(opts).push(opt.flag@),
        opt.value matches Some(value) ==> opts_words(opts.push(opt)) == opts_words(opts).push(
            opt.flag@,
        ).push(value@),
{
    assert(opts.push(opt).drop_last() =~= opts);
    match opt.value {
        Some(value) => {
            assert(opts_words(opts) + seq![opt.flag@, value@] =~= opts_words(opts).push(
                opt.flag@,
            ).push(value@));
        },
        None => {
            assert(opts_words(opts) + seq![opt.flag@] =~= opts_words(opts).push(opt.flag@));
        },
    }
}

/// Everything a command was given is handed on, once and unchanged: its
/// subcommands come first, its positionals last, each in the order they were
/// added, and its options between.
pub proof fn nothing_given_to_a_command_is_lost(cmd: Cmd, i: int)
    ensures
        ({
            let words = cmd.arg_words();
            let subs = cmd.sub@.len();
            let paths = cmd.positionals@.len();
            let first = words.len() - paths;
            &&& words.len() == subs + opts_words(cmd.opts@).len() + paths
            &&& 0 <= i < subs ==> words[i] == cmd.sub@[i]@
            &&& 0 <= i < paths ==> words[first + i] == cmd.positionals@[i]@
            &&& words.subrange(subs as int, first) == opts_words(cmd.opts@)
        }),
{
    let words = cmd.arg_words();
    let subs = cmd.sub@.len() as int;
    let first = words.len() - cmd.positionals@.len();
    assert(words.subrange(subs, first) =~= opts_words(cmd.opts@));
}

/// Adding a piece leaves every word there was where it stood among the others: a
/// subcommand goes in after the subcommands, an option before the positionals, and
/// a positional at the end. Nothing else about the command changes.
pub proof fn one_more_piece_goes_in_its_place(
    cmd: Cmd,
    with_sub: Cmd,
    with_opt: Cmd,
    with_path: Cmd,
    sub: Seq<char>,
    opt: Seq<Seq<char>>,
    path: Seq<char>,
)
    requires
        with_sub.adds_sub(cmd, sub),
        with_opt.adds_opt(cmd, opt),
        with_path.adds_path(cmd, path),
    ensures
        ({
            let words = cmd.arg_words();
            let subs = cmd.sub@.len() as int;
            let first = words.len() - cmd.positionals@.len();
            &&& with_sub.arg_words() == words.insert(subs, sub)
            &&& with_opt.arg_words() == words.take(first) + opt + words.skip(first)
            &&& with_path.arg_words() == words.push(path)
        }),
        with_sub.program == cmd.program && with_sub.opts == cmd.opts && with_sub.positionals
            == cmd.positionals && with_sub.env == cmd.env && with_sub.dir == cmd.dir,
        with_opt.program == cmd.program && with_opt.sub == cmd.sub && with_opt.positionals
            == cmd.positionals && with_opt.env == cmd.env && with_opt.dir == cmd.dir,
        with_path.program == cmd.program && with_path.sub == cmd.sub && with_path.opts == cmd.opts
            && with_path.env == cmd.env && with_path.dir == cmd.dir,
{
    let words = cmd.arg_words();
    let subs = cmd.sub@.len() as int;
    let first = words.len() - cmd.positionals@.len();
    assert(text::texts(cmd.sub@).len() == subs);
    assert(text::texts(with_sub.sub@).len() == subs + 1);
    assert(with_sub.arg_words() =~= words.insert(subs, sub));
    assert(with_opt.arg_words() =~= words.take(first) + opt + words.skip(first));
    assert(with_path.arg_words() =~= words.push(path));
}

/// A command goes by the name it was given, and one without a name by the last
/// piece of the path to its program, or all of that if it has no name in it.
pub proof fn a_command_goes_by_its_name_or_its_program(cmd: Cmd, dir: Seq<char>, file: Seq<char>)
    requires
        file.len() > 0,
        file != seq!['.'],
        file != seq!['.', '.'],
        forall|i: int| 0 <= i < file.len() ==> #[trigger] file[i] != '/',
    ensures
        cmd.name matches Some(name) ==> cmd.label_text() == name@,
        cmd.name is None && cmd.program@ == file ==> cmd.label_text() == file,
        cmd.name is None && cmd.program@ == dir.push('/') + file ==> cmd.label_text() == file,
        cmd.name is None && path::file_name_text(cmd.program@) is None ==> cmd.label_text()
            == cmd.program@,
{
    path::the_last_piece_is_the_name(dir, file);
}

/// Whether a shell makes something of this character outside quotes, or might.
pub open spec fn means_something(c: char) -> bool {
    ||| c <= ' '
    ||| c == '!' || c == '"' || c == '#' || c == '$' || c == '&' || c == '\'' || c == '(' || c
        == ')' || c == '*'
    ||| c == ';' || c == '<' || c == '>' || c == '?' || c == '[' || c == '\\' || c == ']'
    ||| c == '`' || c == '{' || c == '|' || c == '}' || c == '~'
    ||| c > '~'
}

/// Only what means nothing to a shell is ever left unquoted, and all of that is.
pub proof fn only_what_means_nothing_is_left_unquoted(c: char)
    ensures
        is_plain(c) <==> !means_something(c),
{
}

/// A word is left alone exactly when there is something in it and none of it means
/// anything to a shell; any other is put in single quotes, with every quote in it
/// closed, escaped and opened again, and everything else as it is.
pub proof fn a_word_is_quoted_only_if_it_has_to_be(word: Seq<char>)
    ensures
        ({
            let bare = word.len() > 0 && forall|i: int|
                0 <= i < word.len() ==> !means_something(#[trigger] word[i]);
            &&& bare ==> quoted(word) == word
            &&& !bare ==> {
                &&& quoted(word).len() >= 2
                &&& quoted(word)[0] == '\''
                &&& quoted(word).last() == '\''
            }
            &&& !bare && (forall|i: int| 0 <= i < word.len() ==> #[trigger] word[i] != '\'')
                ==> quoted(word) == seq!['\''] + word + seq!['\'']
        }),
{
    if word.len() > 0 {
        if forall|i: int| 0 <= i < word.len() ==> is_plain(#[trigger] word[i]) {
            assert forall|i: int| 0 <= i < word.len() implies !means_something(
                #[trigger] word[i],
            ) by {
                assert(is_plain(word[i]));
            }
        } else {
            let i = choose|i: int| 0 <= i < word.len() && !is_plain(#[trigger] word[i]);
            assert(means_something(word[i]));
        }
    }
    if forall|i: int| 0 <= i < word.len() ==> #[trigger] word[i] != '\'' {
        lemma_nothing_to_escape(word);
    }
}

proof fn lemma_nothing_to_escape(word: Seq<char>)
    requires
        forall|i: int| 0 <= i < word.len() ==> #[trigger] word[i] != '\'',
    ensures
        escaped(word) == word,
    decreases word.len(),
{
    if word.len() > 0 {
        let most = word.drop_last();
        assert forall|i: int| 0 <= i < most.len() implies #[trigger] most[i] != '\'' by {
            assert(most[i] == word[i]);
        }
        lemma_nothing_to_escape(most);
        assert(word[word.len() - 1] != '\'');
        assert(most + seq![word.last()] =~= word);
    } else {
        assert(escaped(word) =~= word);
    }
}

/// A stream that goes to a file says which, and one that does not has none to say.
pub proof fn a_stream_knows_its_file(path: String)
    ensures
        Output::File(path).file() == Some(path@),
        Output::Append(path).file() == Some(path@),
        Output::OnFailure(path).file() == Some(path@),
        Output::Null.file() is None,
        Output::Inherit.file() is None,
{
}

/// A line says where a stream went unless it went wherever the caller's does: the
/// number of the stream, one sign to start the file afresh and two to add to it,
/// and the file as a shell has to be given it.
pub proof fn a_redirect_names_the_file(path: String, fd: Seq<char>)
    ensures
        redirect_text(Output::Inherit, fd) is None,
        redirect_text(Output::Null, fd) == Some(fd + seq!['>', ' '] + "/dev/null"@),
        redirect_text(Output::File(path), fd) == Some(fd + seq!['>', ' '] + quoted(path@)),
        redirect_text(Output::OnFailure(path), fd) == Some(fd + seq!['>', ' '] + quoted(path@)),
        redirect_text(Output::Append(path), fd) == Some(fd + seq!['>', '>', ' '] + quoted(path@)),
{
    reveal_strlit("> ");
    reveal_strlit(">> ");
    assert("> "@ =~= seq!['>', ' ']);
    assert(">> "@ =~= seq!['>', '>', ' ']);
}

/// A log that is only kept in case of failure is kept exactly when the command failed
/// and left something in it. A file that was asked for is never dropped.
pub proof fn a_log_is_kept_only_for_a_failure_with_something_to_say(
    cmd: Cmd,
    status: Status,
    stderr_len: Option<u64>,
)
    ensures
        !(cmd.stderr is OnFailure) ==> !cmd.drops_log(status, stderr_len),
        cmd.stderr is OnFailure ==> (!cmd.drops_log(status, stderr_len) <==> status.has_failed()
            && (stderr_len matches Some(n) && n > 0)),
{
}

} // verus!
