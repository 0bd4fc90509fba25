//! How a shell reads a line, as far as the lines a command comes to go: words
//! with spaces between them, single quotes, backslashes outside those, redirects,
//! and a subshell that goes somewhere else first.
//!
//! Nothing here runs. It is what a command's line has to survive.

use vstd::prelude::*;

use crate::cmd;
use crate::cmd::{Cmd, Output};
use crate::text;

verus! {

/// What a shell makes of a stretch of a line.
pub enum Token {
    Word(Seq<char>),
    /// `>` or `>>`, with the number of the stream in front of it if there is one.
    Redirect { fd: Seq<char>, append: bool },
    /// `(`
    Open,
    /// `)`
    Close,
    /// `&&`
    And,
}

/// What the shell makes of the next character.
pub enum Reading {
    /// It stands for itself, or means something.
    Plain,
    /// It is inside single quotes, where only a quote means anything.
    Quoted,
    /// It comes after a backslash, where nothing does.
    Escaped,
    /// It comes after a `>`, where another makes it `>>`.
    Redirecting,
    /// It comes after a `&`, where only another will do.
    Joining,
}

/// How far through a line a shell has got.
pub struct Scan {
    /// What it has read.
    pub tokens: Seq<Token>,
    /// The word it is in the middle of.
    pub current: Option<Seq<char>>,
    /// Whether nothing in that word was quoted or escaped.
    pub bare: bool,
    pub reading: Reading,
}

/// Between words, with this read.
pub open spec fn between(tokens: Seq<Token>) -> Scan {
    Scan { tokens, current: None, bare: true, reading: Reading::Plain }
}

/// The word being read, with this on the end.
pub open spec fn longer(current: Option<Seq<char>>, more: Seq<char>) -> Option<Seq<char>> {
    match current {
        Some(word) => Some(word + more),
        None => Some(more),
    }
}

pub open spec fn all_digits(text: Seq<char>) -> bool {
    forall|i: int| 0 <= i < text.len() ==> text::is_digit(#[trigger] text[i])
}

impl Scan {
    /// What has been read if the word stops here.
    pub open spec fn done(self) -> Seq<Token> {
        match self.current {
            Some(word) => self.tokens.push(Token::Word(word)),
            None => self.tokens,
        }
    }

    /// What a `>` comes to. A number right up against it is which stream it
    /// redirects; any other word stops there.
    pub open spec fn redirected(self) -> Seq<Token> {
        match self.current {
            Some(word) if self.bare && all_digits(word) => self.tokens.push(
                Token::Redirect { fd: word, append: false },
            ),
            _ => self.done().push(Token::Redirect { fd: Seq::empty(), append: false }),
        }
    }
}

/// After one more character where it can mean something, or nothing if it is one
/// that means something else than what the lines here are made of.
pub open spec fn scan_plain(scan: Scan, c: char) -> Option<Scan> {
    if c == ' ' {
        Some(between(scan.done()))
    } else if c == '\'' {
        Some(
            Scan {
                current: longer(scan.current, Seq::empty()),
                bare: false,
                reading: Reading::Quoted,
                ..scan
            },
        )
    } else if c == '\\' {
        Some(
            Scan {
                current: longer(scan.current, Seq::empty()),
                bare: false,
                reading: Reading::Escaped,
                ..scan
            },
        )
    } else if c == '>' {
        Some(Scan { reading: Reading::Redirecting, ..between(scan.redirected()) })
    } else if c == '&' {
        Some(Scan { reading: Reading::Joining, ..between(scan.done()) })
    } else if c == '(' && scan.current is None {
        Some(between(scan.tokens.push(Token::Open)))
    } else if c == ')' {
        Some(between(scan.done().push(Token::Close)))
    } else if cmd::is_plain(c) {
        Some(Scan { current: longer(scan.current, seq![c]), reading: Reading::Plain, ..scan })
    } else {
        None
    }
}

/// After one more character.
pub open spec fn scan_char(scan: Scan, c: char) -> Option<Scan> {
    match scan.reading {
        Reading::Quoted => if c == '\'' {
            Some(Scan { reading: Reading::Plain, ..scan })
        } else {
            Some(Scan { current: longer(scan.current, seq![c]), ..scan })
        },
        Reading::Escaped => Some(
            Scan { current: longer(scan.current, seq![c]), reading: Reading::Plain, ..scan },
        ),
        Reading::Redirecting => match scan.tokens.last() {
            Token::Redirect { fd, .. } if c == '>' => Some(
                between(scan.tokens.drop_last().push(Token::Redirect { fd, append: true })),
            ),
            // `>&` and `>(` are signs of their own
            _ => if c == '&' || c == '(' {
                None
            } else {
                scan_plain(scan, c)
            },
        },
        Reading::Joining => if c == '&' {
            Some(between(scan.tokens.push(Token::And)))
        } else {
            None
        },
        Reading::Plain => scan_plain(scan, c),
    }
}

/// After all of these characters.
pub open spec fn scan_all(scan: Scan, line: Seq<char>) -> Option<Scan>
    decreases line.len(),
{
    if line.len() == 0 {
        Some(scan)
    } else {
        match scan_all(scan, line.drop_last()) {
            Some(before) => scan_char(before, line.last()),
            None => None,
        }
    }
}

/// What a shell reads on a line, or nothing if it would do something else with it
/// or is left waiting for more.
pub open spec fn tokens(line: Seq<char>) -> Option<Seq<Token>> {
    match scan_all(between(Seq::empty()), line) {
        Some(scan) if scan.reading is Plain => Some(scan.done()),
        _ => None,
    }
}

/// These as words.
pub open spec fn words(said: Seq<Seq<char>>) -> Seq<Token> {
    Seq::new(said.len(), |i: int| Token::Word(said[i]))
}

/// The words that set these variables.
pub open spec fn assignments(env: Seq<(Seq<char>, Seq<char>)>) -> Seq<Seq<char>> {
    Seq::new(env.len(), |i: int| env[i].0 + "="@ + env[i].1)
}

/// Whether a shell reads all of this as itself.
pub open spec fn all_plain(text: Seq<char>) -> bool {
    forall|i: int| 0 <= i < text.len() ==> cmd::is_plain(#[trigger] text[i])
}

/// A command's variables, its program and its arguments.
pub open spec fn body_words(cmd: Cmd) -> Seq<Seq<char>> {
    assignments(cmd.env@) + seq![cmd.program@] + cmd.arg_words()
}

/// What sends a stream where `out` says, `fd` being its number.
pub open spec fn redirect_tokens(out: Output, fd: Seq<char>) -> Seq<Token> {
    match out {
        Output::Inherit => Seq::empty(),
        Output::Null => seq![Token::Redirect { fd, append: false }, Token::Word("/dev/null"@)],
        Output::File(p) => seq![Token::Redirect { fd, append: false }, Token::Word(p@)],
        Output::OnFailure(p) => seq![Token::Redirect { fd, append: false }, Token::Word(p@)],
        Output::Append(p) => seq![Token::Redirect { fd, append: true }, Token::Word(p@)],
    }
}

/// What a command's line says: its words, in a subshell that goes to its
/// directory first if it has one, and outside that where each stream goes.
pub open spec fn line_tokens(cmd: Cmd) -> Seq<Token> {
    let body = words(body_words(cmd));
    let placed = match cmd.dir {
        Some(dir) => seq![
            Token::Open,
            Token::Word("cd"@),
            Token::Word(dir@),
            Token::And,
        ] + body + seq![Token::Close],
        None => body,
    };
    placed + redirect_tokens(cmd.stdout, ""@) + redirect_tokens(cmd.stderr, "2"@)
}

proof fn lemma_scan_on(scan: Scan, a: Seq<char>, b: Seq<char>)
    requires
        scan_all(scan, a) is Some,
    ensures
        scan_all(scan, a + b) == scan_all(scan_all(scan, a)->0, b),
    decreases b.len(),
{
    if b.len() == 0 {
        assert(a + b =~= a);
    } else {
        lemma_scan_on(scan, a, b.drop_last());
        assert((a + b).drop_last() =~= a + b.drop_last());
        assert((a + b).last() == b.last());
    }
}

proof fn lemma_scan_one(scan: Scan, c: char)
    ensures
        scan_all(scan, seq![c]) == scan_char(scan, c),
{
    assert(seq![c].drop_last() =~= Seq::<char>::empty());
    assert(scan_all(scan, Seq::empty()) == Some(scan));
}

/// Plain text reads as itself.
proof fn lemma_plain(scan: Scan, arg: Seq<char>)
    requires
        scan.reading is Plain,
        all_plain(arg),
        arg.len() > 0 || scan.current is Some,
    ensures
        scan_all(scan, arg) == Some(Scan { current: longer(scan.current, arg), ..scan }),
    decreases arg.len(),
{
    if arg.len() == 0 {
        assert(scan.current->0 + arg =~= scan.current->0);
    } else {
        let most = arg.drop_last();
        assert(most.push(arg.last()) =~= arg);
        assert(cmd::is_plain(arg[arg.len() - 1]));
        if most.len() > 0 || scan.current is Some {
            assert forall|i: int| 0 <= i < most.len() implies cmd::is_plain(
                #[trigger] most[i],
            ) by {
                assert(most[i] == arg[i]);
            }
            lemma_plain(scan, most);
            match scan.current {
                Some(word) => {
                    assert(word + most + seq![arg.last()] =~= word + arg);
                },
                None => {
                    assert(most + seq![arg.last()] =~= arg);
                },
            }
        } else {
            assert(most =~= Seq::<char>::empty());
            assert(arg =~= seq![arg.last()]);
            lemma_scan_one(scan, arg.last());
        }
    }
}

/// What is escaped for single quotes reads as itself inside them.
proof fn lemma_escaped(scan: Scan, arg: Seq<char>)
    requires
        scan.reading is Quoted,
        scan.current is Some,
        !scan.bare,
    ensures
        scan_all(scan, cmd::escaped(arg)) == Some(
            Scan { current: longer(scan.current, arg), ..scan },
        ),
    decreases arg.len(),
{
    let word = scan.current->0;
    if arg.len() == 0 {
        assert(word + arg =~= word);
    } else {
        let most = arg.drop_last();
        let c = arg.last();
        lemma_escaped(scan, most);
        let mid = Scan { current: Some(word + most), ..scan };
        lemma_scan_on(scan, cmd::escaped(most), cmd::escaped_char(c));
        assert(word + most + seq![c] =~= word + arg);
        if c == '\'' {
            let e = cmd::escaped_char(c);
            assert(e =~= seq!['\''] + seq!['\\'] + seq!['\''] + seq!['\'']);
            let closed = Scan { reading: Reading::Plain, ..mid };
            assert(word + most + Seq::<char>::empty() =~= word + most);
            let slashed = Scan { reading: Reading::Escaped, ..mid };
            let said = Scan {
                current: Some(word + most + seq![c]),
                reading: Reading::Plain,
                ..mid
            };
            assert(word + most + seq![c] + Seq::<char>::empty() =~= word + most + seq![c]);
            lemma_scan_one(mid, '\'');
            lemma_scan_one(closed, '\\');
            lemma_scan_one(slashed, '\'');
            lemma_scan_one(said, '\'');
            lemma_scan_on(mid, seq!['\''], seq!['\\']);
            lemma_scan_on(mid, seq!['\''] + seq!['\\'], seq!['\'']);
            lemma_scan_on(mid, seq!['\''] + seq!['\\'] + seq!['\''], seq!['\'']);
        } else {
            lemma_scan_one(mid, c);
        }
    }
}

/// Whether reading this leaves the shell at the end of a word, with the same read
/// before it.
spec fn reads_word(scan: Scan, line: Seq<char>, word: Seq<char>) -> bool {
    scan_all(scan, line) matches Some(next) && next.reading is Plain && next.tokens == scan.tokens
        && next.current == Some(word)
}

/// A quoted word reads as the word, on the end of whatever it stands against.
proof fn lemma_quoted(scan: Scan, arg: Seq<char>)
    requires
        scan.reading is Plain,
    ensures
        reads_word(scan, cmd::quoted(arg), longer(scan.current, arg)->0),
{
    if arg.len() > 0 && all_plain(arg) {
        lemma_plain(scan, arg);
    } else {
        let open = Scan {
            current: longer(scan.current, Seq::empty()),
            bare: false,
            reading: Reading::Quoted,
            ..scan
        };
        lemma_scan_one(scan, '\'');
        lemma_scan_on(scan, seq!['\''], cmd::escaped(arg));
        lemma_escaped(open, arg);
        let full = Scan { current: longer(open.current, arg), ..open };
        lemma_scan_on(scan, seq!['\''] + cmd::escaped(arg), seq!['\'']);
        lemma_scan_one(full, '\'');
        match scan.current {
            Some(word) => {
                assert(word + Seq::<char>::empty() + arg =~= word + arg);
            },
            None => {
                assert(Seq::<char>::empty() + arg =~= arg);
            },
        }
    }
}

/// A shell reads a quoted word back as the word, whatever is in it.
pub proof fn a_shell_reads_a_quoted_word_back(arg: Seq<char>)
    ensures
        tokens(cmd::quoted(arg)) == Some(seq![Token::Word(arg)]),
{
    let scan = between(Seq::empty());
    lemma_quoted(scan, arg);
    assert(scan.tokens.push(Token::Word(arg)) =~= seq![Token::Word(arg)]);
}

/// Whether these are words that read as those.
spec fn read_as(parts: Seq<Seq<char>>, said: Seq<Seq<char>>) -> bool {
    &&& parts.len() == said.len()
    &&& forall|i: int, before: Seq<Token>|
        #![trigger scan_all(between(before), parts[i])]
        0 <= i < parts.len() ==> reads_word(between(before), parts[i], said[i])
}

/// Words joined up read as those words.
proof fn lemma_joined_reads(before: Seq<Token>, parts: Seq<Seq<char>>, said: Seq<Seq<char>>)
    requires
        parts.len() > 0,
        read_as(parts, said),
    ensures
        scan_all(between(before), text::joined(parts, " "@)) matches Some(next)
            && next.reading is Plain && next.done() == before + words(said),
    decreases parts.len(),
{
    reveal_strlit(" ");
    let start = between(before);
    let n = parts.len();
    if n == 1 {
        assert(scan_all(start, parts[0]) is Some);
        assert(before.push(Token::Word(said[0])) =~= before + words(said));
    } else {
        let most = parts.drop_last();
        let head = said.drop_last();
        assert forall|i: int, b: Seq<Token>|
            #![trigger scan_all(between(b), most[i])]
            0 <= i < most.len() implies reads_word(between(b), most[i], head[i]) by {
            assert(most[i] == parts[i]);
            assert(scan_all(between(b), parts[i]) == scan_all(between(b), most[i]));
        }
        lemma_joined_reads(before, most, head);
        let front = text::joined(most, " "@);
        let mid = scan_all(start, front)->0;
        let read = before + words(head);
        assert(" "@ =~= seq![' ']);
        lemma_scan_on(start, front, " "@);
        lemma_scan_one(mid, ' ');
        assert(scan_all(between(read), parts[n - 1]) is Some);
        lemma_scan_on(start, front + " "@, parts[n - 1]);
        text::lemma_joined_push(most, " "@, parts[n - 1]);
        assert(most.push(parts[n - 1]) =~= parts);
        assert(read.push(Token::Word(said[n - 1])) =~= before + words(said));
    }
}

/// The body of a command's line reads as its words.
proof fn lemma_body(before: Seq<Token>, cmd: Cmd)
    requires
        forall|i: int| 0 <= i < cmd.env@.len() ==> all_plain((#[trigger] cmd.env@[i]).0),
    ensures
        scan_all(between(before), cmd.body_text()) matches Some(next) && next.reading is Plain
            && next.done() == before + words(body_words(cmd)),
{
    reveal_strlit("=");
    let said = body_words(cmd);
    let parts = cmd::env_words(cmd.env@) + seq![cmd::quoted(cmd.program@)] + cmd::quoted_all(
        cmd.arg_words(),
    );
    assert forall|i: int, b: Seq<Token>|
        #![trigger scan_all(between(b), parts[i])]
        0 <= i < parts.len() implies reads_word(between(b), parts[i], said[i]) by {
        let scan = between(b);
        let n = cmd.env@.len() as int;
        if i < n {
            let key = cmd.env@[i].0 + "="@;
            let value = cmd.env@[i].1;
            assert forall|k: int| 0 <= k < key.len() implies cmd::is_plain(#[trigger] key[k]) by {
                if k < cmd.env@[i].0.len() {
                    assert(key[k] == cmd.env@[i].0[k]);
                }
            }
            lemma_plain(scan, key);
            lemma_quoted(Scan { current: Some(key), ..scan }, value);
            lemma_scan_on(scan, key, cmd::quoted(value));
            assert(parts[i] == key + cmd::quoted(value));
        } else if i == n {
            lemma_quoted(scan, cmd.program@);
        } else {
            lemma_quoted(scan, cmd.arg_words()[i - n - 1]);
        }
    }
    lemma_joined_reads(before, parts, said);
}

/// A space and the number of a stream, which a sign right after it redirects.
proof fn lemma_stream(scan: Scan, fd: Seq<char>)
    requires
        scan.reading is Plain,
        fd == ""@ || fd == "2"@,
    ensures
        scan_all(scan, seq![' '] + fd) matches Some(next) && next.reading is Plain
            && next.redirected() == scan.done().push(Token::Redirect { fd, append: false }),
{
    reveal_strlit("");
    reveal_strlit("2");
    let ready = between(scan.done());
    lemma_scan_one(scan, ' ');
    lemma_scan_on(scan, seq![' '], fd);
    if fd == "2"@ {
        assert(fd =~= seq!['2']);
        lemma_scan_one(ready, '2');
        assert(all_digits(fd));
    } else {
        assert(fd =~= Seq::<char>::empty());
    }
}

/// A sign, and the spaces round it.
proof fn lemma_sign(scan: Scan, fd: Seq<char>, append: bool)
    requires
        scan.reading is Plain,
        fd == ""@ || fd == "2"@,
    ensures
        scan_all(
            scan,
            seq![' '] + fd + (if append {
                ">> "@
            } else {
                "> "@
            }),
        ) == Some(between(scan.done().push(Token::Redirect { fd, append }))),
{
    reveal_strlit("> ");
    reveal_strlit(">> ");
    let lead = seq![' '] + fd;
    let read = scan.done();
    lemma_stream(scan, fd);
    let numbered = scan_all(scan, lead)->0;
    lemma_scan_on(scan, lead, seq!['>']);
    lemma_scan_one(numbered, '>');
    let one = lead + seq!['>'];
    let first = Scan {
        reading: Reading::Redirecting,
        ..between(read.push(Token::Redirect { fd, append: false }))
    };
    assert(scan_all(scan, one) == Some(first));
    if append {
        lemma_scan_on(scan, one, seq!['>']);
        lemma_scan_one(first, '>');
        let second = between(read.push(Token::Redirect { fd, append: true }));
        assert(first.tokens.drop_last() =~= read);
        lemma_scan_on(scan, one + seq!['>'], seq![' ']);
        lemma_scan_one(second, ' ');
        assert(lead + ">> "@ =~= one + seq!['>'] + seq![' ']);
    } else {
        lemma_scan_on(scan, one, seq![' ']);
        lemma_scan_one(first, ' ');
        assert(lead + "> "@ =~= one + seq![' ']);
    }
}

/// A redirect to a file reads as one, after whatever stands in front of it.
proof fn lemma_redirect_to(scan: Scan, fd: Seq<char>, append: bool, path: Seq<char>)
    requires
        scan.reading is Plain,
        fd == ""@ || fd == "2"@,
    ensures
        scan_all(
            scan,
            seq![' '] + fd + (if append {
                ">> "@
            } else {
                "> "@
            }) + cmd::quoted(path),
        ) matches Some(next) && next.reading is Plain && next.done() == scan.done() + seq![
            Token::Redirect { fd, append },
            Token::Word(path),
        ],
{
    let sign = seq![' '] + fd + (if append {
        ">> "@
    } else {
        "> "@
    });
    let token = Token::Redirect { fd, append };
    lemma_sign(scan, fd, append);
    lemma_scan_on(scan, sign, cmd::quoted(path));
    lemma_quoted(between(scan.done().push(token)), path);
    assert(scan.done().push(token).push(Token::Word(path)) =~= scan.done() + seq![
        token,
        Token::Word(path),
    ]);
}

/// A redirect reads as one, after whatever stands in front of it.
proof fn lemma_redirect(scan: Scan, out: Output, fd: Seq<char>)
    requires
        scan.reading is Plain,
        fd == ""@ || fd == "2"@,
    ensures
        scan_all(scan, cmd::after_space(cmd::redirect_text(out, fd))) matches Some(next)
            && next.reading is Plain && next.done() == scan.done() + redirect_tokens(out, fd),
{
    let line = cmd::after_space(cmd::redirect_text(out, fd));
    reveal_strlit(" ");
    assert(" "@ =~= seq![' ']);
    match out {
        Output::Inherit => {
            assert(scan.done() + Seq::<Token>::empty() =~= scan.done());
        },
        Output::Null => {
            reveal_strlit("/dev/null");
            assert(cmd::quoted("/dev/null"@) == "/dev/null"@);
            lemma_redirect_to(scan, fd, false, "/dev/null"@);
            assert(line =~= seq![' '] + fd + "> "@ + cmd::quoted("/dev/null"@));
        },
        Output::File(p) => {
            lemma_redirect_to(scan, fd, false, p@);
            assert(line =~= seq![' '] + fd + "> "@ + cmd::quoted(p@));
        },
        Output::OnFailure(p) => {
            lemma_redirect_to(scan, fd, false, p@);
            assert(line =~= seq![' '] + fd + "> "@ + cmd::quoted(p@));
        },
        Output::Append(p) => {
            lemma_redirect_to(scan, fd, true, p@);
            assert(line =~= seq![' '] + fd + ">> "@ + cmd::quoted(p@));
        },
    }
}

/// What stands in front of a command that runs somewhere else.
proof fn lemma_cd(dir: Seq<char>)
    ensures
        scan_all(between(Seq::empty()), "(cd "@ + cmd::quoted(dir) + " && "@) == Some(
            between(
                seq![Token::Open, Token::Word("cd"@), Token::Word(dir), Token::And],
            ),
        ),
{
    reveal_strlit("(cd ");
    reveal_strlit("cd");
    reveal_strlit(" && ");
    let start = between(Seq::empty());
    let open = between(seq![Token::Open]);
    lemma_scan_one(start, '(');
    assert(start.tokens.push(Token::Open) =~= seq![Token::Open]);
    assert("(cd "@ =~= seq!['('] + "cd"@ + seq![' ']);
    lemma_scan_on(start, seq!['('], "cd"@);
    lemma_plain(open, "cd"@);
    lemma_scan_on(start, seq!['('] + "cd"@, seq![' ']);
    let went = Scan { current: Some("cd"@), ..open };
    lemma_scan_one(went, ' ');
    let to = between(seq![Token::Open, Token::Word("cd"@)]);
    assert(open.tokens.push(Token::Word("cd"@)) =~= to.tokens);
    lemma_quoted(to, dir);
    lemma_scan_on(start, "(cd "@, cmd::quoted(dir));
    let front = "(cd "@ + cmd::quoted(dir);
    let named = scan_all(start, front)->0;
    let there = between(seq![Token::Open, Token::Word("cd"@), Token::Word(dir)]);
    assert(named.done() =~= there.tokens);
    lemma_scan_one(named, ' ');
    lemma_scan_on(start, front, seq![' ']);
    let one = Scan { reading: Reading::Joining, ..there };
    lemma_scan_one(there, '&');
    lemma_scan_on(start, front + seq![' '], seq!['&']);
    lemma_scan_one(one, '&');
    lemma_scan_on(start, front + seq![' '] + seq!['&'], seq!['&']);
    let joined = between(seq![Token::Open, Token::Word("cd"@), Token::Word(dir), Token::And]);
    assert(there.tokens.push(Token::And) =~= joined.tokens);
    lemma_scan_one(joined, ' ');
    lemma_scan_on(start, front + seq![' '] + seq!['&'] + seq!['&'], seq![' ']);
    assert(front + " && "@ =~= front + seq![' '] + seq!['&'] + seq!['&'] + seq![' ']);
}

/// A shell reads a command's line back as the command: its variables, its program
/// and its arguments, each a word of its own whatever is in it; in a subshell that
/// goes to its directory first if it has one; and outside that, where each of its
/// streams goes. The names of the variables have to be ones a shell could set,
/// which it reads as themselves.
pub proof fn a_shell_reads_a_command_back(cmd: Cmd)
    requires
        forall|i: int| 0 <= i < cmd.env@.len() ==> all_plain((#[trigger] cmd.env@[i]).0),
    ensures
        tokens(cmd.line_text()) == Some(line_tokens(cmd)),
{
    let start = between(Seq::empty());
    let body = words(body_words(cmd));
    let placed = match cmd.dir {
        Some(dir) => "(cd "@ + cmd::quoted(dir@) + " && "@ + cmd.body_text() + ")"@,
        None => cmd.body_text(),
    };
    let read = match cmd.dir {
        Some(dir) => seq![
            Token::Open,
            Token::Word("cd"@),
            Token::Word(dir@),
            Token::And,
        ] + body + seq![Token::Close],
        None => body,
    };
    match cmd.dir {
        Some(dir) => {
            reveal_strlit(")");
            let lead = "(cd "@ + cmd::quoted(dir@) + " && "@;
            let there = seq![
                Token::Open,
                Token::Word("cd"@),
                Token::Word(dir@),
                Token::And,
            ];
            lemma_cd(dir@);
            lemma_body(there, cmd);
            lemma_scan_on(start, lead, cmd.body_text());
            let inside = scan_all(start, lead + cmd.body_text())->0;
            lemma_scan_one(inside, ')');
            assert(")"@ =~= seq![')']);
            lemma_scan_on(start, lead + cmd.body_text(), ")"@);
            assert((there + body).push(Token::Close) =~= read);
        },
        None => {
            lemma_body(Seq::empty(), cmd);
            assert(Seq::<Token>::empty() + body =~= body);
        },
    }
    let out = cmd::after_space(cmd::redirect_text(cmd.stdout, ""@));
    let err = cmd::after_space(cmd::redirect_text(cmd.stderr, "2"@));
    let first = scan_all(start, placed)->0;
    assert(first.reading is Plain && first.done() == read);
    lemma_redirect(first, cmd.stdout, ""@);
    lemma_scan_on(start, placed, out);
    let second = scan_all(start, placed + out)->0;
    lemma_redirect(second, cmd.stderr, "2"@);
    lemma_scan_on(start, placed + out, err);
}

} // verus!
