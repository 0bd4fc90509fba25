//! Strings as sequences of characters: the few operations everything else
//! builds its text from, and what they come to.

use vstd::prelude::*;

verus! {

/// `String::push`: the character goes on the end and nothing else changes.
pub assume_specification[ String::push ](s: &mut String, c: char)
    ensures
        final(s)@ == old(s)@.push(c),
;

/// The character for one decimal digit.
pub open spec fn digit(d: int) -> char {
    (48 + d) as char
}

pub open spec fn is_digit(c: char) -> bool {
    '0' <= c <= '9'
}

/// ASCII letters and digits.
pub open spec fn is_alphanumeric(c: char) -> bool {
    is_digit(c) || 'a' <= c <= 'z' || 'A' <= c <= 'Z'
}

/// A number in decimal, with no leading zeros.
pub open spec fn decimal(n: nat) -> Seq<char>
    decreases n,
{
    if n < 10 {
        seq![digit(n as int)]
    } else {
        decimal(n / 10).push(digit((n % 10) as int))
    }
}

/// The same for a number with a sign.
pub open spec fn signed(n: int) -> Seq<char> {
    if n < 0 {
        "-"@ + decimal((-n) as nat)
    } else {
        decimal(n as nat)
    }
}

/// `n` copies of one character.
pub open spec fn repeated(c: char, n: nat) -> Seq<char> {
    Seq::new(n, |i: int| c)
}

/// What each of these strings holds.
pub open spec fn texts(v: Seq<String>) -> Seq<Seq<char>> {
    Seq::new(v.len(), |i: int| v[i]@)
}

/// The parts in order, with `sep` between each and the next.
pub open spec fn joined(parts: Seq<Seq<char>>, sep: Seq<char>) -> Seq<char>
    decreases parts.len(),
{
    if parts.len() == 0 {
        Seq::empty()
    } else if parts.len() == 1 {
        parts[0]
    } else {
        joined(parts.drop_last(), sep) + sep + parts.last()
    }
}

/// Whether `a` sorts strictly before `b`: character by character, and a text
/// before anything it is a proper prefix of.
pub open spec fn before(a: Seq<char>, b: Seq<char>) -> bool
    decreases a.len(),
{
    if b.len() == 0 {
        false
    } else if a.len() == 0 {
        true
    } else if a[0] != b[0] {
        a[0] < b[0]
    } else {
        before(a.drop_first(), b.drop_first())
    }
}

/// Strictly increasing, so sorted with nothing occurring twice.
pub open spec fn increasing(s: Seq<Seq<char>>) -> bool {
    forall|i: int, j: int| 0 <= i < j < s.len() ==> before(#[trigger] s[i], #[trigger] s[j])
}

/// Every digit of a decimal is a digit.
pub proof fn lemma_decimal_digits(n: nat)
    ensures
        decimal(n).len() >= 1,
        forall|i: int| 0 <= i < decimal(n).len() ==> is_digit(#[trigger] decimal(n)[i]),
    decreases n,
{
    if n >= 10 {
        lemma_decimal_digits(n / 10);
    }
}

/// A number is spelled one way and a spelling means one number, even when more
/// text follows it, as long as what follows does not begin with a digit.
pub proof fn decimal_reads_back(a: nat, b: nat, x: Seq<char>, y: Seq<char>)
    requires
        decimal(a) + x == decimal(b) + y,
        x.len() == 0 || !is_digit(x[0]),
        y.len() == 0 || !is_digit(y[0]),
    ensures
        a == b,
        x == y,
{
    let u = decimal(a);
    let v = decimal(b);
    let whole = u + x;
    lemma_decimal_digits(a);
    lemma_decimal_digits(b);
    if u.len() < v.len() {
        assert(whole[u.len() as int] == v[u.len() as int]);
        assert(whole.len() == v.len() + y.len());
        assert(x.len() > 0);
        assert(whole[u.len() as int] == x[0]);
        assert(false);
    }
    if v.len() < u.len() {
        assert(whole[v.len() as int] == u[v.len() as int]);
        assert(whole == v + y);
        assert((v + y)[v.len() as int] == y[0]);
        assert(false);
    }
    assert(u =~= whole.take(u.len() as int));
    assert(v =~= (v + y).take(u.len() as int));
    assert(x =~= whole.skip(u.len() as int));
    assert(y =~= (v + y).skip(u.len() as int));
    lemma_decimal_injective(a, b);
}

proof fn lemma_decimal_injective(a: nat, b: nat)
    requires
        decimal(a) == decimal(b),
    ensures
        a == b,
    decreases a,
{
    lemma_decimal_digits(a / 10);
    lemma_decimal_digits(b / 10);
    assert(decimal(a).last() == digit((a % 10) as int));
    assert(decimal(b).last() == digit((b % 10) as int));
    if a < 10 || b < 10 {
        assert(decimal(a).len() == 1);
        assert(decimal(b).len() == 1);
        assert(a < 10 && b < 10);
    } else {
        assert(decimal(a).drop_last() =~= decimal(a / 10));
        assert(decimal(b).drop_last() =~= decimal(b / 10));
        lemma_decimal_injective(a / 10, b / 10);
    }
}

/// Nothing sorts before itself.
pub proof fn lemma_before_irreflexive(a: Seq<char>)
    ensures
        !before(a, a),
    decreases a.len(),
{
    if a.len() > 0 {
        lemma_before_irreflexive(a.drop_first());
    }
}

/// The order is transitive.
pub proof fn lemma_before_transitive(a: Seq<char>, b: Seq<char>, c: Seq<char>)
    requires
        before(a, b),
        before(b, c),
    ensures
        before(a, c),
    decreases a.len(),
{
    if a.len() > 0 && a[0] == b[0] && b[0] == c[0] {
        lemma_before_transitive(a.drop_first(), b.drop_first(), c.drop_first());
    }
}

/// Of two different texts, one sorts before the other.
pub proof fn lemma_before_total(a: Seq<char>, b: Seq<char>)
    ensures
        before(a, b) || a == b || before(b, a),
    decreases a.len(),
{
    if a.len() > 0 && b.len() > 0 && a[0] == b[0] {
        lemma_before_total(a.drop_first(), b.drop_first());
        if a.drop_first() == b.drop_first() {
            assert(a =~= seq![a[0]] + a.drop_first());
            assert(b =~= seq![b[0]] + b.drop_first());
        }
    } else if a.len() == 0 && b.len() == 0 {
        assert(a =~= b);
    }
}

/// One more part at the end of a join.
pub proof fn lemma_joined_push(parts: Seq<Seq<char>>, sep: Seq<char>, part: Seq<char>)
    ensures
        joined(parts.push(part), sep) == if parts.len() == 0 {
            part
        } else {
            joined(parts, sep) + sep + part
        },
{
    assert(parts.push(part).drop_last() =~= parts);
}

/// What there is in sorted order is settled by what there is.
pub proof fn order_is_settled(a: Seq<Seq<char>>, b: Seq<Seq<char>>)
    requires
        increasing(a),
        increasing(b),
        forall|x: Seq<char>| #[trigger] a.contains(x) <==> b.contains(x),
    ensures
        a == b,
    decreases a.len(),
{
    if a.len() == 0 {
        if b.len() > 0 {
            assert(b.contains(b[0]));
            assert(a.contains(b[0]));
        }
        assert(a =~= b);
    } else {
        assert(a.contains(a[0]));
        assert(b.contains(a[0]));
        let k = choose|k: int| 0 <= k < b.len() && b[k] == a[0];
        assert(b.contains(b[0]));
        assert(a.contains(b[0]));
        let m = choose|m: int| 0 <= m < a.len() && a[m] == b[0];
        if k > 0 && m > 0 {
            lemma_before_transitive(a[0], b[0], a[0]);
            lemma_before_irreflexive(a[0]);
        }
        assert(a[0] == b[0]);
        let x = a.drop_first();
        let y = b.drop_first();
        assert forall|t: Seq<char>| #[trigger] x.contains(t) <==> y.contains(t) by {
            lemma_first_only(a, t);
            lemma_first_only(b, t);
            assert(a.contains(t) <==> b.contains(t));
        }
        order_is_settled(x, y);
        assert(a =~= seq![a[0]] + x);
        assert(b =~= seq![b[0]] + y);
    }
}

/// What comes first comes once.
proof fn lemma_first_only(a: Seq<Seq<char>>, t: Seq<char>)
    requires
        increasing(a),
        a.len() > 0,
    ensures
        a.drop_first().contains(t) <==> a.contains(t) && t != a[0],
{
    let x = a.drop_first();
    if x.contains(t) {
        let i = choose|i: int| 0 <= i < x.len() && x[i] == t;
        assert(a[i + 1] == t);
        assert(before(a[0], a[i + 1]));
        lemma_before_irreflexive(t);
    }
    if a.contains(t) && t != a[0] {
        let i = choose|i: int| 0 <= i < a.len() && a[i] == t;
        assert(x[i - 1] == t);
    }
}

/// `n` in decimal.
pub fn write_decimal(n: u128) -> (r: String)
    ensures
        r@ == decimal(n as nat),
    decreases n,
{
    let mut out = if n < 10 {
        String::new()
    } else {
        write_decimal(n / 10)
    };
    let d: u8 = 48 + (n % 10) as u8;
    out.push(d as char);
    assert(n < 10 ==> out@ =~= decimal(n as nat));
    out
}

/// `n` in decimal, with its sign if it is negative.
pub fn write_signed(n: i128) -> (r: String)
    requires
        i128::MIN < n,
    ensures
        r@ == signed(n as int),
{
    if n < 0 {
        let mut out = "-".to_owned();
        out.append(write_decimal((-n) as u128).as_str());
        out
    } else {
        write_decimal(n as u128)
    }
}

/// The characters of `s`.
pub fn chars(s: &str) -> (v: Vec<char>)
    ensures
        v@ == s@,
{
    let mut v: Vec<char> = Vec::new();
    for c in it: s.chars()
        invariant
            it.seq() == s@,
            v@ == s@.take(it.index()),
    {
        v.push(c);
    }
    v
}

/// `n` copies of `c`.
pub fn repeat(c: char, n: usize) -> (r: String)
    ensures
        r@ == repeated(c, n as nat),
{
    let mut out = String::new();
    for i in 0..n
        invariant
            out@ == repeated(c, i as nat),
    {
        out.push(c);
        assert(out@ =~= repeated(c, (i + 1) as nat));
    }
    out
}

/// Whether two texts are the same.
pub fn same(a: &str, b: &str) -> (r: bool)
    ensures
        r == (a@ == b@),
{
    let x = chars(a);
    let y = chars(b);
    if x.len() != y.len() {
        return false;
    }
    for i in 0..x.len()
        invariant
            x@ == a@,
            y@ == b@,
            x@.len() == y@.len(),
            forall|j: int| 0 <= j < i ==> x@[j] == y@[j],
    {
        if x[i] != y[i] {
            return false;
        }
    }
    assert(x@ =~= y@);
    true
}

/// Whether `a` sorts strictly before `b`.
pub fn sorts_before(a: &str, b: &str) -> (r: bool)
    ensures
        r == before(a@, b@),
{
    let x = chars(a);
    let y = chars(b);
    let mut i: usize = 0;
    assert(x@.skip(0) =~= x@);
    assert(y@.skip(0) =~= y@);
    while i < x.len() && i < y.len()
        invariant
            x@ == a@,
            y@ == b@,
            i <= x@.len(),
            i <= y@.len(),
            before(x@, y@) == before(x@.skip(i as int), y@.skip(i as int)),
        decreases x@.len() - i,
    {
        if x[i] != y[i] {
            return x[i] < y[i];
        }
        assert(x@.skip(i as int).drop_first() =~= x@.skip(i + 1));
        assert(y@.skip(i as int).drop_first() =~= y@.skip(i + 1));
        i = i + 1;
    }
    i < y.len()
}

/// A copy of a list of strings.
pub fn copied(v: &Vec<String>) -> (r: Vec<String>)
    ensures
        r@ == v@,
{
    let mut out: Vec<String> = Vec::new();
    for i in 0..v.len()
        invariant
            out@ == v@.take(i as int),
    {
        out.push(v[i].clone());
        assert(out@ =~= v@.take(i + 1));
    }
    assert(v@.take(v@.len() as int) =~= v@);
    out
}

/// The parts in order, with `sep` between each and the next.
pub fn join(parts: &Vec<String>, sep: &str) -> (r: String)
    ensures
        r@ == joined(texts(parts@), sep@),
{
    let mut out = String::new();
    assert(texts(parts@).take(0) =~= Seq::<Seq<char>>::empty());
    for i in 0..parts.len()
        invariant
            out@ == joined(texts(parts@).take(i as int), sep@),
    {
        if i > 0 {
            out.append(sep);
        }
        out.append(parts[i].as_str());
        proof {
            let done = texts(parts@).take(i as int);
            lemma_joined_push(done, sep@, parts@[i as int]@);
            assert(texts(parts@).take(i + 1) =~= done.push(parts@[i as int]@));
            if i == 0 {
                assert(out@ =~= parts@[0]@);
            }
        }
    }
    assert(texts(parts@).take(parts@.len() as int) =~= texts(parts@));
    out
}

/// What a row of decimal digits means, read from the left.
pub open spec fn read(digits: Seq<char>) -> int
    decreases digits.len(),
{
    if digits.len() == 0 {
        0
    } else {
        10 * read(digits.drop_last()) + (digits.last() as int - '0' as int)
    }
}

/// Whether this is how a person would write down `n`: nothing but digits, no
/// nought in front, and it reads as `n`.
pub open spec fn spells(text: Seq<char>, n: int) -> bool {
    &&& text.len() >= 1
    &&& forall|i: int| 0 <= i < text.len() ==> '0' <= #[trigger] text[i] <= '9'
    &&& text[0] == '0' ==> text.len() == 1
    &&& read(text) == n
}

/// Every number is written so that it reads back as itself.
pub proof fn a_number_reads_back(n: nat)
    ensures
        spells(decimal(n), n as int),
    decreases n,
{
    if n < 10 {
        assert(decimal(n).drop_last() =~= Seq::<char>::empty());
        assert(read(Seq::<char>::empty()) == 0);
    } else {
        let front = decimal(n / 10);
        a_number_reads_back(n / 10);
        assert(decimal(n).drop_last() =~= front);
        assert(read(front) == n / 10);
        if front[0] == '0' {
            assert(front.drop_last() =~= Seq::<char>::empty());
            assert(read(Seq::<char>::empty()) == 0);
            assert(read(front) == 0);
        }
    }
}

/// The same of a number with a sign: a minus in front exactly when it is below
/// nought, and otherwise nothing but the number.
pub proof fn a_signed_number_reads_back(n: int)
    ensures
        n >= 0 ==> spells(signed(n), n),
        n < 0 ==> signed(n).len() > 1 && signed(n)[0] == '-' && spells(
            signed(n).subrange(1, signed(n).len() as int),
            -n,
        ),
{
    reveal_strlit("-");
    if n >= 0 {
        a_number_reads_back(n as nat);
    } else {
        a_number_reads_back((-n) as nat);
        assert(signed(n).subrange(1, signed(n).len() as int) =~= decimal((-n) as nat));
    }
}

/// Joining nothing gives nothing, joining one thing gives that thing, and one more
/// comes after the separator.
pub proof fn joining_puts_the_separator_between(
    parts: Seq<Seq<char>>,
    part: Seq<char>,
    sep: Seq<char>,
)
    ensures
        joined(Seq::empty(), sep) == Seq::<char>::empty(),
        joined(seq![part], sep) == part,
        parts.len() > 0 ==> joined(parts.push(part), sep) == joined(parts, sep) + sep + part,
{
    assert(parts.push(part).drop_last() =~= parts);
}

/// Texts are ordered by the first character in which they differ, and a text comes
/// before any longer one that begins with it.
pub proof fn the_first_difference_decides(
    front: Seq<char>,
    c: char,
    d: char,
    x: Seq<char>,
    y: Seq<char>,
)
    requires
        c < d,
    ensures
        before(front + seq![c] + x, front + seq![d] + y),
        !before(front + seq![d] + y, front + seq![c] + x),
        before(front, front + seq![c] + x),
        !before(front + seq![c] + x, front),
        !before(front, front),
    decreases front.len(),
{
    let a = front + seq![c] + x;
    let b = front + seq![d] + y;
    if front.len() > 0 {
        let rest = front.drop_first();
        the_first_difference_decides(rest, c, d, x, y);
        assert(a.drop_first() =~= rest + seq![c] + x);
        assert(b.drop_first() =~= rest + seq![d] + y);
        assert(a[0] == front[0] && b[0] == front[0]);
    } else {
        assert(a[0] == c && b[0] == d);
    }
}

/// So many of one character is that many, and nothing else.
pub proof fn repeating_gives_that_many(c: char, n: nat)
    ensures
        repeated(c, n).len() == n,
        forall|i: int| 0 <= i < n ==> #[trigger] repeated(c, n)[i] == c,
{
}

} // verus!
