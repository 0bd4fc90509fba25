//! Turning numbers into the strings a reader sees.
//!
//! Shared by the table and the progress lines, which disagree about wording but
//! agree about how a duration, a size and a percentage should look.

use vstd::prelude::*;

use crate::execute;
use crate::execute::Secs;
use crate::text;

verus! {

/// Nanoseconds in a second.
const SECOND: u128 = 1_000_000_000;

/// Doubles this large or larger have no fraction.
const WHOLE: u128 = 0x10_0000_0000_0000;

/// A double keeps whole numbers exactly up to here.
const DOUBLE: u128 = 0x20_0000_0000_0000;

/// KiB in a MiB.
const MIB: u128 = 0x400;

/// KiB in a GiB.
const GIB: u128 = 0x10_0000;

/// `n / d` to the nearest whole number, and to the even one of two equally near.
pub open spec fn half_even(n: nat, d: nat) -> nat {
    let low = n / d;
    let rest = n % d;
    if 2 * rest < d || (2 * rest == d && low % 2 == 0) {
        low
    } else {
        low + 1
    }
}

/// Hundredths, written as a number with two decimals.
pub open spec fn two_places(hundredths: nat) -> Seq<char> {
    text::decimal(hundredths / 100) + seq![
        '.',
        text::digit((hundredths / 10 % 10) as int),
        text::digit((hundredths % 10) as int),
    ]
}

/// Tenths, written as a number with one decimal.
pub open spec fn one_place(tenths: nat) -> Seq<char> {
    text::decimal(tenths / 10) + seq!['.', text::digit((tenths % 10) as int)]
}

/// `n / d` in decimal, rounded to `places` of nought, one or two.
pub open spec fn rounded(n: nat, d: nat, places: nat) -> Seq<char> {
    if places == 0 {
        text::decimal(half_even(n, d))
    } else if places == 1 {
        one_place(half_even(n * 10, d))
    } else {
        two_places(half_even(n * 100, d))
    }
}

/// How far apart the doubles around `n` are.
pub open spec fn spacing(n: nat) -> nat
    decreases n,
{
    if n < 0x20_0000_0000_0000 {
        1
    } else {
        2 * spacing(n / 2)
    }
}

/// The double nearest to `n`.
pub open spec fn as_double(n: nat) -> nat {
    half_even(n, spacing(n)) * spacing(n)
}

/// How many doubles there are to a whole around `n / d`, up to where there is no
/// more than one.
pub open spec fn density(n: nat, d: nat) -> nat
    decreases
            if n < d * 0x10_0000_0000_0000 {
                d * 0x10_0000_0000_0000 - n
            } else {
                0
            },
{
    if n == 0 || n >= d * 0x10_0000_0000_0000 {
        1
    } else {
        2 * density(2 * n, d)
    }
}

/// The hundredths nearest to the double nearest to `n / d`.
pub open spec fn double_hundredths(n: nat, d: nat) -> nat {
    let dense = density(n, d);
    let wide = spacing(n / d);
    half_even(half_even(n * dense, d * wide) * wide * 100, dense)
}

/// How far from nothing a number is.
pub open spec fn magnitude(n: int) -> nat {
    if n < 0 {
        (-n) as nat
    } else {
        n as nat
    }
}

/// Seconds to two places, or a dash. The seconds are a double, the one nearest to
/// this many nanoseconds.
pub open spec fn secs_text(nanos: Option<int>) -> Seq<char> {
    match nanos {
        Some(nanos) => {
            let text = two_places(double_hundredths(magnitude(nanos), 1_000_000_000));
            if nanos < 0 {
                "-"@ + text
            } else {
                text
            }
        },
        None => "-"@,
    }
}

/// CPU over wall clock as a whole percentage, rounded down, or a dash.
pub open spec fn cpu_pct_text(cpu: int, wall: Option<int>) -> Seq<char> {
    match wall {
        Some(wall) => if wall > 0 {
            text::signed(cpu * 100 / wall).push('%')
        } else {
            "-"@
        },
        None => "-"@,
    }
}

/// A size in the largest unit it fills, to about three figures, or a dash.
pub open spec fn bytes_text(kib: int) -> Seq<char> {
    if kib < 0 {
        "-"@
    } else {
        let size = as_double(kib as nat);
        if size < 0x400 {
            figures(size, 1) + "KiB"@
        } else if size < 0x10_0000 {
            figures(size, 0x400) + "MiB"@
        } else {
            figures(size, 0x10_0000) + "GiB"@
        }
    }
}

/// Two decimals under ten, one under a hundred, none from there on.
pub open spec fn figures(n: nat, d: nat) -> Seq<char> {
    rounded(
        n,
        d,
        if n >= 100 * d {
            0
        } else if n >= 10 * d {
            1
        } else {
            2
        },
    )
}

/// What goes in a cell with no number behind it.
pub fn dash() -> (r: String)
    ensures
        r@ == "-"@,
{
    "-".to_owned()
}

fn nearest(n: u128, d: u128) -> (r: u128)
    requires
        0 < d,
        d < 0x8000_0000_0000_0000_0000_0000_0000_0000,
    ensures
        r == half_even(n as nat, d as nat),
        r <= n / d + 1,
{
    let low: u128 = n / d;
    let rest: u128 = n % d;
    assert(rest < d) by (nonlinear_arith)
        requires
            d > 0,
            rest == n % d,
    ;
    if 2 * rest < d || (2 * rest == d && low % 2 == 0) {
        low
    } else {
        assert(low < u128::MAX) by (nonlinear_arith)
            requires
                low == n / d,
                rest == n % d,
                0 < rest,
                d > 0,
                n <= u128::MAX,
        ;
        low + 1
    }
}

fn push_digit(out: &mut String, d: u128)
    requires
        d < 10,
    ensures
        final(out)@ == old(out)@.push(text::digit(d as int)),
{
    let c: u8 = 48 + d as u8;
    out.push(c as char);
}

fn write_two_places(hundredths: u128) -> (r: String)
    ensures
        r@ == two_places(hundredths as nat),
{
    let mut out = text::write_decimal(hundredths / 100);
    out.push('.');
    push_digit(&mut out, hundredths / 10 % 10);
    push_digit(&mut out, hundredths % 10);
    assert(out@ =~= two_places(hundredths as nat));
    out
}

fn write_one_place(tenths: u128) -> (r: String)
    ensures
        r@ == one_place(tenths as nat),
{
    let mut out = text::write_decimal(tenths / 10);
    out.push('.');
    push_digit(&mut out, tenths % 10);
    assert(out@ =~= one_place(tenths as nat));
    out
}

/// How far from nothing a number is.
fn size_of(n: i128) -> (r: u128)
    ensures
        r == magnitude(n as int),
        r <= 0x8000_0000_0000_0000_0000_0000_0000_0000,
{
    if n < 0 {
        (-(n + 1)) as u128 + 1
    } else {
        n as u128
    }
}

/// Seconds to two places, or a dash.
pub fn secs(s: Option<Secs>) -> (r: String)
    ensures
        r@ == secs_text(execute::nanos_of(s)),
{
    match s {
        Some(s) => {
            let text = write_two_places(nearest_hundredth(size_of(s.nanos)));
            if s.nanos < 0 {
                let mut out = "-".to_owned();
                out.append(text.as_str());
                out
            } else {
                text
            }
        },
        None => dash(),
    }
}

/// `time`'s `%P`: the CPU something burned over the wall clock it took, so a
/// command that kept four cores busy the whole way through reads 400%.
///
/// Truncated rather than rounded, since `time` divides two integers. `time`
/// writes `?%` when there is no clock to divide by; the rest of the table says
/// `-` when it has no number, so that is what goes here.
pub fn cpu_pct(cpu: Secs, wall: Option<Secs>) -> (r: String)
    ensures
        r@ == cpu_pct_text(cpu.nanos as int, execute::nanos_of(wall)),
{
    match wall {
        Some(wall) if wall.nanos > 0 => {
            let size = size_of(cpu.nanos);
            let wall = size_of(wall.nanos);
            let whole: u128 = size / wall;
            let rest: u128 = size % wall;
            assert(rest < wall && size == wall * whole + rest && whole <= size)
                by (nonlinear_arith)
                requires
                    wall > 0,
                    whole == size / wall,
                    rest == size % wall,
                    size >= 0,
            ;
            let (part, over) = hundredfold(rest, wall);
            assert(size * 100 == (whole * 100 + part) * wall + over) by (nonlinear_arith)
                requires
                    size == wall * whole + rest,
                    rest * 100 == part * wall + over,
            ;
            let mut out = if cpu.nanos < 0 {
                // rounding down is away from nothing here
                let (whole_up, part_up): (u128, u128) = if over == 0 {
                    (whole, part)
                } else if part < 99 {
                    (whole, part + 1)
                } else {
                    (whole + 1, 0)
                };
                proof {
                    let percent = whole * 100 + part;
                    if over == 0 {
                        lemma_floor_below(size as int, wall as int, percent, 0);
                    } else {
                        assert((percent + 1) * wall == percent * wall + wall) by (nonlinear_arith);
                        lemma_floor_below(size as int, wall as int, percent + 1, wall - over);
                    }
                }
                let mut out = "-".to_owned();
                out.append(write_hundreds(whole_up, part_up).as_str());
                out
            } else {
                proof {
                    lemma_floor(size as int, wall as int, whole * 100 + part, over as int);
                }
                write_hundreds(whole, part)
            };
            out.push('%');
            out
        },
        _ => dash(),
    }
}

proof fn lemma_floor(cpu: int, wall: int, percent: int, over: int)
    requires
        0 <= over < wall,
        cpu * 100 == percent * wall + over,
    ensures
        cpu * 100 / wall == percent,
{
    vstd::arithmetic::div_mod::lemma_fundamental_div_mod_converse(cpu * 100, wall, percent, over);
}

proof fn lemma_floor_below(size: int, wall: int, percent: int, over: int)
    requires
        0 < size,
        0 <= over < wall,
        size * 100 == percent * wall - over,
    ensures
        (-size) * 100 / wall == -percent,
        percent > 0,
{
    assert(percent > 0) by (nonlinear_arith)
        requires
            0 < percent * wall,
            0 < wall,
    ;
    assert((-percent) * wall == -(percent * wall)) by (nonlinear_arith);
    lemma_floor(-size, wall, -percent, over);
}

/// A hundred times `n` over `d`, and what is left over. The product need not fit
/// anywhere.
fn hundredfold(n: u128, d: u128) -> (r: (u128, u128))
    requires
        n < d <= 0x8000_0000_0000_0000_0000_0000_0000_0000,
    ensures
        n * 100 == r.0 * d + r.1,
        r.0 < 100,
        r.1 < d,
{
    let mut times: u128 = 0;
    let mut over: u128 = 0;
    for i in 0..100u128
        invariant
            n < d <= 0x8000_0000_0000_0000_0000_0000_0000_0000,
            n * i == times * d + over,
            times <= i,
            over < d,
    {
        over = over + n;
        assert(n * (i + 1) == n * i + n) by (nonlinear_arith);
        if over >= d {
            assert((times + 1) * d == times * d + d) by (nonlinear_arith);
            over = over - d;
            times = times + 1;
        }
    }
    assert(times < 100) by (nonlinear_arith)
        requires
            n * 100 == times * d + over,
            n < d,
            over >= 0,
    ;
    (times, over)
}

/// So many hundreds and a bit, in decimal.
fn write_hundreds(hundreds: u128, rest: u128) -> (r: String)
    requires
        rest < 100,
    ensures
        r@ == text::decimal((hundreds * 100 + rest) as nat),
{
    if hundreds > 0 {
        let mut out = text::write_decimal(hundreds);
        push_digit(&mut out, rest / 10);
        push_digit(&mut out, rest % 10);
        proof {
            let n = (hundreds * 100 + rest) as nat;
            assert(n / 10 == hundreds * 10 + rest / 10);
            assert(n / 10 / 10 == hundreds);
            assert(n / 10 % 10 == rest / 10);
            assert(n % 10 == rest % 10);
            assert(text::decimal(n / 10) == text::decimal(hundreds as nat).push(
                text::digit((rest / 10) as int),
            ));
        }
        out
    } else {
        text::write_decimal(rest)
    }
}

fn write_figures(n: u128, d: u128) -> (r: String)
    requires
        n <= 0x1_0000_0000_0000_0000,
        d == 1 || d == 0x400 || d == 0x10_0000,
    ensures
        r@ == figures(n as nat, d as nat),
{
    if n >= 100 * d {
        text::write_decimal(nearest(n, d))
    } else if n >= 10 * d {
        write_one_place(nearest(n * 10, d))
    } else {
        write_two_places(nearest(n * 100, d))
    }
}

/// How far apart the doubles around `n` are.
fn gap(n: u128) -> (r: u128)
    ensures
        r == spacing(n as nat),
        r >= 1,
        r == 1 || r * 0x10_0000_0000_0000 <= n,
{
    let mut gap: u128 = 1;
    let mut left: u128 = n;
    while left >= DOUBLE
        invariant
            spacing(n as nat) == gap * spacing(left as nat),
            1 <= gap,
            gap == 1 || left >= 0x10_0000_0000_0000,
            left * gap <= n,
        decreases left,
    {
        assert(gap <= 0x800_0000_0000_0000_0000) by (nonlinear_arith)
            requires
                left * gap <= n,
                left >= 0x20_0000_0000_0000,
                n <= u128::MAX,
        ;
        let half: u128 = left / 2;
        assert((gap * 2) * spacing(half as nat) == gap * (2 * spacing(half as nat)))
            by (nonlinear_arith);
        assert(half * (gap * 2) <= left * gap) by (nonlinear_arith)
            requires
                half * 2 <= left,
                gap >= 1,
        ;
        left = half;
        gap = gap * 2;
    }
    assert(spacing(left as nat) == 1);
    assert(gap * spacing(left as nat) == gap) by (nonlinear_arith)
        requires
            spacing(left as nat) == 1,
    ;
    assert(gap == 1 || gap * 0x10_0000_0000_0000 <= n) by (nonlinear_arith)
        requires
            gap == 1 || left >= 0x10_0000_0000_0000,
            left * gap <= n,
            gap >= 1,
    ;
    gap
}

fn nearest_double(n: u128) -> (r: u128)
    requires
        n < 0x8000_0000_0000_0000,
    ensures
        r == as_double(n as nat),
        r <= 0x1_0000_0000_0000_0000,
{
    let gap = gap(n);
    let r: u128 = nearest(n, gap);
    assert(r * gap <= n + gap) by (nonlinear_arith)
        requires
            r <= n / gap + 1,
            gap >= 1,
    ;
    r * gap
}

/// How many doubles there are to a whole around this many seconds.
fn dense(nanos: u128) -> (r: u128)
    ensures
        r == density(nanos as nat, 1_000_000_000),
        r >= 1,
        r == 1 || nanos * r < 0x20_0000_0000_0000 * 1_000_000_000,
        r == 1 || nanos >= 1,
{
    let mut dense: u128 = 1;
    let mut scaled: u128 = nanos;
    while scaled != 0 && scaled < SECOND * WHOLE
        invariant
            density(nanos as nat, 1_000_000_000) == dense * density(scaled as nat, 1_000_000_000),
            scaled == nanos * dense,
            1 <= dense,
            dense == 1 || nanos >= 1,
            dense == 1 || scaled < 0x20_0000_0000_0000 * 1_000_000_000,
        decreases
                if scaled < SECOND * WHOLE {
                    SECOND * WHOLE - scaled
                } else {
                    0
                },
    {
        assert(dense <= scaled) by (nonlinear_arith)
            requires
                scaled == nanos * dense,
                scaled != 0,
                dense >= 1,
                nanos >= 0,
        ;
        assert((dense * 2) * density((scaled * 2) as nat, 1_000_000_000) == dense * (2 * density(
            (scaled * 2) as nat,
            1_000_000_000,
        ))) by (nonlinear_arith);
        assert(scaled * 2 == nanos * (dense * 2)) by (nonlinear_arith)
            requires
                scaled == nanos * dense,
        ;
        assert(nanos >= 1) by (nonlinear_arith)
            requires
                scaled == nanos * dense,
                scaled != 0,
                nanos >= 0,
        ;
        scaled = scaled * 2;
        dense = dense * 2;
    }
    assert(density(scaled as nat, 1_000_000_000) == 1);
    assert(dense * density(scaled as nat, 1_000_000_000) == dense) by (nonlinear_arith)
        requires
            density(scaled as nat, 1_000_000_000) == 1,
    ;
    dense
}

/// Hundredths of a second, to the nearest, in the double nearest to this many
/// nanoseconds.
fn nearest_hundredth(nanos: u128) -> (r: u128)
    ensures
        r == double_hundredths(nanos as nat, 1_000_000_000),
{
    let dense = dense(nanos);
    let wide = gap(nanos / SECOND);
    let scaled: u128 = if dense == 1 {
        nanos
    } else {
        nanos * dense
    };
    assert(dense <= 0x20_0000_0000_0000 * 1_000_000_000) by (nonlinear_arith)
        requires
            dense == 1 || nanos * dense < 0x20_0000_0000_0000 * 1_000_000_000,
            dense == 1 || nanos >= 1,
            dense >= 1,
    ;
    assert(scaled == nanos * dense) by (nonlinear_arith)
        requires
            dense == 1 ==> scaled == nanos,
            dense != 1 ==> scaled == nanos * dense,
    ;
    let whole: u128 = nearest(scaled, SECOND * wide);
    proof {
        lemma_double_bound(scaled as int, wide as int, whole as int);
    }
    nearest(whole * wide * 100, dense)
}

/// The double nearest to some nanoseconds is no larger than they are, give or
/// take.
proof fn lemma_double_bound(scaled: int, wide: int, whole: int)
    requires
        0 <= scaled <= u128::MAX,
        1 <= wide,
        wide == 1 || wide * 0x10_0000_0000_0000 <= u128::MAX / 1_000_000_000,
        0 <= whole <= scaled / (1_000_000_000 * wide) + 1,
    ensures
        0 <= whole * wide <= scaled / 1_000_000_000 + wide,
        whole * wide * 100 <= u128::MAX,
{
    let d = 1_000_000_000 * wide;
    let q = scaled / d;
    assert(q * wide <= scaled / 1_000_000_000) by (nonlinear_arith)
        requires
            d == 1_000_000_000 * wide,
            q == scaled / d,
            wide >= 1,
            scaled >= 0,
    ;
    assert(0 <= whole * wide <= q * wide + wide) by (nonlinear_arith)
        requires
            0 <= whole <= q + 1,
            wide >= 1,
    ;
}

/// Peak memory in binary units, to about three significant figures so the column
/// reads at a glance: 940KiB, 10.4MiB, 1.02GiB.
pub fn bytes(kib: i64) -> (r: String)
    ensures
        r@ == bytes_text(kib as int),
{
    if kib < 0 {
        return dash();
    }
    let size = nearest_double(kib as u128);
    let (mut out, unit) = if size < MIB {
        (write_figures(size, 1), "KiB")
    } else if size < GIB {
        (write_figures(size, MIB), "MiB")
    } else {
        (write_figures(size, GIB), "GiB")
    };
    out.append(unit);
    out
}

/// Rounding to a whole number gives one that is no further off than half, and of two
/// equally near the even one.
pub proof fn rounding_goes_to_the_nearest(n: nat, d: nat)
    requires
        d > 0,
    ensures
        2 * half_even(n, d) * d <= 2 * n + d,
        2 * n <= 2 * half_even(n, d) * d + d,
        2 * half_even(n, d) * d == 2 * n + d || 2 * n == 2 * half_even(n, d) * d + d ==> half_even(
            n,
            d,
        ) % 2 == 0,
{
    let low = n / d;
    let rest = n % d;
    assert(n == low * d + rest && 0 <= rest < d) by (nonlinear_arith)
        requires
            d > 0,
            low == n / d,
            rest == n % d,
    ;
    assert(2 * (low + 1) * d == 2 * (low * d) + 2 * d) by (nonlinear_arith);
    assert(2 * low * d == 2 * (low * d)) by (nonlinear_arith);
}

/// A number of hundredths is written as the whole part, a point and two digits, and
/// one of tenths with one digit; both read back as what they were.
pub proof fn decimals_read_back(n: nat)
    ensures
        ({
            let t = two_places(n);
            let k = t.len() - 3;
            &&& k >= 1
            &&& text::spells(t.take(k), (n / 100) as int)
            &&& t[k] == '.'
            &&& '0' <= t[k + 1] <= '9' && '0' <= t[k + 2] <= '9'
            &&& 10 * (t[k + 1] as int - '0' as int) + (t[k + 2] as int - '0' as int) == n % 100
        }),
        ({
            let t = one_place(n);
            let k = t.len() - 2;
            &&& k >= 1
            &&& text::spells(t.take(k), (n / 10) as int)
            &&& t[k] == '.'
            &&& '0' <= t[k + 1] <= '9'
            &&& t[k + 1] as int - '0' as int == n % 10
        }),
{
    text::a_number_reads_back(n / 100);
    text::a_number_reads_back(n / 10);
    let a = text::decimal(n / 100);
    let b = text::decimal(n / 10);
    assert(two_places(n).take(a.len() as int) =~= a);
    assert(one_place(n).take(b.len() as int) =~= b);
}

proof fn lemma_density(n: nat, d: nat)
    requires
        0 < n < d * 0x10_0000_0000_0000,
    ensures
        n * density(n, d) >= d * 0x10_0000_0000_0000,
        density(n, d) >= 1,
    decreases d * 0x10_0000_0000_0000 - n,
{
    let more = density(2 * n, d);
    if 2 * n < d * 0x10_0000_0000_0000 {
        lemma_density(2 * n, d);
    }
    assert(density(n, d) == 2 * more);
    assert(more == 1 ==> (2 * n) * more == 2 * n);
    assert(n * density(n, d) == (2 * n) * more) by (nonlinear_arith)
        requires
            density(n, d) == 2 * more,
    ;
}

/// Seconds are printed to within a hundredth of what was measured, for longer than
/// anything runs, and a whole number of hundredths is printed as it is.
pub proof fn seconds_are_printed_to_the_hundredth(nanos: nat)
    requires
        nanos < 0x2000_0000_0000 * 1_000_000_000,
    ensures
        ({
            let shown = double_hundredths(nanos, 1_000_000_000) as int;
            &&& -10_000_000 < shown * 10_000_000 - nanos < 10_000_000
            &&& nanos % 10_000_000 == 0 ==> shown * 10_000_000 == nanos
        }),
{
    let d: nat = 1_000_000_000;
    let dense = density(nanos, d);
    let wide = spacing(nanos / d);
    assert(nanos / d < 0x20_0000_0000_0000);
    assert(wide == 1);
    let q = half_even(nanos * dense, d * wide);
    let shown = half_even(q * wide * 100, dense);
    assert(q * wide * 100 == q * 100) by (nonlinear_arith)
        requires
            wide == 1,
    ;
    assert(d * wide == d) by (nonlinear_arith)
        requires
            wide == 1,
    ;
    if nanos == 0 {
        assert(dense == 1);
        assert(nanos * dense == 0) by (nonlinear_arith)
            requires
                nanos == 0,
        ;
    } else {
        lemma_density(nanos, d);
        assert(dense >= 128) by (nonlinear_arith)
            requires
                nanos * dense >= 1_000_000_000 * 0x10_0000_0000_0000,
                nanos < 0x2000_0000_0000 * 1_000_000_000,
                dense >= 1,
        ;
        rounding_goes_to_the_nearest(nanos * dense, d);
        rounding_goes_to_the_nearest(q * 100, dense);
        lemma_two_roundings(nanos as int, dense as int, q as int, shown as int);
    }
}

proof fn lemma_two_roundings(nanos: int, dense: int, q: int, shown: int)
    requires
        dense >= 128,
        nanos > 0,
        2 * q * 1_000_000_000 <= 2 * (nanos * dense) + 1_000_000_000,
        2 * (nanos * dense) <= 2 * q * 1_000_000_000 + 1_000_000_000,
        2 * shown * dense <= 2 * (q * 100) + dense,
        2 * (q * 100) <= 2 * shown * dense + dense,
    ensures
        -10_000_000 < shown * 10_000_000 - nanos < 10_000_000,
        nanos % 10_000_000 == 0 ==> shown * 10_000_000 == nanos,
{
    let off = shown * 10_000_000 - nanos;
    let scaled = off * dense;
    assert(scaled == (shown * dense) * 10_000_000 - nanos * dense) by (nonlinear_arith)
        requires
            off == shown * 10_000_000 - nanos,
            scaled == off * dense,
    ;
    assert(2 * shown * dense == 2 * (shown * dense)) by (nonlinear_arith);
    // half a hundredth for the printing, and half a step between doubles
    assert(-(5_000_000 * dense + 500_000_000) <= scaled <= 5_000_000 * dense + 500_000_000);
    assert(-10_000_000 < off < 10_000_000) by (nonlinear_arith)
        requires
            scaled == off * dense,
            -(5_000_000 * dense + 500_000_000) <= scaled <= 5_000_000 * dense + 500_000_000,
            dense >= 128,
    ;
    if nanos % 10_000_000 == 0 {
        assert(off % 10_000_000 == 0);
    }
}

/// What is printed of a duration is its hundredths, with a minus in front exactly when
/// it is below nought, and a dash when there is none.
pub proof fn a_duration_reads_as_its_hundredths(nanos: int)
    ensures
        secs_text(None) == seq!['-'],
        nanos >= 0 ==> secs_text(Some(nanos)) == two_places(
            double_hundredths(nanos as nat, 1_000_000_000),
        ),
        nanos < 0 ==> secs_text(Some(nanos)) == seq!['-'] + secs_text(Some(-nanos)),
{
    reveal_strlit("-");
    assert("-"@ =~= seq!['-']);
}

/// The percentage is the largest whole one that does not say more than was used, for
/// any clock that ran, and a dash for one that did not.
pub proof fn a_percentage_never_says_more_than_was_used(cpu: int, wall: int)
    ensures
        cpu_pct_text(cpu, None) == seq!['-'],
        wall <= 0 ==> cpu_pct_text(cpu, Some(wall)) == seq!['-'],
        wall > 0 ==> exists|percent: int|
            percent * wall <= cpu * 100 < (percent + 1) * wall && cpu_pct_text(cpu, Some(wall))
                == (#[trigger] text::signed(percent)) + seq!['%'],
{
    reveal_strlit("-");
    assert("-"@ =~= seq!['-']);
    if wall > 0 {
        let percent = cpu * 100 / wall;
        assert(percent * wall <= cpu * 100 < (percent + 1) * wall) by (nonlinear_arith)
            requires
                wall > 0,
                percent == cpu * 100 / wall,
        ;
        assert(cpu_pct_text(cpu, Some(wall)) =~= text::signed(percent) + seq!['%']);
    }
}

/// A size is given in the largest unit there is a whole one of, with two decimals
/// under ten of them, one under a hundred and none from there on; nothing below
/// nought has a size.
pub proof fn a_size_is_given_in_the_largest_unit_it_fills(kib: int)
    requires
        kib < 0x20_0000_0000_0000,
    ensures
        kib < 0 ==> bytes_text(kib) == seq!['-'],
        0 <= kib < 1024 ==> bytes_text(kib) == in_units(kib as nat, 1) + "KiB"@,
        1024 <= kib < 1024 * 1024 ==> bytes_text(kib) == in_units(kib as nat, 1024) + "MiB"@,
        1024 * 1024 <= kib ==> bytes_text(kib) == in_units(kib as nat, 1024 * 1024) + "GiB"@,
{
    reveal_strlit("-");
    assert("-"@ =~= seq!['-']);
    if kib >= 0 {
        lemma_small_double(kib as nat);
        lemma_figures(kib as nat, 1);
        lemma_figures(kib as nat, 0x400);
        lemma_figures(kib as nat, 0x10_0000);
    }
}

proof fn lemma_small_double(n: nat)
    requires
        n < 0x20_0000_0000_0000,
    ensures
        as_double(n) == n,
{
    assert(spacing(n) == 1);
    assert(n / 1 == n && n % 1 == 0);
    assert(half_even(n, 1) == n);
}

proof fn lemma_figures(n: nat, d: nat)
    ensures
        figures(n, d) == in_units(n, d),
{
}

/// So many of a unit that is `d` of them, to about three figures.
pub open spec fn in_units(n: nat, d: nat) -> Seq<char> {
    if n < 10 * d {
        two_places(half_even(n * 100, d))
    } else if n < 100 * d {
        one_place(half_even(n * 10, d))
    } else {
        text::decimal(half_even(n, d))
    }
}

} // verus!
