//! Times in seconds as `f64` shows them: a count of 100 ns units converted to
//! the nearest binary64 number, divided by ten million to the nearest
//! binary64 number, and written with a given number of decimals, all in
//! integer arithmetic.

use vstd::arithmetic::div_mod::{lemma_div_denominator, lemma_fundamental_div_mod};
use vstd::arithmetic::mul::lemma_mul_inequality;
use vstd::prelude::*;

use crate::number::{dec, digit_char, push_decimal};
use crate::label::{Label, LabelModel};
use crate::text::push_char;
use vstd::string::StringExecFns;

verus! {

/// 2^52: the least significand of a normal binary64 number.
pub const TWO52: u128 = 4503599627370496;

/// 2^53: one past the greatest significand of a binary64 number.
pub const TWO53: u128 = 9007199254740992;

/// `a / b` rounded to the nearest integer, a value halfway between two going
/// to the even one.
pub open spec fn round_div_even(a: nat, b: nat) -> nat {
    let q = a / b;
    let r = a % b;
    if 2 * r > b || (2 * r == b && q % 2 == 1) {
        q + 1
    } else {
        q
    }
}

/// Doubling the divisor lowers a quotient of at least one.
pub proof fn lemma_halve_quotient(a: nat, b: nat)
    requires
        b > 0,
        a / b >= 1,
    ensures
        a / (2 * b) < a / b,
{
    lemma_div_denominator(a as int, b as int, 2);
    assert(b * 2 == 2 * b) by (nonlinear_arith);
}

/// Halves `a / b` (doubling `b` and the scale `up`) while it is at least 2^53.
pub open spec fn scale_down(a: nat, b: nat, up: nat) -> (nat, nat)
    decreases a / b,
{
    if b > 0 && a / b >= TWO53 {
        proof {
            lemma_halve_quotient(a, b);
        }
        scale_down(a, 2 * b, 2 * up)
    } else {
        (b, up)
    }
}

/// A quotient below `k` means a dividend below `k` times the divisor.
pub proof fn lemma_below_bound(a: nat, b: nat, k: nat)
    requires
        b > 0,
        a / b < k,
    ensures
        a < k * b,
{
    lemma_fundamental_div_mod(a as int, b as int);
    let q = a / b;
    let r = a % b;
    assert(a == b * q + r);
    assert(b * q + b <= k * b) by (nonlinear_arith)
        requires
            q + 1 <= k,
            b > 0,
    ;
}

/// Doubles `a` (and the scale `down`) while `a / b` is below 2^52.
pub open spec fn scale_up(a: nat, b: nat, down: nat) -> (nat, nat)
    decreases TWO53 * b - a,
{
    if b > 0 && a > 0 && a / b < TWO52 {
        proof {
            lemma_below_bound(a, b, TWO52 as nat);
        }
        scale_up(2 * a, b, 2 * down)
    } else {
        (a, down)
    }
}

/// The binary64 number nearest to `a / b`, as `(m, up, down)` with value
/// `m * up / down`: `a / b` is scaled by powers of two into [2^52, 2^53) and
/// rounded to an integer significand, halfway to even.
pub open spec fn nearest_double(a: nat, b: nat) -> (nat, nat, nat) {
    let (b1, up) = scale_down(a, b, 1);
    let (a1, down) = scale_up(a, b1, 1);
    (round_div_even(a1, b1), up, down)
}

/// The value of the binary64 number nearest to the integer `g`, as
/// `g as f64` converts; it is an integer.
pub open spec fn double_of_int(g: nat) -> nat {
    let (m, up, down) = nearest_double(g, 1);
    m * up / down
}

/// `10^n`.
pub open spec fn pow10(n: nat) -> nat
    decreases n,
{
    if n == 0 {
        1
    } else {
        10 * pow10((n - 1) as nat)
    }
}

/// The last `w` decimal digits of `n`, leading zeros kept.
pub open spec fn padded(n: nat, w: nat) -> Seq<char>
    decreases w,
{
    if w == 0 {
        seq![]
    } else {
        padded(n / 10, (w - 1) as nat).push(digit_char(n % 10))
    }
}

/// `u` hundred-nanosecond units in seconds as `{:.places$}` writes the `f64`
/// quotient `u as f64 / 1e7`: that binary64 value exactly, rounded to
/// `places` decimals, halfway to even; with no decimals, no point.
pub open spec fn seconds_text(u: nat, places: nat) -> Seq<char> {
    let (m, up, down) = nearest_double(double_of_int(u), 10000000);
    let q = round_div_even(m * up * pow10(places), down);
    if places == 0 {
        dec(q)
    } else {
        dec(q / pow10(places)) + seq!['.'] + padded(q % pow10(places), places)
    }
}

proof fn lemma_pow10_monotone(a: nat, b: nat)
    requires
        a <= b,
    ensures
        1 <= pow10(a) <= pow10(b),
    decreases b,
{
    if b > a {
        lemma_pow10_monotone(a, (b - 1) as nat);
    } else if a > 0 {
        lemma_pow10_monotone((a - 1) as nat, (a - 1) as nat);
    }
}

fn round_div_even_exec(a: u128, b: u128) -> (r: u128)
    requires
        0 < b < 0x1_0000_0000_0000_0000_0000_0000,
        a < 0x1000_0000_0000_0000_0000_0000_0000_0000,
    ensures
        r == round_div_even(a as nat, b as nat),
        r <= a / b + 1,
{
    let q = a / b;
    let r = a % b;
    if 2 * r > b || (2 * r == b && q % 2 == 1) {
        assert(q <= a) by (nonlinear_arith)
            requires
                q == a / b,
                b > 0,
        ;
        q + 1
    } else {
        q
    }
}

/// Computes `nearest_double(a, b)`.
fn nearest_double_exec(a: u128, b: u128) -> (r: (u128, u128, u128))
    requires
        a <= 0x4_0000_0000_0000_0000,
        1 <= b <= 0x100_0000,
    ensures
        (r.0 as nat, r.1 as nat, r.2 as nat) == nearest_double(a as nat, b as nat),
        r.0 <= TWO53,
        1 <= r.1 <= 0x100_0000,
        1 <= r.2 < 0x2000_0000_0000_0000_0000,
        r.1 > 1 ==> r.2 == 1 && r.1 * TWO52 <= a,
        a / b < TWO53 ==> r.1 == 1,
{
    let mut bb = b;
    let mut up: u128 = 1;
    while a / bb >= TWO53
        invariant
            1 <= bb <= 0x100_0000,
            1 <= b <= 0x100_0000,
            a <= 0x4_0000_0000_0000_0000,
            1 <= up <= bb,
            up > 1 ==> bb * TWO52 <= a && up * TWO52 <= a,
            scale_down(a as nat, b as nat, 1) == scale_down(a as nat, bb as nat, up as nat),
        decreases a / bb,
    {
        assert(bb * TWO53 <= a) by (nonlinear_arith)
            requires
                a / bb >= TWO53,
                bb >= 1,
        ;
        assert((2 * bb) * TWO52 <= a) by (nonlinear_arith)
            requires
                bb * TWO53 <= a,
        ;
        assert(bb <= 0x2000);
        proof {
            lemma_halve_quotient(a as nat, bb as nat);
        }
        bb = bb * 2;
        up = up * 2;
    }
    assert(a < TWO53 * bb) by {
        lemma_below_bound(a as nat, bb as nat, TWO53 as nat);
    }
    let ghost (b1, up1) = scale_down(a as nat, b as nat, 1);
    assert(b1 == bb && up1 == up);
    if a == 0 {
        assert(round_div_even(0, bb as nat) == 0) by (nonlinear_arith)
            requires
                bb >= 1,
        ;
        return (0, up, 1);
    }
    if up > 1 {
        assert(a / bb >= TWO52) by (nonlinear_arith)
            requires
                bb * TWO52 <= a,
                bb >= 1,
        ;
    }
    let mut aa = a;
    let mut down: u128 = 1;
    while aa / bb < TWO52
        invariant
            1 <= bb <= 0x100_0000,
            1 <= aa < TWO53 * bb,
            1 <= down <= aa,
            up > 1 ==> down == 1,
            up > 1 ==> aa / bb >= TWO52,
            scale_up(a as nat, bb as nat, 1) == scale_up(aa as nat, bb as nat, down as nat),
        decreases TWO53 * bb - aa,
    {
        proof {
            lemma_below_bound(aa as nat, bb as nat, TWO52 as nat);
        }
        aa = aa * 2;
        down = down * 2;
    }
    proof {
        if up > 1 {
            assert(aa == a);
        }
    }
    proof {
        lemma_mul_inequality(bb as int, 0x100_0000, TWO53 as int);
        assert(TWO53 * bb == bb * TWO53) by (nonlinear_arith);
        assert(aa < bb * TWO53);
        assert(0x100_0000 * TWO53 == 0x2000_0000_0000_0000_0000);
    }
    let m = round_div_even_exec(aa, bb);
    assert(aa / bb < TWO53) by (nonlinear_arith)
        requires
            aa < TWO53 * bb,
            bb >= 1,
    ;
    if m == TWO53 + 1 {
        assert(false);
    }
    (m, up, down)
}

fn digit(d: u128) -> (c: char)
    requires
        d < 10,
    ensures
        c == digit_char(d as nat),
{
    let b: u8 = d as u8;
    (48u8 + b) as char
}

/// Appends the last `w` decimal digits of `n`, leading zeros kept.
fn push_padded(s: &mut String, n: u128, w: u32)
    ensures
        final(s)@ == old(s)@ + padded(n as nat, w as nat),
    decreases w,
{
    if w > 0 {
        push_padded(s, n / 10, w - 1);
        push_char(s, digit(n % 10));
        assert(padded(n as nat, w as nat) == padded((n / 10) as nat, (w - 1) as nat).push(
            digit_char((n % 10) as nat),
        ));
    } else {
        assert(old(s)@ + padded(n as nat, 0) == old(s)@);
    }
}

/// Appends `u` hundred-nanosecond units in seconds with `places` decimals,
/// as `{:.places$}` writes `u as f64 / 1e7`.
///
/// At most 20 decimals: the value is scaled by `10^places` in 128-bit
/// integers, and the scaled significand must fit there.
pub fn push_seconds(s: &mut String, u: u64, places: u32)
    requires
        places <= 20,
    ensures
        final(s)@ == old(s)@ + seconds_text(u as nat, places as nat),
{
    let (m1, up1, down1) = nearest_double_exec(u as u128, 1);
    proof {
        lemma_mul_inequality(m1 as int, TWO53 as int, up1 as int);
        lemma_mul_inequality(up1 as int, 0x100_0000, TWO53 as int);
    }
    assert(m1 * up1 <= 0x2000_0000_0000_0000_0000);
    let g = m1 * up1 / down1;
    assert(g <= 0x2_0000_0000_0000_0000) by (nonlinear_arith)
        requires
            g == (m1 * up1) as int / down1 as int,
            m1 <= TWO53,
            up1 >= 1,
            down1 >= 1,
            up1 > 1 ==> down1 == 1 && up1 * TWO52 <= u,
            u <= 0xffff_ffff_ffff_ffff,
    ;
    assert(g as nat == double_of_int(u as nat));
    let (m2, up2, down2) = nearest_double_exec(g, 10000000);
    assert(g / 10000000 < TWO53);
    assert(up2 == 1);
    assert(m2 * up2 == m2) by (nonlinear_arith)
        requires
            up2 == 1,
    ;
    let mut p: u128 = 1;
    let mut i: u32 = 0;
    proof {
        lemma_pow10_monotone(places as nat, 20);
        reveal_with_fuel(pow10, 21);
    }
    while i < places
        invariant
            i <= places <= 20,
            p == pow10(i as nat),
            pow10(places as nat) <= 100_000_000_000_000_000_000,
        decreases places - i,
    {
        proof {
            lemma_pow10_monotone((i + 1) as nat, places as nat);
        }
        p = p * 10;
        i = i + 1;
    }
    proof {
        lemma_mul_inequality(m2 as int, TWO53 as int, p as int);
        lemma_mul_inequality(p as int, 100_000_000_000_000_000_000, TWO53 as int);
    }
    let q = round_div_even_exec(m2 * up2 * p, down2);
    assert(q / p <= 0xffff_ffff_ffff_ffff) by (nonlinear_arith)
        requires
            q <= (m2 * p) as int / down2 as int + 1,
            m2 <= TWO53,
            down2 >= 1,
            1 <= p <= 100_000_000_000_000_000_000,
    ;
    if places == 0 {
        assert(p == 1);
        assert(q / p == q) by (nonlinear_arith)
            requires
                p == 1,
        ;
        push_decimal(s, q as u64);
    } else {
        push_decimal(s, (q / p) as u64);
        push_char(s, '.');
        push_padded(s, q % p, places);
    }
}
/// `u` hundred-nanosecond units in seconds with `places` decimals, as
/// `format!("{:.places$}", u as f64 / 1e7)` writes it; at most 20 decimals,
/// as for `push_seconds`.
pub fn seconds_string(u: u64, places: u32) -> (r: String)
    requires
        places <= 20,
    ensures
        r@ == seconds_text(u as nat, places as nat),
{
    let mut r = String::new();
    push_seconds(&mut r, u, places);
    assert(r@ == Seq::<char>::empty() + seconds_text(u as nat, places as nat));
    r
}

/// A time in seconds with seven decimals, or nothing where it is absent.
pub open spec fn time_field(t: Option<u64>) -> Seq<char> {
    match t {
        Some(u) => seconds_text(u as nat, 7),
        None => seq![],
    }
}

/// The tab-separated line of label `l` in seconds: start and end with seven
/// decimals (each empty where absent), the text, then `score` where there
/// is one, and a newline.
pub open spec fn seconds_line_spec(l: LabelModel, score: Option<Seq<char>>) -> Seq<char> {
    time_field(l.start) + seq!['\t'] + time_field(l.end) + seq!['\t'] + l.text + match score {
        Some(sc) => seq!['\t'] + sc,
        None => seq![],
    } + seq!['\n']
}

/// The Audacity label track line of `l`: start and end in seconds with
/// seven decimals, then the text; a missing start counts as zero, a missing
/// end as the start.
pub open spec fn audacity_line_spec(l: LabelModel) -> Seq<char> {
    let start: u64 = match l.start {
        Some(s) => s,
        None => 0,
    };
    let end: u64 = match l.end {
        Some(e) => e,
        None => start,
    };
    seconds_text(start as nat, 7) + seq!['\t'] + seconds_text(end as nat, 7) + seq!['\t'] + l.text
        + seq!['\n']
}

/// A label with both times has the same line in the Audacity format as in
/// the tab-separated format without a score: its start, then its end.
pub proof fn lemma_audacity_matches_seconds_line(l: LabelModel)
    requires
        l.start is Some,
        l.end is Some,
    ensures
        audacity_line_spec(l) == seconds_line_spec(l, None),
{
    let sv: Option<Seq<char>> = None;
    assert(match sv {
        Some(sc) => seq!['\t'] + sc,
        None => Seq::<char>::empty(),
    } == Seq::<char>::empty());
    assert(seconds_line_spec(l, None) =~= time_field(l.start) + seq!['\t'] + time_field(l.end) + seq![
        '\t',
    ] + l.text + seq!['\n']);
}

/// The second field of a label's Audacity line is its end in seconds where
/// it has one, and else the same as the first; the first is its start, or
/// zero where it has none.
pub proof fn lemma_audacity_fields(l: LabelModel)
    ensures
        l.end matches Some(e) ==> audacity_line_spec(l) == seconds_text(
            (if l.start is Some { l.start->0 } else { 0 }) as nat,
            7,
        ) + seq!['\t'] + seconds_text(e as nat, 7) + seq!['\t'] + l.text + seq!['\n'],
        l.end is None ==> audacity_line_spec(l) == seconds_text(
            (if l.start is Some { l.start->0 } else { 0 }) as nat,
            7,
        ) + seq!['\t'] + seconds_text(
            (if l.start is Some { l.start->0 } else { 0 }) as nat,
            7,
        ) + seq!['\t'] + l.text + seq!['\n'],
{
}

/// A score, where given, is the last field of the tab-separated line: the
/// line with it is the line without it, with a tab and the score put in
/// before the newline.
pub proof fn lemma_seconds_line_score(l: LabelModel, sc: Seq<char>)
    ensures
        seconds_line_spec(l, Some(sc)) == seconds_line_spec(l, None).drop_last() + seq!['\t'] + sc
            + seq!['\n'],
{
    let head = time_field(l.start) + seq!['\t'] + time_field(l.end) + seq!['\t'] + l.text;
    assert(seconds_line_spec(l, None) =~= head + seq!['\n']);
    assert((head + seq!['\n']).drop_last() =~= head);
    assert(seconds_line_spec(l, Some(sc)) =~= head + (seq!['\t'] + sc) + seq!['\n']);
}

fn push_time_field(s: &mut String, t: Option<u64>)
    ensures
        final(s)@ == old(s)@ + time_field(t),
{
    match t {
        Some(u) => push_seconds(s, u, 7),
        None => {
            assert(old(s)@ + time_field(t) == old(s)@);
        },
    }
}

/// Writes `l` as a tab-separated line in seconds, with `score` (the text of
/// the score, where it has one) as its last field.
pub fn seconds_line(l: &Label, score: Option<&str>) -> (r: String)
    ensures
        r@ == seconds_line_spec(l@, match score {
            Some(sc) => Some(sc@),
            None => None,
        }),
{
    let mut r = String::new();
    push_time_field(&mut r, l.start);
    push_char(&mut r, '\t');
    push_time_field(&mut r, l.end);
    push_char(&mut r, '\t');
    r.append(l.text.as_str());
    match score {
        Some(sc) => {
            push_char(&mut r, '\t');
            r.append(sc);
        },
        None => {},
    }
    push_char(&mut r, '\n');
    let ghost sv = match score {
        Some(sc) => Some(sc@),
        None => None,
    };
    assert(r@ =~= seconds_line_spec(l@, sv));
    r
}

/// Writes `l` as a line of an Audacity label track.
pub fn audacity_line(l: &Label) -> (r: String)
    ensures
        r@ == audacity_line_spec(l@),
{
    let start: u64 = match l.start {
        Some(s) => s,
        None => 0,
    };
    let end: u64 = match l.end {
        Some(e) => e,
        None => start,
    };
    let mut r = String::new();
    push_seconds(&mut r, start, 7);
    push_char(&mut r, '\t');
    push_seconds(&mut r, end, 7);
    push_char(&mut r, '\t');
    r.append(l.text.as_str());
    push_char(&mut r, '\n');
    assert(r@ =~= audacity_line_spec(l@));
    r
}

} // verus!
