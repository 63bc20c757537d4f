//! Decimal numbers in label files: writing and reading unsigned times, and
//! recognising score tokens.

use vstd::prelude::*;

use crate::text::push_char;

verus! {

/// Whether `c` is an ASCII decimal digit.
pub open spec fn is_digit(c: char) -> bool {
    '0' <= c && c <= '9'
}

/// The digit character for `d < 10`.
pub open spec fn digit_char(d: nat) -> char {
    (48 + d) as char
}

/// The value of a digit character.
pub open spec fn digit_value(c: char) -> nat {
    (c as nat - 48) as nat
}

/// Whether every character of `s` is an ASCII digit.
pub open spec fn all_digits(s: Seq<char>) -> bool {
    forall|i: int| 0 <= i < s.len() ==> #[trigger] is_digit(s[i])
}

/// The shortest decimal rendering of `n`, as `{}` formats an unsigned integer.
pub open spec fn dec(n: nat) -> Seq<char>
    decreases n,
{
    if n < 10 {
        seq![digit_char(n)]
    } else {
        dec(n / 10).push(digit_char(n % 10))
    }
}

/// The value of a string of decimal digits, most significant first.
pub open spec fn digits_value(s: Seq<char>) -> nat
    decreases s.len(),
{
    if s.len() == 0 {
        0
    } else {
        digits_value(s.drop_last()) * 10 + digit_value(s.last())
    }
}

/// What `u64::from_str` gives: an optional `+`, then one or more ASCII
/// digits whose value fits in a `u64`.
pub open spec fn parse_u64_spec(s: Seq<char>) -> Option<u64> {
    let d = if s.len() > 0 && s[0] == '+' {
        s.drop_first()
    } else {
        s
    };
    if d.len() > 0 && all_digits(d) && digits_value(d) <= u64::MAX {
        Some(digits_value(d) as u64)
    } else {
        None
    }
}

/// Appends the decimal rendering of `n` to `s`.
pub fn push_decimal(s: &mut String, n: u64)
    ensures
        final(s)@ == old(s)@ + dec(n as nat),
    decreases n,
{
    if n >= 10 {
        push_decimal(s, n / 10);
    }
    let d: u8 = (n % 10) as u8;
    let c = (48u8 + d) as char;
    proof {
        assert(c == digit_char((n % 10) as nat));
    }
    push_char(s, c);
    proof {
        if n >= 10 {
            assert(dec(n as nat) == dec((n / 10) as nat).push(digit_char((n % 10) as nat)));
        } else {
            assert(dec(n as nat) == seq![digit_char(n as nat)]);
        }
    }
}



/// Reads an unsigned integer as `u64::from_str` does.
pub fn parse_u64_chars(s: &[char]) -> (r: Option<u64>)
    ensures
        r == parse_u64_spec(s@),
{
    let n = s.len();
    let mut i: usize = 0;
    if n > 0 && s[0] == '+' {
        i = 1;
    }
    let start = i;
    let ghost d = s@.skip(start as int);
    assert(d == (if s@.len() > 0 && s@[0] == '+' { s@.drop_first() } else { s@ }));
    if i == n {
        return None;
    }
    let mut v: u64 = 0;
    let mut overflow = false;
    while i < n
        invariant
            start <= i <= n,
            n == s@.len(),
            d == s@.skip(start as int),
            d == (if s@.len() > 0 && s@[0] == '+' { s@.drop_first() } else { s@ }),
            all_digits(s@.subrange(start as int, i as int)),
            !overflow ==> v == digits_value(s@.subrange(start as int, i as int)),
            overflow ==> digits_value(s@.subrange(start as int, i as int)) > u64::MAX,
        decreases n - i,
    {
        let c = s[i];
        if !('0' <= c && c <= '9') {
            assert(d[i - start] == c);
            assert(!is_digit(d[i - start]));
            assert(!all_digits(d));
            return None;
        }
        let dg: u64 = (c as u32 - 48) as u64;
        let ghost pre = s@.subrange(start as int, i as int);
        let ghost post = s@.subrange(start as int, i + 1);
        assert(post.drop_last() == pre);
        assert(post.last() == c);
        assert(digits_value(post) == digits_value(pre) * 10 + dg);
        if !overflow {
            if v > (u64::MAX - dg) / 10 {
                assert(v * 10 + dg > u64::MAX) by (nonlinear_arith)
                    requires
                        v > (u64::MAX - dg) / 10,
                        dg <= 9,
                ;
                overflow = true;
            } else {
                assert(v * 10 + dg <= u64::MAX) by (nonlinear_arith)
                    requires
                        v <= (u64::MAX - dg) / 10,
                        dg <= 9,
                ;
                v = v * 10 + dg;
            }
        } else {
            assert(digits_value(pre) * 10 + dg >= digits_value(pre)) by (nonlinear_arith);
        }
        i += 1;
    }
    assert(s@.subrange(start as int, n as int) == d);
    if overflow {
        None
    } else {
        Some(v)
    }
}

/// Whether every character is an ASCII digit (vacuously true of the empty string).
pub fn chars_all_digits(s: &[char]) -> (b: bool)
    ensures
        b == all_digits(s@),
{
    let n = s.len();
    let mut i: usize = 0;
    while i < n
        invariant
            i <= n,
            n == s@.len(),
            forall|j: int| 0 <= j < i ==> #[trigger] is_digit(s@[j]),
        decreases n - i,
    {
        if !('0' <= s[i] && s[i] <= '9') {
            assert(!is_digit(s@[i as int]));
            return false;
        }
        i += 1;
    }
    true
}

/// The decimal rendering of `n` is a non-empty string of digits that reads back as `n`.
pub proof fn lemma_dec_reads_back(n: nat)
    ensures
        dec(n).len() > 0,
        all_digits(dec(n)),
        digits_value(dec(n)) == n,
    decreases n,
{
    let d = dec(n);
    assert(digit_value(digit_char(n % 10)) == n % 10);
    if n < 10 {
        assert(d.drop_last().len() == 0);
        assert(digits_value(d.drop_last()) == 0);
    } else {
        lemma_dec_reads_back(n / 10);
        assert(d.drop_last() == dec(n / 10));
        assert(d.last() == digit_char(n % 10));
        assert(digits_value(d) == (n / 10) * 10 + n % 10);
        assert forall|i: int| 0 <= i < d.len() implies #[trigger] is_digit(d[i]) by {
            if i < d.len() - 1 {
                assert(d[i] == dec(n / 10)[i]);
            }
        }
    }
}

/// Writing a `u64` in decimal and reading it back gives the same number.
pub proof fn lemma_parse_dec(n: u64)
    ensures
        parse_u64_spec(dec(n as nat)) == Some(n),
{
    lemma_dec_reads_back(n as nat);
    assert(is_digit(dec(n as nat)[0]));
}


/// ASCII lower-casing of one character.
pub open spec fn lower(c: char) -> char {
    if 'A' <= c && c <= 'Z' {
        ((c as u32) + 32) as char
    } else {
        c
    }
}

/// Whether `s` equals the lower-case word `lit` when lower-cased.
pub open spec fn eq_ignore_case(s: Seq<char>, lit: Seq<char>) -> bool {
    s.len() == lit.len() && forall|i: int| 0 <= i < s.len() ==> lower(#[trigger] s[i]) == lit[i]
}

/// The number of leading ASCII digits of `s`.
pub open spec fn lead_digits(s: Seq<char>) -> nat
    decreases s.len(),
{
    if s.len() > 0 && is_digit(s[0]) {
        1 + lead_digits(s.drop_first())
    } else {
        0
    }
}

/// Whether `c` is `+` or `-`.
pub open spec fn is_sign(c: char) -> bool {
    c == '+' || c == '-'
}

/// `s` without its leading sign, if it has one.
pub open spec fn drop_sign(s: Seq<char>) -> Seq<char> {
    if s.len() > 0 && is_sign(s[0]) {
        s.drop_first()
    } else {
        s
    }
}

/// Whether `t` is what follows the `e` of an exponent: a sign, then digits.
pub open spec fn is_exponent_tail(t: Seq<char>) -> bool {
    let u = drop_sign(t);
    u.len() > 0 && all_digits(u)
}

/// Whether `b` is a decimal number: digits with at most one `.` among them,
/// at least one digit, then an optional exponent.
pub open spec fn is_decimal_number(b: Seq<char>) -> bool {
    let a = lead_digits(b);
    let r = b.skip(a as int);
    let has_dot = r.len() > 0 && r[0] == '.';
    let f = if has_dot {
        lead_digits(r.drop_first())
    } else {
        0
    };
    let r2 = if has_dot {
        r.drop_first().skip(f as int)
    } else {
        r
    };
    a + f >= 1 && (r2.len() == 0 || ((r2[0] == 'e' || r2[0] == 'E') && is_exponent_tail(
        r2.drop_first(),
    )))
}

/// Whether `f64::from_str` accepts `s`: an optional sign, then `inf`,
/// `infinity`, `nan` or a decimal number, letters in any case.
pub open spec fn is_float_token(s: Seq<char>) -> bool {
    let b = drop_sign(s);
    ||| eq_ignore_case(b, seq!['i', 'n', 'f'])
    ||| eq_ignore_case(b, seq!['i', 'n', 'f', 'i', 'n', 'i', 't', 'y'])
    ||| eq_ignore_case(b, seq!['n', 'a', 'n'])
    ||| is_decimal_number(b)
}

/// Characters that can occur in a number token.
pub open spec fn is_number_char(c: char) -> bool {
    is_digit(c) || is_sign(c) || c == '.' || ('a' <= c && c <= 'z') || ('A' <= c && c <= 'Z')
}

proof fn lemma_lead_digits(s: Seq<char>)
    ensures
        lead_digits(s) <= s.len(),
        forall|k: int| 0 <= k < lead_digits(s) ==> #[trigger] is_digit(s[k]),
        lead_digits(s) < s.len() ==> !is_digit(s[lead_digits(s) as int]),
    decreases s.len(),
{
    if s.len() > 0 && is_digit(s[0]) {
        lemma_lead_digits(s.drop_first());
        assert forall|k: int| 0 <= k < lead_digits(s) implies #[trigger] is_digit(s[k]) by {
            if k > 0 {
                assert(s[k] == s.drop_first()[k - 1]);
            }
        }
    }
}

proof fn lemma_lead_digits_step(s: Seq<char>, i: int)
    requires
        0 <= i < s.len(),
        is_digit(s[i]),
    ensures
        lead_digits(s.skip(i)) == 1 + lead_digits(s.skip(i + 1)),
{
    assert(s.skip(i).drop_first() == s.skip(i + 1));
}

/// Every character of a number token is a sign, digit, `.` or ASCII letter.
pub proof fn lemma_float_token_chars(s: Seq<char>)
    requires
        is_float_token(s),
    ensures
        s.len() > 0,
        forall|i: int| 0 <= i < s.len() ==> is_number_char(#[trigger] s[i]),
{
    let b = drop_sign(s);
    assert(b.len() > 0 && forall|i: int| 0 <= i < b.len() ==> is_number_char(#[trigger] b[i])) by {
        if eq_ignore_case(b, seq!['i', 'n', 'f']) || eq_ignore_case(
            b,
            seq!['i', 'n', 'f', 'i', 'n', 'i', 't', 'y'],
        ) || eq_ignore_case(b, seq!['n', 'a', 'n']) {
            assert forall|i: int| 0 <= i < b.len() implies is_number_char(#[trigger] b[i]) by {
                assert(lower(b[i]) != ' ');
            }
        } else {
            let a = lead_digits(b);
            lemma_lead_digits(b);
            let r = b.skip(a as int);
            let has_dot = r.len() > 0 && r[0] == '.';
            let f = if has_dot {
                lead_digits(r.drop_first())
            } else {
                0
            };
            lemma_lead_digits(r.drop_first());
            let r2 = if has_dot {
                r.drop_first().skip(f as int)
            } else {
                r
            };
            let e0 = if has_dot {
                (a + 1 + f) as int
            } else {
                a as int
            };
            assert(r2 == b.skip(e0));
            let t = r2.drop_first();
            let u = drop_sign(t);
            assert forall|i: int| 0 <= i < b.len() implies is_number_char(#[trigger] b[i]) by {
                if i < a {
                } else if i < e0 {
                    if i > a {
                        assert(b[i] == r.drop_first()[i - a - 1]);
                    }
                } else {
                    assert(b[i] == r2[i - e0]);
                    if i > e0 {
                        assert(b[i] == t[i - e0 - 1]);
                        if !(t.len() > 0 && is_sign(t[0]) && i == e0 + 1) {
                            let ui = if t.len() > 0 && is_sign(t[0]) {
                                i - e0 - 2
                            } else {
                                i - e0 - 1
                            };
                            assert(u[ui] == b[i]);
                            assert(is_digit(u[ui]));
                        }
                    }
                }
            }
        }
    }
    if s.len() > 0 && is_sign(s[0]) {
        assert forall|i: int| 0 <= i < s.len() implies is_number_char(#[trigger] s[i]) by {
            if i > 0 {
                assert(s[i] == b[i - 1]);
            }
        }
    }
}

/// The position after the run of digits starting at `i`.
fn skip_digits(s: &[char], i: usize) -> (j: usize)
    requires
        i <= s@.len(),
    ensures
        i <= j <= s@.len(),
        j - i == lead_digits(s@.skip(i as int)),
{
    let n = s.len();
    let mut j = i;
    while j < n && '0' <= s[j] && s[j] <= '9'
        invariant
            i <= j <= n,
            n == s@.len(),
            lead_digits(s@.skip(i as int)) == (j - i) + lead_digits(s@.skip(j as int)),
        decreases n - j,
    {
        proof {
            lemma_lead_digits_step(s@, j as int);
        }
        j += 1;
    }
    j
}

/// Whether `s[i..]` equals the lower-case word `lit` ignoring case.
fn rest_eq_ignore_case(s: &[char], i: usize, lit: &[char]) -> (b: bool)
    requires
        i <= s@.len(),
    ensures
        b == eq_ignore_case(s@.skip(i as int), lit@),
{
    let n = s.len();
    if n - i != lit.len() {
        return false;
    }
    let mut k: usize = 0;
    while k < lit.len()
        invariant
            k <= lit@.len(),
            n == s@.len(),
            n - i == lit@.len(),
            i <= n,
            forall|m: int| 0 <= m < k ==> lower(#[trigger] s@.skip(i as int)[m]) == lit@[m],
        decreases lit@.len() - k,
    {
        let c = s[i + k];
        let lc = if 'A' <= c && c <= 'Z' {
            ((c as u32) + 32) as u8 as char
        } else {
            c
        };
        assert(s@.skip(i as int)[k as int] == c);
        assert(lc == lower(c));
        if lc != lit[k] {
            return false;
        }
        k += 1;
    }
    true
}

/// Decides `is_decimal_number` of `s[p..]`.
fn decimal_number_at(s: &[char], p: usize) -> (r: bool)
    requires
        p <= s@.len(),
    ensures
        r == is_decimal_number(s@.skip(p as int)),
{
    let n = s.len();
    let ghost b = s@.skip(p as int);
    let a_end = skip_digits(s, p);
    let ghost a = lead_digits(b);
    assert(b.skip(a as int) == s@.skip(a_end as int));
    let mut q = a_end;
    let mut f: usize = 0;
    if q < n && s[q] == '.' {
        let f_end = skip_digits(s, q + 1);
        proof {
            let r = b.skip(a as int);
            assert(r.drop_first() == s@.skip(q + 1));
            assert(r.drop_first().skip((f_end - q - 1) as int) == s@.skip(f_end as int));
        }
        f = f_end - (q + 1);
        q = f_end;
    }
    let ghost r2 = s@.skip(q as int);
    if (a_end - p) + f < 1 {
        return false;
    }
    if q == n {
        return true;
    }
    if s[q] != 'e' && s[q] != 'E' {
        return false;
    }
    let mut t = q + 1;
    if t < n && (s[t] == '+' || s[t] == '-') {
        t = t + 1;
    }
    proof {
        assert(r2.drop_first() == s@.skip(q + 1));
        assert(drop_sign(r2.drop_first()) == s@.skip(t as int));
    }
    if t == n {
        return false;
    }
    let e_end = skip_digits(s, t);
    proof {
        lemma_lead_digits(s@.skip(t as int));
        let u = s@.skip(t as int);
        if e_end == n {
            assert forall|m: int| 0 <= m < u.len() implies #[trigger] is_digit(u[m]) by {}
        } else {
            assert(u[(e_end - t) as int] == s@[e_end as int]);
        }
    }
    e_end == n
}

/// Decides `is_float_token`: whether the token reads as an `f64`.
pub fn is_float_chars(s: &[char]) -> (b: bool)
    ensures
        b == is_float_token(s@),
{
    let n = s.len();
    let mut p: usize = 0;
    if n > 0 && (s[0] == '+' || s[0] == '-') {
        p = 1;
    }
    assert(s@.skip(p as int) == drop_sign(s@));
    let r1 = rest_eq_ignore_case(s, p, &['i', 'n', 'f']);
    let r2 = rest_eq_ignore_case(s, p, &['i', 'n', 'f', 'i', 'n', 'i', 't', 'y']);
    let r3 = rest_eq_ignore_case(s, p, &['n', 'a', 'n']);
    let r4 = decimal_number_at(s, p);
    r1 || r2 || r3 || r4
}

} // verus!
