//! The token syntax of a label line: whitespace-separated bare words, and
//! double-quoted text in which a backslash takes the next character literally.

use vstd::prelude::*;

use crate::text::{char_is_ws, is_ws, no_newline};

verus! {

/// A token of a line: its text, and whether it was written in quotes.
pub struct Tok {
    pub quoted: bool,
    pub content: Seq<char>,
}

/// A token as the lexer hands it out.
pub struct Token {
    pub quoted: bool,
    pub content: Vec<char>,
}

impl View for Token {
    type V = Tok;

    open spec fn view(&self) -> Tok {
        Tok { quoted: self.quoted, content: self.content@ }
    }
}

/// The tokens that a vector of lexer tokens stands for.
pub open spec fn toks_of(v: Seq<Token>) -> Seq<Tok> {
    v.map_values(|t: Token| t@)
}

/// The length of the run of non-whitespace characters that starts `s`.
pub open spec fn bare_len(s: Seq<char>) -> nat
    decreases s.len(),
{
    if s.len() > 0 && !is_ws(s[0]) {
        1 + bare_len(s.drop_first())
    } else {
        0
    }
}

/// Reads quoted text that starts just after its opening quote: the text up to
/// the closing quote, a backslash taking the next character literally, and the
/// number of characters read, closing quote included. `None` if the text is
/// not closed.
pub open spec fn qscan(s: Seq<char>) -> Option<(Seq<char>, nat)>
    decreases s.len(),
{
    if s.len() == 0 {
        None
    } else if s[0] == '"' {
        Some((Seq::empty(), 1))
    } else if s[0] == '\\' {
        if s.len() < 2 {
            None
        } else {
            match qscan(s.skip(2)) {
                Some((c, n)) => Some((seq![s[1]] + c, n + 2)),
                None => None,
            }
        }
    } else {
        match qscan(s.drop_first()) {
            Some((c, n)) => Some((seq![s[0]] + c, n + 1)),
            None => None,
        }
    }
}

pub proof fn lemma_bare_len(s: Seq<char>)
    ensures
        bare_len(s) <= s.len(),
        s.len() > 0 && !is_ws(s[0]) ==> bare_len(s) >= 1,
        forall|k: int| 0 <= k < bare_len(s) ==> !is_ws(#[trigger] s[k]),
        bare_len(s) < s.len() ==> is_ws(s[bare_len(s) as int]),
    decreases s.len(),
{
    if s.len() > 0 && !is_ws(s[0]) {
        lemma_bare_len(s.drop_first());
        assert forall|k: int| 0 <= k < bare_len(s) implies !is_ws(#[trigger] s[k]) by {
            if k > 0 {
                assert(s[k] == s.drop_first()[k - 1]);
            }
        }
    }
}

pub proof fn lemma_qscan_len(s: Seq<char>)
    ensures
        qscan(s) matches Some((c, n)) ==> 1 <= n <= s.len(),
    decreases s.len(),
{
    if s.len() > 0 && s[0] != '"' {
        if s[0] == '\\' {
            if s.len() >= 2 {
                lemma_qscan_len(s.skip(2));
            }
        } else {
            lemma_qscan_len(s.drop_first());
        }
    }
}

/// The tokens of a line, or `None` where quoted text is not closed or its
/// closing quote is not followed by whitespace or the end of the line.
pub open spec fn lex(s: Seq<char>) -> Option<Seq<Tok>>
    decreases s.len(),
{
    if s.len() == 0 {
        Some(Seq::empty())
    } else if is_ws(s[0]) {
        lex(s.drop_first())
    } else if s[0] == '"' {
        match qscan(s.drop_first()) {
            None => None,
            Some((c, n)) => {
                proof {
                    lemma_qscan_len(s.drop_first());
                }
                let r = s.skip(1 + n as int);
                if r.len() > 0 && !is_ws(r[0]) {
                    None
                } else {
                    match lex(r) {
                        None => None,
                        Some(ts) => Some(seq![Tok { quoted: true, content: c }] + ts),
                    }
                }
            },
        }
    } else {
        proof {
            lemma_bare_len(s);
        }
        let k = bare_len(s);
        match lex(s.skip(k as int)) {
            None => None,
            Some(ts) => Some(seq![Tok { quoted: false, content: s.take(k as int) }] + ts),
        }
    }
}

/// `done` followed by the tokens of `rest`, if `rest` lexes.
pub open spec fn then_lex(done: Seq<Tok>, rest: Option<Seq<Tok>>) -> Option<Seq<Tok>> {
    match rest {
        Some(ts) => Some(done + ts),
        None => None,
    }
}


proof fn lemma_bare_len_append(a: Seq<char>, b: Seq<char>)
    requires
        bare_len(a) < a.len() || b.len() == 0 || is_ws(b[0]),
    ensures
        bare_len(a + b) == bare_len(a),
    decreases a.len(),
{
    if a.len() == 0 {
        assert(a + b == b);
    } else if !is_ws(a[0]) {
        assert((a + b)[0] == a[0]);
        assert((a + b).drop_first() == a.drop_first() + b);
        lemma_bare_len_append(a.drop_first(), b);
    } else {
        assert((a + b)[0] == a[0]);
    }
}

proof fn lemma_qscan_append(x: Seq<char>, y: Seq<char>)
    requires
        qscan(x) is Some,
    ensures
        qscan(x + y) == qscan(x),
    decreases x.len(),
{
    assert((x + y)[0] == x[0]);
    if x[0] == '"' {
    } else if x[0] == '\\' {
        assert((x + y)[1] == x[1]);
        assert((x + y).skip(2) == x.skip(2) + y);
        lemma_qscan_append(x.skip(2), y);
    } else {
        assert((x + y).drop_first() == x.drop_first() + y);
        lemma_qscan_append(x.drop_first(), y);
    }
}

/// Lexing stops at whitespace: where `b` is empty or starts with whitespace,
/// the tokens of `a + b` are those of `a` followed by those of `b`.
pub proof fn lemma_lex_append(a: Seq<char>, b: Seq<char>)
    requires
        lex(a) is Some,
        b.len() == 0 || is_ws(b[0]),
    ensures
        lex(a + b) == then_lex(lex(a)->0, lex(b)),
    decreases a.len(),
{
    if a.len() == 0 {
        assert(a + b == b);
        match lex(b) {
            Some(tb) => {
                assert(Seq::<Tok>::empty() + tb == tb);
            },
            None => {},
        }
    } else {
        assert((a + b)[0] == a[0]);
        if is_ws(a[0]) {
            assert((a + b).drop_first() == a.drop_first() + b);
            lemma_lex_append(a.drop_first(), b);
        } else if a[0] == '"' {
            let (c, n) = qscan(a.drop_first())->0;
            lemma_qscan_len(a.drop_first());
            assert((a + b).drop_first() == a.drop_first() + b);
            lemma_qscan_append(a.drop_first(), b);
            let ra = a.skip(1 + n as int);
            assert((a + b).skip(1 + n as int) == ra + b);
            if ra.len() > 0 {
                assert((ra + b)[0] == ra[0]);
            } else {
                assert(ra + b == b);
            }
            lemma_lex_append(ra, b);
            let ta = lex(ra)->0;
            match lex(b) {
                Some(tb) => {
                    assert(seq![Tok { quoted: true, content: c }] + (ta + tb) == seq![
                        Tok { quoted: true, content: c },
                    ] + ta + tb);
                },
                None => {},
            }
        } else {
            lemma_bare_len(a);
            let k = bare_len(a);
            lemma_bare_len_append(a, b);
            assert((a + b).skip(k as int) == a.skip(k as int) + b);
            assert((a + b).take(k as int) == a.take(k as int));
            lemma_lex_append(a.skip(k as int), b);
            let ta = lex(a.skip(k as int))->0;
            match lex(b) {
                Some(tb) => {
                    assert(seq![Tok { quoted: false, content: a.take(k as int) }] + (ta + tb)
                        == seq![Tok { quoted: false, content: a.take(k as int) }] + ta + tb);
                },
                None => {},
            }
        }
    }
}

proof fn lemma_qscan_none_cr(x: Seq<char>)
    requires
        qscan(x) is None,
    ensures
        qscan(x + seq!['\r']) is None,
    decreases x.len(),
{
    let v = x + seq!['\r'];
    if x.len() == 0 {
        assert(v[0] == '\r');
        assert(v.drop_first() =~= Seq::<char>::empty());
        assert(qscan(v.drop_first()) is None);
        assert(qscan(v) is None);
    } else {
        assert(v[0] == x[0]);
        if x[0] == '\\' {
            if x.len() < 2 {
                assert(v.skip(2) =~= Seq::<char>::empty());
                assert(qscan(v.skip(2)) is None);
            } else {
                assert(v[1] == x[1]);
                assert(v.skip(2) =~= x.skip(2) + seq!['\r']);
                lemma_qscan_none_cr(x.skip(2));
                assert(qscan(v) is None);
            }
        } else {
            assert(v.drop_first() =~= x.drop_first() + seq!['\r']);
            lemma_qscan_none_cr(x.drop_first());
            assert(qscan(v) is None);
        }
    }
}

/// A carriage return at the end of a line changes none of its tokens, nor
/// whether it lexes.
pub proof fn lemma_lex_cr(u: Seq<char>)
    ensures
        lex(u + seq!['\r']) == lex(u),
    decreases u.len(),
{
    let cr = seq!['\r'];
    let v = u + cr;
    assert(is_ws('\r'));
    assert(cr[0] == '\r');
    assert(cr.drop_first() =~= Seq::<char>::empty());
    assert(lex(Seq::<char>::empty()) == Some(Seq::<Tok>::empty()));
    assert(lex(cr) == Some(Seq::<Tok>::empty()));
    if lex(u) is Some {
        lemma_lex_append(u, cr);
        assert(lex(u)->0 + Seq::<Tok>::empty() =~= lex(u)->0);
    } else {
        assert(u.len() > 0);
        assert(v[0] == u[0]);
        if is_ws(u[0]) {
            assert(v.drop_first() =~= u.drop_first() + cr);
            lemma_lex_cr(u.drop_first());
            assert(lex(v) is None);
        } else if u[0] == '"' {
            let x = u.drop_first();
            assert(v.drop_first() =~= x + cr);
            if qscan(x) is None {
                lemma_qscan_none_cr(x);
                assert(lex(v) is None);
            } else {
                let (c, n) = qscan(x)->0;
                lemma_qscan_len(x);
                lemma_qscan_append(x, cr);
                let r = u.skip(1 + n as int);
                assert(v.skip(1 + n as int) =~= r + cr);
                if r.len() > 0 {
                    assert((r + cr)[0] == r[0]);
                    if is_ws(r[0]) {
                        lemma_lex_cr(r);
                    }
                }
                assert(lex(v) is None);
            }
        } else {
            lemma_bare_len(u);
            let k = bare_len(u);
            lemma_bare_len_append(u, cr);
            assert(v.skip(k as int) =~= u.skip(k as int) + cr);
            assert(v.take(k as int) =~= u.take(k as int));
            lemma_lex_cr(u.skip(k as int));
            assert(lex(v) is None);
        }
    }
}

/// Tokens separated by a space: the tokens of `a + " " + b` are those of `a`
/// followed by those of `b`.
pub proof fn lemma_lex_sep(a: Seq<char>, b: Seq<char>)
    requires
        lex(a) is Some,
    ensures
        lex(a + seq![' '] + b) == then_lex(lex(a)->0, lex(b)),
{
    let sb = seq![' '] + b;
    assert(is_ws(sb[0]));
    lemma_lex_append(a, sb);
    assert(sb.drop_first() == b);
    assert(a + seq![' '] + b == a + sb);
}

/// A run of non-whitespace characters that does not start with a quote is one
/// bare token.
pub proof fn lemma_lex_word(w: Seq<char>)
    requires
        w.len() > 0,
        w[0] != '"',
        forall|i: int| 0 <= i < w.len() ==> !is_ws(#[trigger] w[i]),
    ensures
        lex(w) == Some(seq![Tok { quoted: false, content: w }]),
{
    assert(!is_ws(w[0]));
    lemma_bare_len(w);
    if bare_len(w) < w.len() {
        assert(is_ws(w[bare_len(w) as int]));
    }
    assert(bare_len(w) == w.len());
    assert(lex(Seq::<char>::empty()) == Some(Seq::<Tok>::empty()));
    assert(w.skip(w.len() as int) == Seq::<char>::empty());
    assert(w.take(w.len() as int) == w);
    assert(seq![Tok { quoted: false, content: w }] + Seq::<Tok>::empty() == seq![
        Tok { quoted: false, content: w },
    ]);
}

/// Every bare token is a non-empty run of non-whitespace characters.
pub proof fn lemma_lex_bare_words(s: Seq<char>)
    requires
        lex(s) is Some,
    ensures
        forall|i: int|
            0 <= i < lex(s)->0.len() && !(#[trigger] lex(s)->0[i]).quoted ==> lex(s)->0[i].content.len()
                > 0 && forall|j: int|
                0 <= j < lex(s)->0[i].content.len() ==> !is_ws(#[trigger] lex(s)->0[i].content[j]),
    decreases s.len(),
{
    if s.len() == 0 {
    } else if is_ws(s[0]) {
        lemma_lex_bare_words(s.drop_first());
    } else if s[0] == '"' {
        let (c, n) = qscan(s.drop_first())->0;
        lemma_qscan_len(s.drop_first());
        let r = s.skip(1 + n as int);
        lemma_lex_bare_words(r);
        let ts = lex(s)->0;
        let tr = lex(r)->0;
        assert forall|i: int| 1 <= i < ts.len() implies ts[i] == tr[i - 1] by {}
    } else {
        lemma_bare_len(s);
        let k = bare_len(s);
        lemma_lex_bare_words(s.skip(k as int));
        let ts = lex(s)->0;
        let tr = lex(s.skip(k as int))->0;
        assert forall|i: int| 1 <= i < ts.len() implies ts[i] == tr[i - 1] by {}
        assert(ts[0].content == s.take(k as int));
        assert forall|j: int| 0 <= j < ts[0].content.len() implies !is_ws(
            #[trigger] ts[0].content[j],
        ) by {
            assert(ts[0].content[j] == s[j]);
        }
    }
}

proof fn lemma_qscan_keeps_newline_free(s: Seq<char>)
    requires
        no_newline(s),
        qscan(s) is Some,
    ensures
        qscan(s) matches Some((c, _)) ==> no_newline(c),
    decreases s.len(),
{
    if s[0] == '"' {
    } else if s[0] == '\\' {
        let t = s.skip(2);
        assert forall|j: int| 0 <= j < t.len() implies #[trigger] t[j] != '\n' by {
            assert(t[j] == s[j + 2]);
        }
        lemma_qscan_keeps_newline_free(t);
        let (c, _) = qscan(t)->0;
        assert(s[1] != '\n');
        assert forall|j: int| 0 <= j < (seq![s[1]] + c).len() implies #[trigger] (seq![s[1]] + c)[j] != '\n' by {
            if j > 0 {
                assert((seq![s[1]] + c)[j] == c[j - 1]);
            }
        }
    } else {
        let t = s.drop_first();
        assert forall|j: int| 0 <= j < t.len() implies #[trigger] t[j] != '\n' by {
            assert(t[j] == s[j + 1]);
        }
        lemma_qscan_keeps_newline_free(t);
        let (c, _) = qscan(t)->0;
        assert(s[0] != '\n');
        assert forall|j: int| 0 <= j < (seq![s[0]] + c).len() implies #[trigger] (seq![s[0]] + c)[j] != '\n' by {
            if j > 0 {
                assert((seq![s[0]] + c)[j] == c[j - 1]);
            }
        }
    }
}

/// The tokens of a line without newlines hold no newline.
pub proof fn lemma_lex_keeps_newline_free(s: Seq<char>)
    requires
        no_newline(s),
        lex(s) is Some,
    ensures
        forall|i: int| 0 <= i < lex(s)->0.len() ==> no_newline(#[trigger] lex(s)->0[i].content),
    decreases s.len(),
{
    if s.len() == 0 {
    } else if is_ws(s[0]) {
        let t = s.drop_first();
        assert forall|j: int| 0 <= j < t.len() implies #[trigger] t[j] != '\n' by {
            assert(t[j] == s[j + 1]);
        }
        lemma_lex_keeps_newline_free(t);
    } else if s[0] == '"' {
        let t = s.drop_first();
        assert forall|j: int| 0 <= j < t.len() implies #[trigger] t[j] != '\n' by {
            assert(t[j] == s[j + 1]);
        }
        lemma_qscan_keeps_newline_free(t);
        let (c, n) = qscan(t)->0;
        lemma_qscan_len(t);
        let r = s.skip(1 + n as int);
        assert forall|j: int| 0 <= j < r.len() implies #[trigger] r[j] != '\n' by {
            assert(r[j] == s[j + 1 + n]);
        }
        lemma_lex_keeps_newline_free(r);
        let ts = lex(s)->0;
        let tr = lex(r)->0;
        assert forall|i: int| 1 <= i < ts.len() implies ts[i] == tr[i - 1] by {}
    } else {
        lemma_bare_len(s);
        let k = bare_len(s);
        let r = s.skip(k as int);
        assert forall|j: int| 0 <= j < r.len() implies #[trigger] r[j] != '\n' by {
            assert(r[j] == s[j + k]);
        }
        lemma_lex_keeps_newline_free(r);
        let ts = lex(s)->0;
        let tr = lex(r)->0;
        assert forall|i: int| 1 <= i < ts.len() implies ts[i] == tr[i - 1] by {}
        assert forall|j: int| 0 <= j < ts[0].content.len() implies #[trigger] ts[0].content[j]
            != '\n' by {
            assert(ts[0].content[j] == s[j]);
        }
    }
}

/// The end of the run of non-whitespace characters that starts at `i`.
fn scan_bare(s: &[char], i: usize) -> (j: usize)
    requires
        i < s@.len(),
        !is_ws(s@[i as int]),
    ensures
        i < j <= s@.len(),
        j - i == bare_len(s@.skip(i as int)),
{
    let n = s.len();
    let mut j = i;
    while j < n && !char_is_ws(s[j])
        invariant
            i <= j <= n,
            n == s@.len(),
            j == i ==> !is_ws(s@[i as int]),
            bare_len(s@.skip(i as int)) == (j - i) + bare_len(s@.skip(j as int)),
        decreases n - j,
    {
        assert(s@.skip(j as int).drop_first() == s@.skip(j + 1));
        j += 1;
    }
    j
}

/// Reads quoted text from `i`, just after its opening quote: the text and the
/// position after the closing quote.
fn scan_quoted(s: &[char], i: usize) -> (r: Option<(Vec<char>, usize)>)
    requires
        i <= s@.len(),
    ensures
        match qscan(s@.skip(i as int)) {
            None => r is None,
            Some((c, n)) => r matches Some((v, e)) && v@ == c && e == i + n,
        },
{
    let n = s.len();
    let mut j = i;
    let mut acc: Vec<char> = Vec::new();
    loop
        invariant
            i <= j <= n,
            n == s@.len(),
            qscan(s@.skip(i as int)) == match qscan(s@.skip(j as int)) {
                Some((c, m)) => Some((acc@ + c, ((j - i) + m) as nat)),
                None => None,
            },
        decreases n - j,
    {
        let ghost t = s@.skip(j as int);
        if j == n {
            return None;
        }
        let c = s[j];
        if c == '"' {
            assert(acc@ + Seq::<char>::empty() == acc@);
            return Some((acc, j + 1));
        }
        if c == '\\' {
            if j + 1 == n {
                return None;
            }
            assert(t.skip(2) == s@.skip(j + 2));
            assert(t[1] == s@[j + 1]);
            let ghost before = acc@;
            acc.push(s[j + 1]);
            proof {
                match qscan(s@.skip(j + 2)) {
                    Some((c2, m2)) => {
                        assert(acc@ + c2 == before + (seq![t[1]] + c2));
                    },
                    None => {},
                }
            }
            j += 2;
        } else {
            assert(t.drop_first() == s@.skip(j + 1));
            let ghost before = acc@;
            acc.push(c);
            proof {
                match qscan(s@.skip(j + 1)) {
                    Some((c2, m2)) => {
                        assert(acc@ + c2 == before + (seq![c] + c2));
                    },
                    None => {},
                }
            }
            j += 1;
        }
    }
}

/// The characters `s[i..j]`.
pub fn copy_range(s: &[char], i: usize, j: usize) -> (v: Vec<char>)
    requires
        i <= j <= s@.len(),
    ensures
        v@ == s@.subrange(i as int, j as int),
{
    let mut v: Vec<char> = Vec::new();
    let mut k = i;
    while k < j
        invariant
            i <= k <= j,
            j <= s@.len(),
            v@ == s@.subrange(i as int, k as int),
        decreases j - k,
    {
        v.push(s[k]);
        k += 1;
    }
    v
}

/// Splits a line into its tokens; `None` where `lex` gives `None`.
pub fn lex_chars(s: &[char]) -> (r: Option<Vec<Token>>)
    ensures
        match lex(s@) {
            None => r is None,
            Some(ts) => r matches Some(v) && toks_of(v@) == ts,
        },
{
    let n = s.len();
    let mut i: usize = 0;
    let mut out: Vec<Token> = Vec::new();
    assert(s@.skip(0) == s@);
    assert(toks_of(out@) == Seq::<Tok>::empty());
    proof {
        match lex(s@) {
            Some(ts) => {
                assert(Seq::<Tok>::empty() + ts == ts);
            },
            None => {},
        }
    }
    while i < n
        invariant
            i <= n,
            n == s@.len(),
            lex(s@) == then_lex(toks_of(out@), lex(s@.skip(i as int))),
        decreases n - i,
    {
        let ghost t = s@.skip(i as int);
        let c = s[i];
        if char_is_ws(c) {
            assert(t.drop_first() == s@.skip(i + 1));
            i += 1;
        } else if c == '"' {
            assert(t.drop_first() == s@.skip(i + 1));
            match scan_quoted(s, i + 1) {
                None => {
                    return None;
                },
                Some((content, e)) => {
                    proof {
                        lemma_qscan_len(s@.skip(i + 1));
                    }
                    assert(t.skip((e - i) as int) == s@.skip(e as int));
                    if e < n && !char_is_ws(s[e]) {
                        assert(t.skip((e - i) as int)[0] == s@[e as int]);
                        return None;
                    }
                    let ghost done = toks_of(out@);
                    let tok = Token { quoted: true, content };
                    out.push(tok);
                    proof {
                        assert(toks_of(out@) == done + seq![tok@]);
                        match lex(s@.skip(e as int)) {
                            Some(ts) => {
                                assert(done + seq![tok@] + ts == done + (seq![tok@] + ts));
                            },
                            None => {},
                        }
                    }
                    i = e;
                },
            }
        } else {
            let j = scan_bare(s, i);
            proof {
                lemma_bare_len(t);
            }
            assert(t.skip((j - i) as int) == s@.skip(j as int));
            assert(t.take((j - i) as int) == s@.subrange(i as int, j as int));
            let content = copy_range(s, i, j);
            let ghost done = toks_of(out@);
            let tok = Token { quoted: false, content };
            out.push(tok);
            proof {
                assert(toks_of(out@) == done + seq![tok@]);
                match lex(s@.skip(j as int)) {
                    Some(ts) => {
                        assert(done + seq![tok@] + ts == done + (seq![tok@] + ts));
                    },
                    None => {},
                }
            }
            i = j;
        }
    }
    assert(s@.skip(n as int) == Seq::<char>::empty());
    assert(toks_of(out@) + Seq::<Tok>::empty() == toks_of(out@));
    Some(out)
}

} // verus!
