//! A single label: one line of a `.lab` file.

use vstd::prelude::*;
use vstd::string::StringExecFns;

use crate::error::{ErrorModel, KindModel, ParseError, ParseErrorKind};
use crate::number::{
    all_digits, chars_all_digits, dec, is_digit, is_float_chars, is_float_token,
    is_number_char, lemma_dec_reads_back, lemma_float_token_chars, lemma_parse_dec,
    parse_u64_chars, parse_u64_spec, push_decimal,
};
use crate::syntax::{
    lemma_lex_bare_words, lemma_lex_keeps_newline_free, lemma_lex_sep, lemma_lex_word, lex, lex_chars, qscan, toks_of, Tok, Token,
};
use crate::text::{chars_of, is_ws, no_newline, push_char, string_of_chars};

verus! {

/// A single labelled segment; times are in 100 ns units as stored in the file.
#[derive(Debug, Clone, PartialEq, Eq)]
pub struct Label {
    /// start time in 100ns units
    pub start: Option<u64>,
    /// end time in 100ns units
    pub end: Option<u64>,
    /// the label text, e.g. a phone or word
    pub text: String,
    /// the score following the label text, as written
    pub score: Option<String>,
}

/// What a label holds, its texts as character sequences.
pub struct LabelModel {
    pub start: Option<u64>,
    pub end: Option<u64>,
    pub text: Seq<char>,
    pub score: Option<Seq<char>>,
}

impl View for Label {
    type V = LabelModel;

    open spec fn view(&self) -> LabelModel {
        LabelModel {
            start: self.start,
            end: self.end,
            text: self.text@,
            score: match self.score {
                Some(s) => Some(s@),
                None => None,
            },
        }
    }
}

/// How a token reads in a time field.
pub enum TimeField {
    /// an unsigned integer: the time
    Time(u64),
    /// not a time: the token is label text
    NotTime,
    /// digits only, but too large for a `u64`
    Overflow,
}

/// How a token's text reads as a time: an integer, label text, or digits
/// that overflow.
pub open spec fn time_spec(s: Seq<char>) -> TimeField {
    match parse_u64_spec(s) {
        Some(v) => TimeField::Time(v),
        None => if all_digits(s) {
            TimeField::Overflow
        } else {
            TimeField::NotTime
        },
    }
}

/// How a token reads as a time; quoted text never is one.
pub open spec fn tok_time(t: Tok) -> TimeField {
    if t.quoted {
        TimeField::NotTime
    } else {
        time_spec(t.content)
    }
}

/// The time fields that lead a line's tokens: the start, the end, and how
/// many tokens they take, or the token that overflows. Only leading integers
/// are times, at most two of them, and the last token is never one. A
/// leading empty quoted token followed by an integer stands for a missing
/// start before an end.
pub open spec fn time_fields(ts: Seq<Tok>) -> Result<(Option<u64>, Option<u64>, nat), Seq<char>> {
    if ts.len() >= 3 && ts[0].quoted && ts[0].content.len() == 0 && !(tok_time(ts[1]) is NotTime) {
        match tok_time(ts[1]) {
            TimeField::Time(e) => Ok((None, Some(e), 2)),
            _ => Err(ts[1].content),
        }
    } else if ts.len() >= 2 {
        match tok_time(ts[0]) {
            TimeField::NotTime => Ok((None, None, 0)),
            TimeField::Overflow => Err(ts[0].content),
            TimeField::Time(s) => if ts.len() >= 3 {
                match tok_time(ts[1]) {
                    TimeField::NotTime => Ok((Some(s), None, 1)),
                    TimeField::Overflow => Err(ts[1].content),
                    TimeField::Time(e) => Ok((Some(s), Some(e), 2)),
                }
            } else {
                Ok((Some(s), None, 1))
            },
        }
    } else {
        Ok((None, None, 0))
    }
}

/// The texts of tokens joined by single spaces.
pub open spec fn join_toks(ts: Seq<Tok>) -> Seq<char>
    decreases ts.len(),
{
    if ts.len() == 0 {
        Seq::empty()
    } else if ts.len() == 1 {
        ts[0].content
    } else {
        join_toks(ts.drop_last()) + seq![' '] + ts.last().content
    }
}

/// Whether the last of the tokens after the times is a score: a bare number
/// after at least one token of label text.
pub open spec fn has_score(rest: Seq<Tok>) -> bool {
    rest.len() >= 2 && !rest.last().quoted && is_float_token(rest.last().content)
}

/// The error of a line.
pub open spec fn line_error(line: usize, kind: KindModel) -> ErrorModel {
    ErrorModel { line, kind }
}

/// The label that a line's tokens describe, or the error reported for line `n`.
pub open spec fn label_of_toks(ts: Seq<Tok>, n: usize) -> Result<LabelModel, ErrorModel> {
    if ts.len() == 0 {
        Err(line_error(n, KindModel::InvalidLabel("line is empty"@)))
    } else {
        match time_fields(ts) {
            Err(t) => Err(line_error(n, KindModel::InvalidTime(t))),
            Ok((st, en, k)) => if st is Some && en is Some && st->0 > en->0 {
                Err(line_error(n, KindModel::StartAfterEnd(st->0, en->0)))
            } else {
                let rest = ts.skip(k as int);
                if has_score(rest) {
                    Ok(
                        LabelModel {
                            start: st,
                            end: en,
                            text: join_toks(rest.drop_last()),
                            score: Some(rest.last().content),
                        },
                    )
                } else {
                    Ok(LabelModel { start: st, end: en, text: join_toks(rest), score: None })
                }
            },
        }
    }
}

/// What parsing the text of line number `n` gives.
pub open spec fn parse_line_spec(line: Seq<char>, n: usize) -> Result<LabelModel, ErrorModel> {
    match lex(line) {
        None => Err(line_error(n, KindModel::InvalidLabel("malformed quoted text"@))),
        Some(ts) => label_of_toks(ts, n),
    }
}

/// A parse result seen through the views of its label or error.
pub open spec fn result_view(r: Result<Label, ParseError>) -> Result<LabelModel, ErrorModel> {
    match r {
        Ok(l) => Ok(l@),
        Err(e) => Err(e@),
    }
}

/// What `parse_time` gives for a token: `Ok(Some(t))` for a time,
/// `Ok(None)` for label text, an `InvalidTime` error for digits that overflow.
pub open spec fn parse_time_spec(token: Seq<char>, n: usize) -> Result<Option<u64>, ErrorModel> {
    match time_spec(token) {
        TimeField::Time(v) => Ok(Some(v)),
        TimeField::NotTime => Ok(None),
        TimeField::Overflow => Err(line_error(n, KindModel::InvalidTime(token))),
    }
}

fn time_of_chars(s: &[char]) -> (r: TimeField)
    ensures
        r == time_spec(s@),
{
    match parse_u64_chars(s) {
        Some(v) => TimeField::Time(v),
        None => if chars_all_digits(s) {
            TimeField::Overflow
        } else {
            TimeField::NotTime
        },
    }
}

fn token_time(t: &Token) -> (r: TimeField)
    ensures
        r == tok_time(t@),
{
    if t.quoted {
        TimeField::NotTime
    } else {
        time_of_chars(t.content.as_slice())
    }
}

/// Reads a token as a time: `Ok(None)` means the token is label text, not a
/// time; digits that overflow a `u64` are an error rather than text.
pub fn parse_time(token: &str, line_no: usize) -> (r: Result<Option<u64>, ParseError>)
    ensures
        match r {
            Ok(t) => parse_time_spec(token@, line_no) == Ok::<Option<u64>, ErrorModel>(t),
            Err(e) => parse_time_spec(token@, line_no) == Err::<Option<u64>, ErrorModel>(e@),
        },
{
    let cs = chars_of(token);
    match time_of_chars(cs.as_slice()) {
        TimeField::Time(v) => Ok(Some(v)),
        TimeField::NotTime => Ok(None),
        TimeField::Overflow => Err(
            ParseError {
                line: line_no,
                kind: ParseErrorKind::InvalidTime(String::from_str(token)),
            },
        ),
    }
}

/// The texts of `ts[from..to]` joined by single spaces.
fn join_tokens(ts: &Vec<Token>, from: usize, to: usize) -> (s: String)
    requires
        from < to <= ts@.len(),
    ensures
        s@ == join_toks(toks_of(ts@).subrange(from as int, to as int)),
{
    let ghost all = toks_of(ts@);
    let mut s = string_of_chars(ts[from].content.as_slice());
    assert(all.subrange(from as int, from + 1).len() == 1);
    assert(all.subrange(from as int, from + 1)[0] == ts@[from as int]@);
    let mut k = from + 1;
    while k < to
        invariant
            from < k <= to,
            to <= ts@.len(),
            all == toks_of(ts@),
            s@ == join_toks(all.subrange(from as int, k as int)),
        decreases to - k,
    {
        let ghost before = s@;
        push_char(&mut s, ' ');
        let w = string_of_chars(ts[k].content.as_slice());
        s.append(w.as_str());
        proof {
            let sub = all.subrange(from as int, k + 1);
            assert(sub.drop_last() == all.subrange(from as int, k as int));
            assert(sub.last() == ts@[k as int]@);
            assert(s@ == before + seq![' '] + ts@[k as int]@.content);
        }
        k += 1;
    }
    s
}

/// The label of a line's tokens.
fn label_from_tokens(ts: &Vec<Token>, line_no: usize) -> (r: Result<Label, ParseError>)
    ensures
        result_view(r) == label_of_toks(toks_of(ts@), line_no),
{
    let ghost tv = toks_of(ts@);
    let n = ts.len();
    if n == 0 {
        return Err(
            ParseError {
                line: line_no,
                kind: ParseErrorKind::InvalidLabel(String::from_str("line is empty")),
            },
        );
    }
    let mut start: Option<u64> = None;
    let mut end: Option<u64> = None;
    let mut k: usize = 0;
    let marker = n >= 3 && ts[0].quoted && ts[0].content.len() == 0;
    let t1 = if n >= 2 {
        token_time(&ts[1])
    } else {
        TimeField::NotTime
    };
    let t1_is_text = match t1 {
        TimeField::NotTime => true,
        _ => false,
    };
    if marker && !t1_is_text {
        match t1 {
            TimeField::Time(e) => {
                end = Some(e);
                k = 2;
            },
            _ => {
                return Err(
                    ParseError {
                        line: line_no,
                        kind: ParseErrorKind::InvalidTime(
                            string_of_chars(ts[1].content.as_slice()),
                        ),
                    },
                );
            },
        }
    } else if n >= 2 {
        match token_time(&ts[0]) {
            TimeField::NotTime => {},
            TimeField::Overflow => {
                return Err(
                    ParseError {
                        line: line_no,
                        kind: ParseErrorKind::InvalidTime(
                            string_of_chars(ts[0].content.as_slice()),
                        ),
                    },
                );
            },
            TimeField::Time(s) => {
                start = Some(s);
                k = 1;
                if n >= 3 {
                    match t1 {
                        TimeField::NotTime => {},
                        TimeField::Overflow => {
                            return Err(
                                ParseError {
                                    line: line_no,
                                    kind: ParseErrorKind::InvalidTime(
                                        string_of_chars(ts[1].content.as_slice()),
                                    ),
                                },
                            );
                        },
                        TimeField::Time(e) => {
                            end = Some(e);
                            k = 2;
                        },
                    }
                }
            },
        }
    }
    assert(time_fields(tv) == Ok::<(Option<u64>, Option<u64>, nat), Seq<char>>(
        (start, end, k as nat),
    ));
    if let (Some(s), Some(e)) = (start, end) {
        if s > e {
            return Err(
                ParseError { line: line_no, kind: ParseErrorKind::StartAfterEnd { start: s, end: e } },
            );
        }
    }
    let ghost rest = tv.skip(k as int);
    assert(rest.len() == n - k);
    let last = &ts[n - 1];
    assert(rest.last() == last@);
    let scored = n - k >= 2 && !last.quoted && is_float_chars(last.content.as_slice());
    if scored {
        assert(rest.drop_last() == tv.subrange(k as int, n - 1));
        let text = join_tokens(ts, k, n - 1);
        let score = string_of_chars(last.content.as_slice());
        Ok(Label { start, end, text, score: Some(score) })
    } else {
        assert(rest == tv.subrange(k as int, n as int));
        let text = join_tokens(ts, k, n);
        Ok(Label { start, end, text, score: None })
    }
}

/// How one character is written inside quotes: `"` and `\` behind a backslash.
pub open spec fn escape_char(c: char) -> Seq<char> {
    if c == '"' || c == '\\' {
        seq!['\\', c]
    } else {
        seq![c]
    }
}

/// Text as it is written inside quotes.
pub open spec fn escape(t: Seq<char>) -> Seq<char>
    decreases t.len(),
{
    if t.len() == 0 {
        Seq::empty()
    } else {
        escape_char(t[0]) + escape(t.drop_first())
    }
}

/// Text written in quotes.
pub open spec fn quote(t: Seq<char>) -> Seq<char> {
    seq!['"'] + escape(t) + seq!['"']
}

/// Whether text lexes into bare words, at least one, that join back into it.
pub open spec fn is_plain(t: Seq<char>) -> bool {
    match lex(t) {
        Some(ws) => ws.len() >= 1 && (forall|i: int| 0 <= i < ws.len() ==> !(#[trigger] ws[i]).quoted)
            && join_toks(ws) == t,
        None => false,
    }
}

/// Whether a label's text can be written without quotes and read back the
/// same: it is plain, its first word would not be taken for a time, and its
/// last word would not be taken for a score.
#[verifier::opaque]
pub open spec fn text_is_bare(l: LabelModel) -> bool {
    is_plain(l.text) && {
        let ws = lex(l.text)->0;
        let count = ws.len() + if l.score is Some {
            1nat
        } else {
            0nat
        };
        &&& !(l.end is None && count >= 2 && !(tok_time(ws[0]) is NotTime))
        &&& !(l.score is None && ws.len() >= 2 && is_float_token(ws.last().content))
    }
}

/// The start field as written: the time and a space, or the empty quoted
/// start marker and a space where only the end is there.
pub open spec fn start_part(l: LabelModel) -> Seq<char> {
    match l.start {
        Some(s) => dec(s as nat) + seq![' '],
        None => if l.end is Some {
            seq!['"', '"', ' ']
        } else {
            Seq::empty()
        },
    }
}

/// The end field as written: the time and a space.
pub open spec fn end_part(l: LabelModel) -> Seq<char> {
    match l.end {
        Some(e) => dec(e as nat) + seq![' '],
        None => Seq::empty(),
    }
}

/// The text as written: bare where it reads back so, else quoted.
pub open spec fn text_part(l: LabelModel) -> Seq<char> {
    if text_is_bare(l) {
        l.text
    } else {
        quote(l.text)
    }
}

/// The score as written: a space and the score.
pub open spec fn score_part(l: LabelModel) -> Seq<char> {
    match l.score {
        Some(sc) => seq![' '] + sc,
        None => Seq::empty(),
    }
}

/// How a label is written on its line: the start and end times followed by a
/// space each, an empty quoted start marker when only the end is there, the
/// text (quoted where it would not read back otherwise), and the score after
/// a space.
pub open spec fn display(l: LabelModel) -> Seq<char> {
    start_part(l) + end_part(l) + text_part(l) + score_part(l)
}

proof fn lemma_escape_push(t: Seq<char>, c: char)
    ensures
        escape(t.push(c)) == escape(t) + escape_char(c),
    decreases t.len(),
{
    if t.len() == 0 {
        assert(t.push(c).drop_first() == Seq::<char>::empty());
        assert(escape(t.push(c)) == escape_char(c) + escape(Seq::<char>::empty()));
    } else {
        lemma_escape_push(t.drop_first(), c);
        assert(t.push(c).drop_first() == t.drop_first().push(c));
        assert(t.push(c)[0] == t[0]);
    }
}

/// Appends `t` written in quotes.
fn push_quoted(s: &mut String, t: &str)
    ensures
        final(s)@ == old(s)@ + quote(t@),
{
    let cs = chars_of(t);
    let ghost s0 = s@;
    push_char(s, '"');
    let mut i: usize = 0;
    assert(cs@.take(0) == Seq::<char>::empty());
    while i < cs.len()
        invariant
            i <= cs@.len(),
            cs@ == t@,
            s@ == s0 + seq!['"'] + escape(cs@.take(i as int)),
        decreases cs@.len() - i,
    {
        let c = cs[i];
        if c == '"' || c == '\\' {
            push_char(s, '\\');
        }
        push_char(s, c);
        proof {
            assert(cs@.take(i + 1) == cs@.take(i as int).push(c));
            lemma_escape_push(cs@.take(i as int), c);
        }
        i += 1;
    }
    push_char(s, '"');
    assert(cs@.take(cs@.len() as int) == cs@);
}

proof fn lemma_qscan_escape(t: Seq<char>, r: Seq<char>)
    ensures
        qscan(escape(t) + seq!['"'] + r) == Some((t, escape(t).len() + 1)),
    decreases t.len(),
{
    let x = escape(t) + seq!['"'] + r;
    if t.len() == 0 {
        assert(escape(t) == Seq::<char>::empty());
        assert(x[0] == '"');
        assert(t == Seq::<char>::empty());
    } else {
        let rest = t.drop_first();
        lemma_qscan_escape(rest, r);
        let y = escape(rest) + seq!['"'] + r;
        assert(x == escape_char(t[0]) + y);
        assert(seq![t[0]] + rest == t);
        if t[0] == '"' || t[0] == '\\' {
            assert(x[0] == '\\');
            assert(x[1] == t[0]);
            assert(x.skip(2) == y);
        } else {
            assert(x[0] == t[0]);
            assert(x.drop_first() == y);
        }
    }
}

/// Quoted text is one quoted token that holds the text.
proof fn lemma_lex_quote(t: Seq<char>)
    ensures
        lex(quote(t)) == Some(seq![Tok { quoted: true, content: t }]),
{
    let q = quote(t);
    lemma_qscan_escape(t, Seq::empty());
    assert(q.drop_first() == escape(t) + seq!['"'] + Seq::<char>::empty());
    assert(q[0] == '"');
    let n = escape(t).len() + 1;
    assert(q.skip(1 + n as int) == Seq::<char>::empty());
    assert(lex(Seq::<char>::empty()) == Some(Seq::<Tok>::empty()));
    assert(seq![Tok { quoted: true, content: t }] + Seq::<Tok>::empty() == seq![
        Tok { quoted: true, content: t },
    ]);
}

/// A time written in decimal is one bare token that reads back as the time.
proof fn lemma_lex_dec(n: u64)
    ensures
        lex(dec(n as nat)) == Some(seq![Tok { quoted: false, content: dec(n as nat) }]),
        tok_time(Tok { quoted: false, content: dec(n as nat) }) == TimeField::Time(n),
{
    let d = dec(n as nat);
    lemma_dec_reads_back(n as nat);
    lemma_parse_dec(n);
    assert forall|i: int| 0 <= i < d.len() implies !is_ws(#[trigger] d[i]) by {
        assert(is_digit(d[i]));
    }
    assert(is_digit(d[0]));
    lemma_lex_word(d);
}

/// A score is one bare token.
proof fn lemma_lex_score(sc: Seq<char>)
    requires
        is_float_token(sc),
    ensures
        lex(sc) == Some(seq![Tok { quoted: false, content: sc }]),
{
    lemma_float_token_chars(sc);
    assert forall|i: int| 0 <= i < sc.len() implies !is_ws(#[trigger] sc[i]) by {
        assert(is_number_char(sc[i]));
    }
    assert(is_number_char(sc[0]));
    lemma_lex_word(sc);
}

/// Whether a label can be written and read back: its score, if any, reads as
/// a number, and its start is not after its end.
pub open spec fn writable(l: LabelModel) -> bool {
    &&& (l.score matches Some(sc) ==> is_float_token(sc))
    &&& !(l.start is Some && l.end is Some && l.start->0 > l.end->0)
}

/// The tokens of a label's time fields as written.
pub open spec fn time_toks(l: LabelModel) -> Seq<Tok> {
    match (l.start, l.end) {
        (Some(s), Some(e)) => seq![
            Tok { quoted: false, content: dec(s as nat) },
            Tok { quoted: false, content: dec(e as nat) },
        ],
        (Some(s), None) => seq![Tok { quoted: false, content: dec(s as nat) }],
        (None, Some(e)) => seq![
            Tok { quoted: true, content: Seq::empty() },
            Tok { quoted: false, content: dec(e as nat) },
        ],
        (None, None) => Seq::empty(),
    }
}

/// The tokens of a label's text as written.
pub open spec fn text_toks(l: LabelModel) -> Seq<Tok> {
    if text_is_bare(l) {
        lex(l.text)->0
    } else {
        seq![Tok { quoted: true, content: l.text }]
    }
}

/// The token of a label's score as written, if it has one.
pub open spec fn score_toks(l: LabelModel) -> Seq<Tok> {
    match l.score {
        Some(sc) => seq![Tok { quoted: false, content: sc }],
        None => Seq::empty(),
    }
}

proof fn lemma_lex_tail(l: LabelModel)
    requires
        writable(l),
    ensures
        lex(text_part(l) + score_part(l)) == Some(text_toks(l) + score_toks(l)),
{
    let c = text_part(l);
    let d = score_part(l);
    let ct = text_toks(l);
    let st = score_toks(l);
    if text_is_bare(l) {
        reveal(text_is_bare);
        assert(lex(c) == Some(ct));
    } else {
        lemma_lex_quote(l.text);
    }
    match l.score {
        Some(sc) => {
            lemma_lex_score(sc);
            lemma_lex_sep(c, sc);
            assert(c + d == c + seq![' '] + sc);
        },
        None => {
            assert(c + d == c);
            assert(ct + st == ct);
        },
    }
}

proof fn lemma_lex_display(l: LabelModel)
    requires
        writable(l),
    ensures
        lex(display(l)) == Some(time_toks(l) + text_toks(l) + score_toks(l)),
{
    let a = start_part(l);
    let b = end_part(l);
    let z = text_part(l) + score_part(l);
    let ct = text_toks(l);
    let st = score_toks(l);
    assert(display(l) == a + (b + z));
    lemma_lex_tail(l);
    let bz = b + z;
    match l.end {
        Some(e) => {
            lemma_lex_dec(e);
            lemma_lex_sep(dec(e as nat), z);
            assert(bz == dec(e as nat) + seq![' '] + z);
            assert(lex(bz) == Some(seq![Tok { quoted: false, content: dec(e as nat) }] + (ct + st)));
        },
        None => {
            assert(bz == z);
        },
    }
    match l.start {
        Some(s) => {
            lemma_lex_dec(s);
            lemma_lex_sep(dec(s as nat), bz);
            assert(a + bz == dec(s as nat) + seq![' '] + bz);
        },
        None => {
            if l.end is Some {
                lemma_lex_quote(Seq::empty());
                assert(escape(Seq::<char>::empty()) == Seq::<char>::empty());
                assert(quote(Seq::empty()) == seq!['"', '"']);
                lemma_lex_sep(quote(Seq::empty()), bz);
                assert(a + bz == quote(Seq::empty()) + seq![' '] + bz);
            } else {
                assert(a + bz == bz);
            }
        },
    }
    assert(time_toks(l) + text_toks(l) + score_toks(l) == time_toks(l) + (ct + st));
}

proof fn lemma_text_toks(l: LabelModel)
    ensures
        text_toks(l).len() >= 1,
        join_toks(text_toks(l)) == l.text,
        text_is_bare(l) ==> forall|i: int|
            0 <= i < text_toks(l).len() ==> !(#[trigger] text_toks(l)[i]).quoted,
        !text_is_bare(l) ==> text_toks(l) == seq![Tok { quoted: true, content: l.text }],
        text_is_bare(l) && l.end is None && text_toks(l).len() + score_toks(l).len() >= 2 ==> (
        tok_time(text_toks(l)[0]) is NotTime),
        text_is_bare(l) && l.score is None && text_toks(l).len() >= 2 ==> !is_float_token(
            text_toks(l).last().content,
        ),
{
    reveal(text_is_bare);
}

proof fn lemma_toks_read_back(l: LabelModel, n: usize)
    requires
        writable(l),
    ensures
        label_of_toks(time_toks(l) + text_toks(l) + score_toks(l), n) == Ok::<
            LabelModel,
            ErrorModel,
        >(l),
{
    let tt = time_toks(l);
    let ct = text_toks(l);
    let st = score_toks(l);
    let ts = tt + ct + st;
    lemma_text_toks(l);
    let k: nat = match (l.start, l.end) {
        (Some(_), Some(_)) => 2,
        (Some(_), None) => 1,
        (None, Some(_)) => 2,
        (None, None) => 0,
    };
    assert(tt.len() == k);
    assert(ts.skip(k as int) == ct + st);
    assert(ct[0].quoted ==> ct.len() == 1) by {
        if text_is_bare(l) {
            assert(!ct[0].quoted);
        }
    }
    match (l.start, l.end) {
        (Some(s), Some(e)) => {
            lemma_lex_dec(s);
            lemma_lex_dec(e);
            assert(ts[0] == Tok { quoted: false, content: dec(s as nat) });
            assert(ts[1] == Tok { quoted: false, content: dec(e as nat) });
        },
        (Some(s), None) => {
            lemma_lex_dec(s);
            assert(ts[0] == Tok { quoted: false, content: dec(s as nat) });
            if ts.len() >= 3 {
                assert(ts[1] == ct[0]);
                assert(tok_time(ct[0]) is NotTime);
            }
        },
        (None, Some(e)) => {
            lemma_lex_dec(e);
            assert(ts[0] == Tok { quoted: true, content: Seq::<char>::empty() });
            assert(ts[1] == Tok { quoted: false, content: dec(e as nat) });
        },
        (None, None) => {
            assert(ts == ct + st);
            assert(ts[0] == ct[0]);
            if ts.len() >= 2 {
                assert(tok_time(ct[0]) is NotTime);
            }
        },
    }
    assert(time_fields(ts) == Ok::<(Option<u64>, Option<u64>, nat), Seq<char>>(
        (l.start, l.end, k),
    ));
    let rest = ct + st;
    match l.score {
        Some(sc) => {
            assert(rest.last() == Tok { quoted: false, content: sc });
            assert(rest.drop_last() == ct);
            assert(has_score(rest));
        },
        None => {
            assert(rest == ct);
            if ct.len() >= 2 {
                assert(!has_score(rest));
            }
        },
    }
}

/// Writing a label on its line and parsing the line gives the label back,
/// whatever its text, provided its score reads as a number and its start is
/// not after its end.
pub proof fn lemma_label_round_trip(l: LabelModel, n: usize)
    requires
        writable(l),
    ensures
        parse_line_spec(display(l), n) == Ok::<LabelModel, ErrorModel>(l),
{
    lemma_lex_display(l);
    lemma_toks_read_back(l, n);
}

proof fn lemma_no_newline_concat(a: Seq<char>, b: Seq<char>)
    requires
        no_newline(a),
        no_newline(b),
    ensures
        no_newline(a + b),
{
    assert forall|j: int| 0 <= j < (a + b).len() implies #[trigger] (a + b)[j] != '\n' by {
        if j < a.len() {
            assert((a + b)[j] == a[j]);
        } else {
            assert((a + b)[j] == b[j - a.len()]);
        }
    }
}

proof fn lemma_escape_no_newline(t: Seq<char>)
    requires
        no_newline(t),
    ensures
        no_newline(escape(t)),
    decreases t.len(),
{
    if t.len() > 0 {
        assert(t[0] != '\n');
        assert forall|j: int| 0 <= j < t.drop_first().len() implies #[trigger] t.drop_first()[j]
            != '\n' by {
            assert(t.drop_first()[j] == t[j + 1]);
        }
        lemma_escape_no_newline(t.drop_first());
        lemma_no_newline_concat(escape_char(t[0]), escape(t.drop_first()));
    }
}

proof fn lemma_dec_no_newline(n: u64)
    ensures
        no_newline(dec(n as nat)),
        no_newline(dec(n as nat) + seq![' ']),
{
    lemma_dec_reads_back(n as nat);
    assert forall|j: int| 0 <= j < dec(n as nat).len() implies #[trigger] dec(n as nat)[j]
        != '\n' by {
        assert(is_digit(dec(n as nat)[j]));
    }
    lemma_no_newline_concat(dec(n as nat), seq![' ']);
}

proof fn lemma_join_last(ts: Seq<Tok>)
    requires
        ts.len() >= 1,
        ts.last().content.len() > 0,
    ensures
        join_toks(ts).len() > 0,
        join_toks(ts).last() == ts.last().content.last(),
{
    if ts.len() >= 2 {
        let j = join_toks(ts.drop_last()) + seq![' '] + ts.last().content;
        assert(j.last() == ts.last().content.last());
    }
}

/// Whether each of `ws` is a bare word: not quoted, not empty, not starting
/// with a quote, and free of whitespace.
pub open spec fn bare_words(ws: Seq<Tok>) -> bool {
    forall|i: int|
        0 <= i < ws.len() ==> !(#[trigger] ws[i]).quoted && ws[i].content.len() > 0 && ws[i].content[0]
            != '"' && forall|j: int| 0 <= j < ws[i].content.len() ==> !is_ws(#[trigger] ws[i].content[j])
}

proof fn lemma_lex_join(ws: Seq<Tok>)
    requires
        ws.len() >= 1,
        bare_words(ws),
    ensures
        lex(join_toks(ws)) == Some(ws),
    decreases ws.len(),
{
    let w = ws.last();
    lemma_lex_word(w.content);
    assert(w == Tok { quoted: false, content: w.content });
    if ws.len() == 1 {
        assert(ws =~= seq![w]);
    } else {
        let p = ws.drop_last();
        assert forall|i: int| 0 <= i < p.len() implies #[trigger] p[i] == ws[i] by {}
        lemma_lex_join(p);
        lemma_lex_sep(join_toks(p), w.content);
        assert(p + seq![w] =~= ws);
    }
}

/// A label's text is written as it stands, without quotes, when it is bare
/// words joined by single spaces, its first word is not taken for a time
/// where the label has no end (and more than one field follows), and its
/// last word is not taken for a score where the label has none.
pub proof fn lemma_bare_text_unquoted(l: LabelModel, ws: Seq<Tok>)
    requires
        ws.len() >= 1,
        bare_words(ws),
        l.text == join_toks(ws),
        l.end is None && (ws.len() >= 2 || l.score is Some) ==> time_spec(ws[0].content) is NotTime,
        l.score is None && ws.len() >= 2 ==> !is_float_token(ws.last().content),
    ensures
        display(l) == start_part(l) + end_part(l) + l.text + score_part(l),
{
    lemma_lex_join(ws);
    assert(!ws[0].quoted);
    assert(tok_time(ws[0]) == time_spec(ws[0].content));
    assert(text_is_bare(l)) by {
        reveal(text_is_bare);
        assert(is_plain(l.text));
    }
}

/// A written label is one non-empty line: it ends in a character that is not
/// whitespace, and holds no newline where its text holds none.
pub proof fn lemma_display_shape(l: LabelModel)
    requires
        writable(l),
        no_newline(l.text),
    ensures
        display(l).len() > 0,
        !is_ws(display(l).last()),
        no_newline(display(l)),
{
    let a = start_part(l);
    let b = end_part(l);
    let c = text_part(l);
    let d = score_part(l);
    match l.start {
        Some(x) => {
            lemma_dec_no_newline(x);
        },
        None => {
            assert(no_newline(a));
        },
    }
    match l.end {
        Some(x) => {
            lemma_dec_no_newline(x);
        },
        None => {
            assert(no_newline(b));
        },
    }
    if !text_is_bare(l) {
        lemma_escape_no_newline(l.text);
        lemma_no_newline_concat(seq!['"'], escape(l.text));
        lemma_no_newline_concat(seq!['"'] + escape(l.text), seq!['"']);
        assert(c.last() == '"');
    } else {
        reveal(text_is_bare);
        let ws = lex(l.text)->0;
        lemma_lex_bare_words(l.text);
        assert(!ws[ws.len() - 1].quoted);
        lemma_join_last(ws);
        assert(!is_ws(c.last()));
    }
    match l.score {
        Some(sc) => {
            lemma_float_token_chars(sc);
            assert forall|j: int| 0 <= j < sc.len() implies #[trigger] sc[j] != '\n' by {
                assert(is_number_char(sc[j]));
            }
            lemma_no_newline_concat(seq![' '], sc);
            assert(is_number_char(sc.last()));
            assert(d.last() == sc.last());
        },
        None => {
            assert(no_newline(d));
            assert(d.len() == 0);
        },
    }
    lemma_no_newline_concat(a, b);
    lemma_no_newline_concat(a + b, c);
    lemma_no_newline_concat(a + b + c, d);
    let x = a + b + c + d;
    assert(x.last() == if d.len() > 0 {
        d.last()
    } else {
        c.last()
    });
}

/// The duration of a label that has both times: end minus start, zero where
/// the end is before the start.
pub open spec fn duration_spec(l: LabelModel) -> Option<u64> {
    match (l.start, l.end) {
        (Some(s), Some(e)) => Some(if e >= s {
            (e - s) as u64
        } else {
            0
        }),
        _ => None,
    }
}

/// Whether `time` falls in the half-open span `start..end` of a label that
/// has both times.
pub open spec fn contains_spec(l: LabelModel, time: u64) -> bool {
    match (l.start, l.end) {
        (Some(s), Some(e)) => s <= time && time < e,
        _ => false,
    }
}

/// A label read from a line can be written: its score reads as a number and
/// its start is not after its end.
pub proof fn lemma_parsed_writable(line: Seq<char>, n: usize)
    requires
        parse_line_spec(line, n) is Ok,
    ensures
        writable(parse_line_spec(line, n)->Ok_0),
{
}

proof fn lemma_join_no_newline(ts: Seq<Tok>)
    requires
        forall|i: int| 0 <= i < ts.len() ==> no_newline(#[trigger] ts[i].content),
    ensures
        no_newline(join_toks(ts)),
    decreases ts.len(),
{
    if ts.len() >= 2 {
        let p = ts.drop_last();
        assert forall|i: int| 0 <= i < p.len() implies no_newline(#[trigger] p[i].content) by {
            assert(p[i] == ts[i]);
        }
        lemma_join_no_newline(p);
        assert(no_newline(ts[ts.len() - 1].content));
        lemma_no_newline_concat(join_toks(p), seq![' ']);
        lemma_no_newline_concat(join_toks(p) + seq![' '], ts.last().content);
    } else if ts.len() == 1 {
        assert(no_newline(ts[0].content));
    }
}

/// The text of a label read from a line without newlines holds none.
pub proof fn lemma_parsed_text_no_newline(line: Seq<char>, n: usize)
    requires
        parse_line_spec(line, n) is Ok,
        no_newline(line),
    ensures
        no_newline(parse_line_spec(line, n)->Ok_0.text),
{
    let ts = lex(line)->0;
    lemma_lex_keeps_newline_free(line);
    let k = time_fields(ts)->Ok_0.2;
    let rest = ts.skip(k as int);
    assert forall|i: int| 0 <= i < rest.len() implies no_newline(#[trigger] rest[i].content) by {
        assert(rest[i] == ts[i + k]);
    }
    let d = rest.drop_last();
    assert forall|i: int| 0 <= i < d.len() implies no_newline(#[trigger] d[i].content) by {
        assert(d[i] == rest[i]);
    }
    lemma_join_no_newline(rest);
    lemma_join_no_newline(d);
}

/// A label read from a line, written and read again, is the same label.
pub proof fn lemma_reparse(line: Seq<char>, n: usize, m: usize)
    requires
        parse_line_spec(line, n) is Ok,
    ensures
        parse_line_spec(display(parse_line_spec(line, n)->Ok_0), m) == parse_line_spec(line, n),
{
    lemma_label_round_trip(parse_line_spec(line, n)->Ok_0, m);
}

impl Label {
    /// Creates a label spanning `start..end` in 100 ns units, without a score.
    pub fn new(start: u64, end: u64, text: &str) -> (l: Label)
        ensures
            l@ == (LabelModel { start: Some(start), end: Some(end), text: text@, score: None }),
    {
        Label { start: Some(start), end: Some(end), text: String::from_str(text), score: None }
    }

    /// Duration in 100 ns units, if both times are present.
    pub fn duration(&self) -> (r: Option<u64>)
        ensures
            r == duration_spec(self@),
    {
        match (self.start, self.end) {
            (Some(s), Some(e)) => Some(e.saturating_sub(s)),
            _ => None,
        }
    }

    /// Returns `true` if `time` (in 100 ns units) falls within `start..end`.
    pub fn contains(&self, time: u64) -> (b: bool)
        ensures
            b == contains_spec(self@, time),
    {
        match (self.start, self.end) {
            (Some(s), Some(e)) => s <= time && time < e,
            _ => false,
        }
    }

    /// Whether the text is written without quotes (`text_is_bare`).
    fn text_is_bare(&self) -> (b: bool)
        ensures
            b == text_is_bare(self@),
    {
        reveal(text_is_bare);
        let cs = chars_of(self.text.as_str());
        let ws = match lex_chars(cs.as_slice()) {
            None => {
                return false;
            },
            Some(ws) => ws,
        };
        let ghost wv = toks_of(ws@);
        assert(lex(self.text@) == Some(wv));
        let n = ws.len();
        if n == 0 {
            return false;
        }
        let mut i: usize = 0;
        while i < n
            invariant
                i <= n,
                n == ws@.len(),
                wv == toks_of(ws@),
                forall|j: int| 0 <= j < i ==> !(#[trigger] wv[j]).quoted,
                lex(self.text@) == Some(wv),
            decreases n - i,
        {
            if ws[i].quoted {
                assert(wv[i as int].quoted);
                assert(lex(self.text@) == Some(wv));
                assert(!is_plain(self.text@));
                assert(!text_is_bare(self@)) by {
                    reveal(text_is_bare);
                }
                return false;
            }
            i += 1;
        }
        let joined = join_tokens(&ws, 0, n);
        assert(wv.subrange(0, n as int) == wv);
        if !(joined == self.text) {
            return false;
        }
        let has_sc = self.score.is_some();
        let count_ge2 = n >= 2 || has_sc;
        if self.end.is_none() && count_ge2 {
            match token_time(&ws[0]) {
                TimeField::NotTime => {},
                _ => {
                    return false;
                },
            }
        }
        if !has_sc && n >= 2 && is_float_chars(ws[n - 1].content.as_slice()) {
            return false;
        }
        true
    }

    /// The label as it is written on its line (`display`).
    pub fn to_string(&self) -> (r: String)
        ensures
            r@ == display(self@),
    {
        let mut s = String::new();
        let ghost l = self@;
        match self.start {
            Some(st) => {
                push_decimal(&mut s, st);
                push_char(&mut s, ' ');
            },
            None => {
                if self.end.is_some() {
                    push_char(&mut s, '"');
                    push_char(&mut s, '"');
                    push_char(&mut s, ' ');
                }
            },
        }
        let ghost p1 = s@;
        match self.end {
            Some(e) => {
                push_decimal(&mut s, e);
                push_char(&mut s, ' ');
            },
            None => {},
        }
        let ghost p2 = s@;
        if self.text_is_bare() {
            s.append(self.text.as_str());
        } else {
            push_quoted(&mut s, self.text.as_str());
        }
        let ghost p3 = s@;
        match &self.score {
            Some(sc) => {
                push_char(&mut s, ' ');
                s.append(sc.as_str());
            },
            None => {},
        }
        proof {
            assert(p1 == start_part(l));
            assert(p2 == start_part(l) + end_part(l));
            assert(p3 == start_part(l) + end_part(l) + text_part(l));
        }
        s
    }

    /// Parses the text of one line; `line_no` is the 1-indexed line number
    /// that errors report.
    pub fn parse_line(line: &str, line_no: usize) -> (r: Result<Label, ParseError>)
        ensures
            result_view(r) == parse_line_spec(line@, line_no),
    {
        let cs = chars_of(line);
        Self::parse_chars(cs.as_slice(), line_no)
    }

    /// Parses a line given as its characters.
    pub fn parse_chars(line: &[char], line_no: usize) -> (r: Result<Label, ParseError>)
        ensures
            result_view(r) == parse_line_spec(line@, line_no),
    {
        match lex_chars(line) {
            None => Err(
                ParseError {
                    line: line_no,
                    kind: ParseErrorKind::InvalidLabel(String::from_str("malformed quoted text")),
                },
            ),
            Some(ts) => label_from_tokens(&ts, line_no),
        }
    }
}

impl std::str::FromStr for Label {
    type Err = ParseError;

    fn from_str(s: &str) -> (r: Result<Label, ParseError>)
        ensures
            result_view(r) == parse_line_spec(s@, 1),
    {
        Label::parse_line(s, 1)
    }
}

} // verus!
