//! A parsed `.lab` file: an ordered sequence of labels.

use vstd::prelude::*;

use crate::error::{ErrorModel, ParseError};
use crate::label::{
    contains_spec, display, lemma_display_shape, lemma_label_round_trip, lemma_parsed_text_no_newline, lemma_parsed_writable,
    parse_line_spec, writable,
    Label, LabelModel,
};
use crate::number::{dec, push_decimal};
use crate::seconds::{push_seconds, seconds_text};
use crate::syntax::{copy_range, lemma_lex_cr};
use crate::text::{
    chars_less, chars_of, char_is_ws, is_ws, lemma_text_less_total, lemma_text_less_transitive,
    no_newline, push_char, string_of_chars, text_less,
};
use vstd::string::StringExecFns;

verus! {

/// A parsed `.lab` file; dereferences to its `Vec<Label>`.
#[derive(Debug, Clone, PartialEq, Eq)]
pub struct LabFile {
    /// the labels in file order
    pub labels: Vec<Label>,
}

impl View for LabFile {
    type V = Seq<LabelModel>;

    open spec fn view(&self) -> Seq<LabelModel> {
        self.labels@.map_values(|l: Label| l@)
    }
}

/// The position of the first newline in `s`.
pub open spec fn newline_at(s: Seq<char>) -> Option<nat>
    decreases s.len(),
{
    if s.len() == 0 {
        None
    } else if s[0] == '\n' {
        Some(0)
    } else {
        match newline_at(s.drop_first()) {
            Some(k) => Some(k + 1),
            None => None,
        }
    }
}

/// A line without the carriage return that ends it, if one does.
pub open spec fn strip_cr(l: Seq<char>) -> Seq<char> {
    if l.len() > 0 && l.last() == '\r' {
        l.drop_last()
    } else {
        l
    }
}

pub proof fn lemma_newline_at(s: Seq<char>)
    ensures
        newline_at(s) matches Some(k) ==> k < s.len() && s[k as int] == '\n' && forall|j: int|
            0 <= j < k ==> s[j] != '\n',
        newline_at(s) is None ==> forall|j: int| 0 <= j < s.len() ==> s[j] != '\n',
    decreases s.len(),
{
    if s.len() > 0 && s[0] != '\n' {
        lemma_newline_at(s.drop_first());
        assert forall|j: int| 1 <= j < s.len() implies s[j] == s.drop_first()[j - 1] by {}
    }
}

/// The lines of a text as `str::lines` splits it: at each `\n`, a `\r` just
/// before it removed; a final line ending adds no empty line.
pub open spec fn lines_of(s: Seq<char>) -> Seq<Seq<char>>
    decreases s.len(),
{
    if s.len() == 0 {
        Seq::empty()
    } else {
        match newline_at(s) {
            None => seq![s],
            Some(k) => {
                proof {
                    lemma_newline_at(s);
                }
                seq![strip_cr(s.take(k as int))] + lines_of(s.skip(k as int + 1))
            },
        }
    }
}

/// Whether a line holds nothing but whitespace.
pub open spec fn is_blank(l: Seq<char>) -> bool {
    forall|i: int| 0 <= i < l.len() ==> is_ws(#[trigger] l[i])
}

/// The labels of `lines`, the first being line number `first`: blank lines are
/// skipped, and the first line that fails gives the error.
pub open spec fn parse_lines(lines: Seq<Seq<char>>, first: nat) -> Result<Seq<LabelModel>, ErrorModel>
    decreases lines.len(),
{
    if lines.len() == 0 {
        Ok(Seq::empty())
    } else if is_blank(lines[0]) {
        parse_lines(lines.drop_first(), first + 1)
    } else {
        match parse_line_spec(lines[0], first as usize) {
            Err(e) => Err(e),
            Ok(l) => match parse_lines(lines.drop_first(), first + 1) {
                Err(e) => Err(e),
                Ok(ls) => Ok(seq![l] + ls),
            },
        }
    }
}

/// What parsing a whole text gives: the labels of its non-blank lines, or
/// the error of the first line that fails, lines numbered from 1.
pub open spec fn parse_file_spec(s: Seq<char>) -> Result<Seq<LabelModel>, ErrorModel> {
    parse_lines(lines_of(s), 1)
}

/// `done` followed by what `rest` parses to.
pub open spec fn then_parsed(
    done: Seq<LabelModel>,
    rest: Result<Seq<LabelModel>, ErrorModel>,
) -> Result<Seq<LabelModel>, ErrorModel> {
    match rest {
        Ok(ls) => Ok(done + ls),
        Err(e) => Err(e),
    }
}

/// A file parse result seen through the views of its labels or error.
pub open spec fn file_result_view(r: Result<LabFile, ParseError>) -> Result<
    Seq<LabelModel>,
    ErrorModel,
> {
    match r {
        Ok(f) => Ok(f@),
        Err(e) => Err(e@),
    }
}

/// A file as it is written: each label on its line, each line ended by `\n`.
pub open spec fn display_file(ls: Seq<LabelModel>) -> Seq<char>
    decreases ls.len(),
{
    if ls.len() == 0 {
        Seq::empty()
    } else {
        display(ls[0]) + seq!['\n'] + display_file(ls.drop_first())
    }
}

proof fn lemma_display_file_push(ls: Seq<LabelModel>, l: LabelModel)
    ensures
        display_file(ls.push(l)) == display_file(ls) + display(l) + seq!['\n'],
    decreases ls.len(),
{
    if ls.len() == 0 {
        assert(ls.push(l).drop_first() == Seq::<LabelModel>::empty());
        assert(display_file(Seq::<LabelModel>::empty()) == Seq::<char>::empty());
    } else {
        lemma_display_file_push(ls.drop_first(), l);
        assert(ls.push(l).drop_first() == ls.drop_first().push(l));
        assert(ls.push(l)[0] == ls[0]);
    }
}

proof fn lemma_newline_after(x: Seq<char>, y: Seq<char>)
    requires
        no_newline(x),
    ensures
        newline_at(x + seq!['\n'] + y) == Some(x.len()),
    decreases x.len(),
{
    let s = x + seq!['\n'] + y;
    if x.len() == 0 {
        assert(s[0] == '\n');
    } else {
        assert(s[0] == x[0]);
        assert(x[0] != '\n');
        assert(s.drop_first() == x.drop_first() + seq!['\n'] + y);
        assert forall|j: int| 0 <= j < x.drop_first().len() implies #[trigger] x.drop_first()[j]
            != '\n' by {
            assert(x.drop_first()[j] == x[j + 1]);
        }
        lemma_newline_after(x.drop_first(), y);
    }
}

proof fn lemma_lines_after(x: Seq<char>, y: Seq<char>)
    requires
        no_newline(x),
    ensures
        lines_of(x + seq!['\n'] + y) == seq![strip_cr(x)] + lines_of(y),
{
    let s = x + seq!['\n'] + y;
    lemma_newline_after(x, y);
    assert(s.take(x.len() as int) == x);
    assert(s.skip(x.len() as int + 1) == y);
}

/// Whether labels can be written one per line and read back: each is
/// writable, and no text holds a newline.
pub open spec fn file_writable(ls: Seq<LabelModel>) -> bool {
    forall|i: int| 0 <= i < ls.len() ==> writable(#[trigger] ls[i]) && no_newline(ls[i].text)
}

proof fn lemma_parse_written_lines(ls: Seq<LabelModel>, first: nat)
    requires
        file_writable(ls),
    ensures
        parse_lines(lines_of(display_file(ls)), first) == Ok::<Seq<LabelModel>, ErrorModel>(ls),
    decreases ls.len(),
{
    if ls.len() == 0 {
        assert(ls == Seq::<LabelModel>::empty());
        assert(lines_of(Seq::<char>::empty()) == Seq::<Seq<char>>::empty());
    } else {
        let l = ls[0];
        let rest = ls.drop_first();
        assert(writable(l) && no_newline(l.text));
        assert forall|i: int| 0 <= i < rest.len() implies writable(#[trigger] rest[i])
            && no_newline(rest[i].text) by {
            assert(rest[i] == ls[i + 1]);
        }
        lemma_parse_written_lines(rest, first + 1);
        let d = display(l);
        lemma_display_shape(l);
        lemma_lines_after(d, display_file(rest));
        assert(strip_cr(d) == d);
        assert(!is_blank(d)) by {
            assert(!is_ws(d[d.len() - 1]));
        }
        lemma_label_round_trip(l, first as usize);
        assert(display_file(ls) == d + seq!['\n'] + display_file(rest));
        let lines = lines_of(display_file(ls));
        assert(lines == seq![d] + lines_of(display_file(rest)));
        assert(lines[0] == d);
        assert(lines.drop_first() == lines_of(display_file(rest)));
        assert(lines.len() > 0);
        assert(!is_blank(lines[0]));
        assert(parse_line_spec(lines[0], first as usize) == Ok::<LabelModel, ErrorModel>(l));
        assert(parse_lines(lines.drop_first(), first + 1) == Ok::<Seq<LabelModel>, ErrorModel>(rest));
        assert(seq![l] + rest == ls);
        assert(parse_lines(lines, first) == Ok::<Seq<LabelModel>, ErrorModel>(seq![l] + rest));
    }
}

/// Writing labels one per line and parsing the text gives the labels back,
/// provided each score reads as a number, no start is after its end, and no
/// text holds a newline.
pub proof fn lemma_file_round_trip(ls: Seq<LabelModel>)
    requires
        file_writable(ls),
    ensures
        parse_file_spec(display_file(ls)) == Ok::<Seq<LabelModel>, ErrorModel>(ls),
{
    lemma_parse_written_lines(ls, 1);
}

proof fn lemma_lines_no_newline(s: Seq<char>)
    ensures
        forall|i: int| 0 <= i < lines_of(s).len() ==> no_newline(#[trigger] lines_of(s)[i]),
    decreases s.len(),
{
    lemma_newline_at(s);
    if s.len() > 0 {
        match newline_at(s) {
            None => {
                assert(lines_of(s) == seq![s]);
            },
            Some(k) => {
                let r = s.skip(k as int + 1);
                lemma_lines_no_newline(r);
                let first = s.take(k as int);
                assert forall|j: int| 0 <= j < first.len() implies #[trigger] first[j] != '\n' by {}
                assert forall|j: int| 0 <= j < strip_cr(first).len() implies #[trigger] strip_cr(
                    first,
                )[j] != '\n' by {
                    assert(strip_cr(first)[j] == first[j]);
                }
                let ls = lines_of(s);
                assert(ls == seq![strip_cr(first)] + lines_of(r));
                assert forall|i: int| 0 <= i < ls.len() implies no_newline(#[trigger] ls[i]) by {
                    if i > 0 {
                        assert(ls[i] == lines_of(r)[i - 1]);
                    }
                }
            },
        }
    }
}

proof fn lemma_parsed_lines_writable(lines: Seq<Seq<char>>, first: nat)
    requires
        forall|i: int| 0 <= i < lines.len() ==> no_newline(#[trigger] lines[i]),
        parse_lines(lines, first) is Ok,
    ensures
        file_writable(parse_lines(lines, first)->Ok_0),
    decreases lines.len(),
{
    if lines.len() > 0 {
        let rest = lines.drop_first();
        assert forall|i: int| 0 <= i < rest.len() implies no_newline(#[trigger] rest[i]) by {
            assert(rest[i] == lines[i + 1]);
        }
        lemma_parsed_lines_writable(rest, first + 1);
        if !is_blank(lines[0]) {
            assert(no_newline(lines[0]));
            lemma_parsed_writable(lines[0], first as usize);
            lemma_parsed_text_no_newline(lines[0], first as usize);
            let l = parse_line_spec(lines[0], first as usize)->Ok_0;
            let ls = parse_lines(rest, first + 1)->Ok_0;
            let all = seq![l] + ls;
            assert forall|i: int| 0 <= i < all.len() implies writable(#[trigger] all[i]) && no_newline(
                all[i].text,
            ) by {
                if i > 0 {
                    assert(all[i] == ls[i - 1]);
                }
            }
        }
    }
}

/// The labels read from any text can be written and read back: writing them
/// and parsing the result gives the same labels.
pub proof fn lemma_parsed_file_round_trip(s: Seq<char>)
    requires
        parse_file_spec(s) is Ok,
    ensures
        parse_file_spec(display_file(parse_file_spec(s)->Ok_0)) == parse_file_spec(s),
{
    lemma_lines_no_newline(s);
    lemma_parsed_lines_writable(lines_of(s), 1);
    lemma_file_round_trip(parse_file_spec(s)->Ok_0);
}

proof fn lemma_parse_one_line(x: Seq<char>, n: nat)
    ensures
        parse_lines(seq![x], n) == (if is_blank(x) {
            Ok(Seq::<LabelModel>::empty())
        } else {
            match parse_line_spec(x, n as usize) {
                Ok(l) => Ok(seq![l]),
                Err(e) => Err(e),
            }
        }),
{
    let ls = seq![x];
    assert(ls[0] == x);
    assert(ls.drop_first() =~= Seq::<Seq<char>>::empty());
    assert(parse_lines(ls.drop_first(), n + 1) == Ok::<Seq<LabelModel>, ErrorModel>(Seq::empty()));
    match parse_line_spec(x, n as usize) {
        Ok(l) => {
            assert(seq![l] + Seq::<LabelModel>::empty() =~= seq![l]);
        },
        Err(e) => {},
    }
}

proof fn lemma_parse_lines_cons(x: Seq<char>, a: Seq<Seq<char>>, b: Seq<Seq<char>>, n: nat)
    requires
        parse_lines(a, n + 1) == parse_lines(b, n + 1),
    ensures
        parse_lines(seq![x] + a, n) == parse_lines(seq![x] + b, n),
{
    assert((seq![x] + a)[0] == x);
    assert((seq![x] + b)[0] == x);
    assert((seq![x] + a).drop_first() =~= a);
    assert((seq![x] + b).drop_first() =~= b);
}

proof fn lemma_strip_cr_parses_alike(x: Seq<char>, n: usize)
    ensures
        is_blank(strip_cr(x)) == is_blank(x),
        parse_line_spec(strip_cr(x), n) == parse_line_spec(x, n),
{
    if x.len() > 0 && x.last() == '\r' {
        let y = x.drop_last();
        assert(x =~= y + seq!['\r']);
        lemma_lex_cr(y);
        assert(is_ws('\r'));
        if is_blank(y) {
            assert forall|i: int| 0 <= i < x.len() implies is_ws(#[trigger] x[i]) by {
                if i < y.len() {
                    assert(x[i] == y[i]);
                }
            }
        }
        if is_blank(x) {
            assert forall|i: int| 0 <= i < y.len() implies is_ws(#[trigger] y[i]) by {
                assert(x[i] == y[i]);
            }
        }
    }
}

proof fn lemma_final_newline_lines(s: Seq<char>, n: nat)
    ensures
        parse_lines(lines_of(s + seq!['\n']), n) == parse_lines(lines_of(s), n),
    decreases s.len(),
{
    let nl = seq!['\n'];
    let v = s + nl;
    lemma_newline_at(s);
    lemma_newline_at(v);
    assert(v[s.len() as int] == '\n');
    assert forall|j: int| 0 <= j < s.len() implies v[j] == s[j] by {}
    let e = Seq::<char>::empty();
    if s.len() == 0 {
        assert(newline_at(v) == Some(0nat));
        assert(v.take(0) =~= e);
        assert(v.skip(1) =~= e);
        assert(strip_cr(e) == e);
        assert(lines_of(e) == Seq::<Seq<char>>::empty());
        assert(lines_of(v) == seq![strip_cr(v.take(0))] + lines_of(v.skip(1)));
        assert(lines_of(v) =~= seq![e]);
        lemma_parse_one_line(e, n);
    } else {
        match newline_at(s) {
            None => {
                assert(newline_at(v) == Some(s.len()));
                assert(v.take(s.len() as int) =~= s);
                assert(v.skip(s.len() as int + 1) =~= e);
                assert(lines_of(e) == Seq::<Seq<char>>::empty());
                assert(lines_of(v) == seq![strip_cr(v.take(s.len() as int))] + lines_of(
                    v.skip(s.len() as int + 1),
                ));
                assert(lines_of(v) =~= seq![strip_cr(s)]);
                assert(lines_of(s) == seq![s]);
                lemma_parse_one_line(strip_cr(s), n);
                lemma_parse_one_line(s, n);
                lemma_strip_cr_parses_alike(s, n as usize);
            },
            Some(k) => {
                assert(newline_at(v) == Some(k));
                let r = s.skip(k as int + 1);
                assert(v.take(k as int) =~= s.take(k as int));
                assert(v.skip(k as int + 1) =~= r + nl);
                lemma_final_newline_lines(r, n + 1);
                lemma_parse_lines_cons(strip_cr(s.take(k as int)), lines_of(r + nl), lines_of(r), n);
            },
        }
    }
}

/// Parsing does not depend on a final line ending: a text reads the same
/// with a newline added at its end.
pub proof fn lemma_final_newline(s: Seq<char>)
    ensures
        parse_file_spec(s + seq!['\n']) == parse_file_spec(s),
{
    lemma_final_newline_lines(s, 1);
}

/// A text of one line without a line ending reads as that line: no labels
/// where it is blank, else the label of the line, or its error as line 1.
pub proof fn lemma_one_line_file(t: Seq<char>)
    requires
        no_newline(t),
    ensures
        parse_file_spec(t) == (if is_blank(t) {
            Ok(Seq::<LabelModel>::empty())
        } else {
            match parse_line_spec(t, 1) {
                Ok(l) => Ok(seq![l]),
                Err(e) => Err(e),
            }
        }),
{
    lemma_newline_at(t);
    if t.len() > 0 {
        assert(newline_at(t) is None);
        assert(lines_of(t) == seq![t]);
        lemma_parse_one_line(t, 1);
    }
}

/// Whether the characters `c[lo..hi]` are all whitespace.
fn range_is_blank(c: &[char], lo: usize, hi: usize) -> (b: bool)
    requires
        lo <= hi <= c@.len(),
    ensures
        b == is_blank(c@.subrange(lo as int, hi as int)),
{
    let mut k = lo;
    while k < hi
        invariant
            lo <= k <= hi,
            hi <= c@.len(),
            forall|j: int| lo <= j < k ==> is_ws(#[trigger] c@[j]),
        decreases hi - k,
    {
        if !char_is_ws(c[k]) {
            assert(c@.subrange(lo as int, hi as int)[k - lo] == c@[k as int]);
            return false;
        }
        k += 1;
    }
    assert forall|j: int| 0 <= j < hi - lo implies is_ws(
        #[trigger] c@.subrange(lo as int, hi as int)[j],
    ) by {
        assert(c@.subrange(lo as int, hi as int)[j] == c@[lo + j]);
    }
    true
}

impl LabFile {
    /// Creates an empty label file.
    pub fn new() -> (f: LabFile)
        ensures
            f@ == Seq::<LabelModel>::empty(),
    {
        LabFile { labels: Vec::new() }
    }

    /// Parses a whole `.lab` text.
    #[verifier::rlimit(40)]
    pub fn parse_str(s: &str) -> (r: Result<LabFile, ParseError>)
        ensures
            file_result_view(r) == parse_file_spec(s@),
    {
        let c = chars_of(s);
        let n = c.len();
        let mut pos: usize = 0;
        let mut line_no: usize = 1;
        let mut labels: Vec<Label> = Vec::new();
        assert(c@.skip(0) == c@);
        assert(labels@.map_values(|l: Label| l@) == Seq::<LabelModel>::empty());
        proof {
            match parse_file_spec(s@) {
                Ok(ls) => {
                    assert(Seq::<LabelModel>::empty() + ls == ls);
                },
                Err(_) => {},
            }
        }
        while pos < n
            invariant
                pos <= n,
                n == c@.len(),
                c@ == s@,
                1 <= line_no <= pos + 1,
                parse_file_spec(s@) == then_parsed(
                    labels@.map_values(|l: Label| l@),
                    parse_lines(lines_of(c@.skip(pos as int)), line_no as nat),
                ),
            decreases n - pos,
        {
            let ghost rest = c@.skip(pos as int);
            let mut e = pos;
            while e < n && c[e] != '\n'
                invariant
                    pos <= e <= n,
                    n == c@.len(),
                    rest == c@.skip(pos as int),
                    newline_at(rest) == match newline_at(c@.skip(e as int)) {
                        Some(k) => Some((k + (e - pos)) as nat),
                        None => None,
                    },
                decreases n - e,
            {
                assert(c@.skip(e as int).drop_first() == c@.skip(e + 1));
                e += 1;
            }
            let ghost done = labels@.map_values(|l: Label| l@);
            let mut hi = e;
            if e < n && e > pos && c[e - 1] == '\r' {
                hi = e - 1;
            }
            proof {
                if e < n {
                    assert(c@.skip(e as int)[0] == '\n');
                    assert(newline_at(rest) == Some((e - pos) as nat));
                    assert(rest.take((e - pos) as int) == c@.subrange(pos as int, e as int));
                    assert(strip_cr(rest.take((e - pos) as int)) == c@.subrange(
                        pos as int,
                        hi as int,
                    ));
                    assert(rest.skip(e - pos + 1) == c@.skip(e + 1));
                } else {
                    assert(c@.skip(e as int).len() == 0);
                    assert(newline_at(rest) is None);
                    assert(rest == c@.subrange(pos as int, hi as int));
                }
            }
            let ghost line = c@.subrange(pos as int, hi as int);
            let ghost tail = if e < n {
                lines_of(c@.skip(e + 1))
            } else {
                Seq::<Seq<char>>::empty()
            };
            assert(lines_of(rest) == seq![line] + tail);
            assert((seq![line] + tail).drop_first() == tail);
            assert((seq![line] + tail)[0] == line);
            let ghost ln = line_no as nat;
            assert(parse_lines(lines_of(rest), ln) == (if is_blank(line) {
                parse_lines(tail, ln + 1)
            } else {
                match parse_line_spec(line, ln as usize) {
                    Err(e) => Err(e),
                    Ok(l) => match parse_lines(tail, ln + 1) {
                        Err(e) => Err(e),
                        Ok(ls) => Ok(seq![l] + ls),
                    },
                }
            }));
            if !range_is_blank(c.as_slice(), pos, hi) {
                let lc = copy_range(c.as_slice(), pos, hi);
                match Label::parse_chars(lc.as_slice(), line_no) {
                    Err(err) => {
                        return Err(err);
                    },
                    Ok(l) => {
                        labels.push(l);
                        proof {
                            assert(labels@.map_values(|l: Label| l@) == done.push(l@));
                            match parse_lines(tail, ln + 1) {
                                Ok(ls) => {
                                    assert(done.push(l@) + ls == done + (seq![l@] + ls));
                                },
                                Err(_) => {},
                            }
                        }
                    },
                }
            }
            if e == n {
                pos = n;
                proof {
                    assert(c@.skip(n as int) == Seq::<char>::empty());
                    assert(lines_of(c@.skip(n as int)) == tail);
                }
            } else {
                pos = e + 1;
                if pos < n {
                    line_no = line_no + 1;
                } else {
                    proof {
                        assert(c@.skip(pos as int) == Seq::<char>::empty());
                        assert(lines_of(c@.skip(pos as int)) == Seq::<Seq<char>>::empty());
                    }
                }
            }
        }
        proof {
            assert(c@.skip(pos as int) == Seq::<char>::empty());
            let done = labels@.map_values(|l: Label| l@);
            assert(done + Seq::<LabelModel>::empty() == done);
        }
        Ok(LabFile { labels })
    }

    /// The labels written in `.lab` form, one per line (`display_file`).
    pub fn to_string(&self) -> (r: String)
        ensures
            r@ == display_file(self@),
    {
        let mut s = String::new();
        let mut i: usize = 0;
        let ghost all = self@;
        assert(all.take(0) == Seq::<LabelModel>::empty());
        while i < self.labels.len()
            invariant
                i <= self.labels@.len(),
                all == self@,
                s@ == display_file(all.take(i as int)),
            decreases self.labels@.len() - i,
        {
            let t = self.labels[i].to_string();
            s.append(t.as_str());
            push_char(&mut s, '\n');
            proof {
                assert(all.take(i + 1) == all.take(i as int).push(all[i as int]));
                lemma_display_file_push(all.take(i as int), all[i as int]);
            }
            i += 1;
        }
        assert(all.take(self.labels@.len() as int) == all);
        s
    }
}

/// A time moved by `offset`, held between zero and `u64::MAX`.
pub open spec fn shift_time(t: u64, offset: i64) -> u64 {
    let x = t + offset;
    if x < 0 {
        0
    } else if x > u64::MAX {
        u64::MAX
    } else {
        x as u64
    }
}

/// An optional time moved by `offset`.
pub open spec fn shift_opt(t: Option<u64>, offset: i64) -> Option<u64> {
    match t {
        Some(x) => Some(shift_time(x, offset)),
        None => None,
    }
}

/// A label with both its times moved by `offset`.
pub open spec fn shift_label(l: LabelModel, offset: i64) -> LabelModel {
    LabelModel { start: shift_opt(l.start, offset), end: shift_opt(l.end, offset), ..l }
}

/// Labels with every time moved by `offset`.
pub open spec fn shift_all(ls: Seq<LabelModel>, offset: i64) -> Seq<LabelModel> {
    ls.map_values(|l: LabelModel| shift_label(l, offset))
}

fn shift_u64(t: u64, offset: i64) -> (r: u64)
    ensures
        r == shift_time(t, offset),
{
    if offset >= 0 {
        t.saturating_add(offset as u64)
    } else {
        let mag: u64 = (0i128 - offset as i128) as u64;
        t.saturating_sub(mag)
    }
}

impl LabFile {
    /// Shifts every time by `offset` in 100 ns units, clamping at zero (and at
    /// `u64::MAX`).
    pub fn shift(&mut self, offset: i64)
        ensures
            final(self)@ == shift_all(old(self)@, offset),
    {
        let n = self.labels.len();
        let mut i: usize = 0;
        while i < n
            invariant
                i <= n,
                n == self.labels@.len(),
                n == old(self).labels@.len(),
                forall|j: int| 0 <= j < i ==> #[trigger] self.labels@[j]@ == shift_label(old(self).labels@[j]@, offset),
                forall|j: int| i <= j < n ==> #[trigger] self.labels@[j] == old(self).labels@[j],
            decreases n - i,
        {
            let s = match self.labels[i].start {
                Some(t) => Some(shift_u64(t, offset)),
                None => None,
            };
            let e = match self.labels[i].end {
                Some(t) => Some(shift_u64(t, offset)),
                None => None,
            };
            self.labels[i].start = s;
            self.labels[i].end = e;
            i += 1;
        }
        assert(self@ == shift_all(old(self)@, offset));
    }
}

/// Whether moving an optional time by `offset` stays between zero and `u64::MAX`.
pub open spec fn shift_fits(t: Option<u64>, offset: i64) -> bool {
    match t {
        Some(x) => 0 <= x + offset <= u64::MAX,
        None => true,
    }
}

/// Shifting by `offset` and then by `-offset` gives the labels back when no
/// time was clamped by the first shift.
pub proof fn lemma_shift_undo(ls: Seq<LabelModel>, offset: i64)
    requires
        offset > i64::MIN,
        forall|i: int|
            0 <= i < ls.len() ==> shift_fits(#[trigger] ls[i].start, offset) && shift_fits(
                ls[i].end,
                offset,
            ),
    ensures
        shift_all(shift_all(ls, offset), (0 - offset) as i64) == ls,
{
    let back = shift_all(shift_all(ls, offset), (0 - offset) as i64);
    assert forall|i: int| 0 <= i < ls.len() implies #[trigger] back[i] == ls[i] by {
        assert(shift_fits(ls[i].start, offset));
        assert(shift_fits(ls[i].end, offset));
    }
    assert(back == ls);
}

/// The earliest start time among the labels.
pub open spec fn earliest_start(ls: Seq<LabelModel>) -> Option<u64>
    decreases ls.len(),
{
    if ls.len() == 0 {
        None
    } else {
        let r = earliest_start(ls.drop_last());
        match ls.last().start {
            None => r,
            Some(s) => match r {
                Some(m) => Some(if m <= s {
                    m
                } else {
                    s
                }),
                None => Some(s),
            },
        }
    }
}

/// The latest end time among the labels.
pub open spec fn latest_end(ls: Seq<LabelModel>) -> Option<u64>
    decreases ls.len(),
{
    if ls.len() == 0 {
        None
    } else {
        let r = latest_end(ls.drop_last());
        match ls.last().end {
            None => r,
            Some(e) => match r {
                Some(m) => Some(if m >= e {
                    m
                } else {
                    e
                }),
                None => Some(e),
            },
        }
    }
}

/// The span from the earliest start to the latest end, zero where the end is
/// before the start.
pub open spec fn file_duration(ls: Seq<LabelModel>) -> Option<u64> {
    match (earliest_start(ls), latest_end(ls)) {
        (Some(s), Some(e)) => Some(if e >= s {
            (e - s) as u64
        } else {
            0
        }),
        _ => None,
    }
}

/// `earliest_start` is the least start time, present exactly when some label
/// has a start.
pub proof fn lemma_earliest_start(ls: Seq<LabelModel>)
    ensures
        earliest_start(ls) is None <==> forall|i: int| 0 <= i < ls.len() ==> (#[trigger] ls[i]).start is None,
        earliest_start(ls) matches Some(m) ==> (exists|i: int| 0 <= i < ls.len() && (#[trigger] ls[i]).start == Some(m))
            && forall|i: int| 0 <= i < ls.len() && (#[trigger] ls[i]).start is Some ==> m <= ls[i].start->0,
    decreases ls.len(),
{
    if ls.len() > 0 {
        let p = ls.drop_last();
        let k = ls.len() - 1;
        lemma_earliest_start(p);
        assert forall|i: int| 0 <= i < p.len() implies #[trigger] p[i] == ls[i] by {}
        assert(ls.last() == ls[k]);
        if earliest_start(ls) is None {
            assert forall|i: int| 0 <= i < ls.len() implies (#[trigger] ls[i]).start is None by {
                if i < k {
                    assert(ls[i] == p[i]);
                }
            }
        } else {
            if ls[k].start is None {
                assert(earliest_start(p) is Some);
            }
        }
        if let Some(m) = earliest_start(ls) {
            if earliest_start(p) is Some && earliest_start(p)->0 == m {
                let w = choose|i: int| 0 <= i < p.len() && (#[trigger] p[i]).start == Some(m);
                assert(ls[w] == p[w]);
            } else {
                assert(ls[k].start == Some(m));
            }
            assert forall|i: int| 0 <= i < ls.len() && (#[trigger] ls[i]).start is Some implies m <= ls[i].start->0 by {
                if i < k {
                    assert(ls[i] == p[i]);
                }
            }
        }
    }
}

/// `latest_end` is the greatest end time, present exactly when some label has
/// an end.
pub proof fn lemma_latest_end(ls: Seq<LabelModel>)
    ensures
        latest_end(ls) is None <==> forall|i: int| 0 <= i < ls.len() ==> (#[trigger] ls[i]).end is None,
        latest_end(ls) matches Some(m) ==> (exists|i: int| 0 <= i < ls.len() && (#[trigger] ls[i]).end == Some(m))
            && forall|i: int| 0 <= i < ls.len() && (#[trigger] ls[i]).end is Some ==> ls[i].end->0 <= m,
    decreases ls.len(),
{
    if ls.len() > 0 {
        let p = ls.drop_last();
        let k = ls.len() - 1;
        lemma_latest_end(p);
        assert forall|i: int| 0 <= i < p.len() implies #[trigger] p[i] == ls[i] by {}
        assert(ls.last() == ls[k]);
        if latest_end(ls) is None {
            assert forall|i: int| 0 <= i < ls.len() implies (#[trigger] ls[i]).end is None by {
                if i < k {
                    assert(ls[i] == p[i]);
                }
            }
        } else {
            if ls[k].end is None {
                assert(latest_end(p) is Some);
            }
        }
        if let Some(m) = latest_end(ls) {
            if latest_end(p) is Some && latest_end(p)->0 == m {
                let w = choose|i: int| 0 <= i < p.len() && (#[trigger] p[i]).end == Some(m);
                assert(ls[w] == p[w]);
            } else {
                assert(ls[k].end == Some(m));
            }
            assert forall|i: int| 0 <= i < ls.len() && (#[trigger] ls[i]).end is Some implies ls[i].end->0 <= m by {
                if i < k {
                    assert(ls[i] == p[i]);
                }
            }
        }
    }
}

/// The labels whose span contains `time`, in order.
pub open spec fn labels_at_spec(ls: Seq<LabelModel>, time: u64) -> Seq<LabelModel>
    decreases ls.len(),
{
    if ls.len() == 0 {
        Seq::empty()
    } else {
        let r = labels_at_spec(ls.drop_last(), time);
        if contains_spec(ls.last(), time) {
            r.push(ls.last())
        } else {
            r
        }
    }
}

/// The labels found at a time are exactly the labels whose span contains
/// it, in file order.
pub proof fn lemma_labels_at_filter(ls: Seq<LabelModel>, time: u64)
    ensures
        labels_at_spec(ls, time) == ls.filter(|l: LabelModel| contains_spec(l, time)),
    decreases ls.len(),
{
    reveal(Seq::filter);
    if ls.len() > 0 {
        lemma_labels_at_filter(ls.drop_last(), time);
    }
}

/// Whether the second of two consecutive labels starts before the first ends.
pub open spec fn overlaps(a: LabelModel, b: LabelModel) -> bool {
    match (a.end, b.start) {
        (Some(ae), Some(bs)) => bs < ae,
        _ => false,
    }
}

/// The overlapping or out-of-order consecutive pairs: the index of the second
/// label, the first label and the second label of each, in order.
pub open spec fn overlap_triples(ls: Seq<LabelModel>) -> Seq<(nat, LabelModel, LabelModel)>
    decreases ls.len(),
{
    if ls.len() < 2 {
        Seq::empty()
    } else {
        let r = overlap_triples(ls.drop_last());
        let k = (ls.len() - 1) as nat;
        if overlaps(ls[k - 1], ls[k as int]) {
            r.push((k, ls[k - 1], ls[k as int]))
        } else {
            r
        }
    }
}

/// The first label found at a time is the first of all labels found there,
/// and none is found exactly when no label's span contains the time.
pub proof fn lemma_label_at_is_first(ls: Seq<LabelModel>, time: u64, i: int)
    requires
        0 <= i < ls.len(),
        contains_spec(ls[i], time),
        forall|j: int| 0 <= j < i ==> !contains_spec(#[trigger] ls[j], time),
    ensures
        labels_at_spec(ls, time).len() > 0,
        labels_at_spec(ls, time)[0] == ls[i],
    decreases ls.len(),
{
    let p = ls.drop_last();
    if i < ls.len() - 1 {
        assert forall|j: int| 0 <= j < i implies !contains_spec(#[trigger] p[j], time) by {
            assert(p[j] == ls[j]);
        }
        assert(p[i] == ls[i]);
        lemma_label_at_is_first(p, time, i);
    } else {
        lemma_none_at(p, time);
        assert forall|j: int| 0 <= j < p.len() implies !contains_spec(#[trigger] p[j], time) by {
            assert(p[j] == ls[j]);
        }
    }
}

/// No label is found at a time exactly when no label's span contains it.
pub proof fn lemma_none_at(ls: Seq<LabelModel>, time: u64)
    ensures
        labels_at_spec(ls, time).len() == 0 <==> forall|j: int|
            0 <= j < ls.len() ==> !contains_spec(#[trigger] ls[j], time),
    decreases ls.len(),
{
    if ls.len() > 0 {
        let p = ls.drop_last();
        lemma_none_at(p, time);
        assert forall|j: int| 0 <= j < p.len() implies #[trigger] p[j] == ls[j] by {}
        if labels_at_spec(ls, time).len() == 0 {
            assert forall|j: int| 0 <= j < ls.len() implies !contains_spec(#[trigger] ls[j], time) by {
                if j < ls.len() - 1 {
                    assert(p[j] == ls[j]);
                }
            }
        }
        if forall|j: int| 0 <= j < ls.len() ==> !contains_spec(#[trigger] ls[j], time) {
            assert(!contains_spec(ls[ls.len() - 1], time));
            assert forall|j: int| 0 <= j < p.len() implies !contains_spec(#[trigger] p[j], time) by {
                assert(!contains_spec(ls[j], time));
            }
        }
    }
}

impl LabFile {
    /// The earliest start time across all labels, in 100 ns units.
    pub fn start(&self) -> (r: Option<u64>)
        ensures
            r == earliest_start(self@),
            r is None <==> forall|i: int| 0 <= i < self@.len() ==> (#[trigger] self@[i]).start is None,
            r matches Some(m) ==> (exists|i: int| 0 <= i < self@.len() && (#[trigger] self@[i]).start == Some(m))
                && forall|i: int| 0 <= i < self@.len() && (#[trigger] self@[i]).start is Some ==> m <= self@[i].start->0,
    {
        let ghost all = self@;
        let mut r: Option<u64> = None;
        let mut i: usize = 0;
        while i < self.labels.len()
            invariant
                i <= self.labels@.len(),
                all == self@,
                r == earliest_start(all.take(i as int)),
            decreases self.labels@.len() - i,
        {
            proof {
                assert(all.take(i + 1).drop_last() == all.take(i as int));
                assert(all.take(i + 1).last() == all[i as int]);
            }
            match self.labels[i].start {
                Some(s) => {
                    r = match r {
                        Some(m) => Some(if m <= s {
                            m
                        } else {
                            s
                        }),
                        None => Some(s),
                    };
                },
                None => {},
            }
            i += 1;
        }
        assert(all.take(self.labels@.len() as int) == all);
        proof {
            lemma_earliest_start(all);
        }
        r
    }

    /// The latest end time across all labels, in 100 ns units.
    pub fn end(&self) -> (r: Option<u64>)
        ensures
            r == latest_end(self@),
            r is None <==> forall|i: int| 0 <= i < self@.len() ==> (#[trigger] self@[i]).end is None,
            r matches Some(m) ==> (exists|i: int| 0 <= i < self@.len() && (#[trigger] self@[i]).end == Some(m))
                && forall|i: int| 0 <= i < self@.len() && (#[trigger] self@[i]).end is Some ==> self@[i].end->0 <= m,
    {
        let ghost all = self@;
        let mut r: Option<u64> = None;
        let mut i: usize = 0;
        while i < self.labels.len()
            invariant
                i <= self.labels@.len(),
                all == self@,
                r == latest_end(all.take(i as int)),
            decreases self.labels@.len() - i,
        {
            proof {
                assert(all.take(i + 1).drop_last() == all.take(i as int));
                assert(all.take(i + 1).last() == all[i as int]);
            }
            match self.labels[i].end {
                Some(e) => {
                    r = match r {
                        Some(m) => Some(if m >= e {
                            m
                        } else {
                            e
                        }),
                        None => Some(e),
                    };
                },
                None => {},
            }
            i += 1;
        }
        assert(all.take(self.labels@.len() as int) == all);
        proof {
            lemma_latest_end(all);
        }
        r
    }

    /// The total time span, from the earliest start to the latest end, in
    /// 100 ns units.
    pub fn duration(&self) -> (r: Option<u64>)
        ensures
            r == file_duration(self@),
    {
        match (self.start(), self.end()) {
            (Some(s), Some(e)) => Some(e.saturating_sub(s)),
            _ => None,
        }
    }

    /// The first label whose span contains `time` (`start <= time < end`).
    pub fn label_at(&self, time: u64) -> (r: Option<&Label>)
        ensures
            match r {
                None => forall|i: int| 0 <= i < self@.len() ==> !contains_spec(#[trigger] self@[i], time),
                Some(l) => exists|i: int|
                    0 <= i < self@.len() && *l == self.labels@[i] && contains_spec(#[trigger] self@[i], time)
                        && forall|j: int| 0 <= j < i ==> !contains_spec(#[trigger] self@[j], time),
            },
    {
        let mut i: usize = 0;
        while i < self.labels.len()
            invariant
                i <= self.labels@.len(),
                forall|j: int| 0 <= j < i ==> !contains_spec(#[trigger] self@[j], time),
            decreases self.labels@.len() - i,
        {
            if self.labels[i].contains(time) {
                assert(self@[i as int] == self.labels@[i as int]@);
                return Some(&self.labels[i]);
            }
            assert(self@[i as int] == self.labels@[i as int]@);
            i += 1;
        }
        None
    }

    /// The labels whose span contains `time` (`start <= time < end`), in order.
    pub fn labels_at(&self, time: u64) -> (r: Vec<&Label>)
        ensures
            r@.map_values(|l: &Label| l@) == labels_at_spec(self@, time),
    {
        let ghost all = self@;
        let mut r: Vec<&Label> = Vec::new();
        let mut i: usize = 0;
        while i < self.labels.len()
            invariant
                i <= self.labels@.len(),
                all == self@,
                r@.map_values(|l: &Label| l@) == labels_at_spec(all.take(i as int), time),
            decreases self.labels@.len() - i,
        {
            proof {
                assert(all.take(i + 1).drop_last() == all.take(i as int));
                assert(all.take(i + 1).last() == all[i as int]);
            }
            let ghost before = r@;
            if self.labels[i].contains(time) {
                r.push(&self.labels[i]);
                assert(r@.map_values(|l: &Label| l@) == before.map_values(|l: &Label| l@).push(all[i as int]));
            }
            i += 1;
        }
        assert(all.take(self.labels@.len() as int) == all);
        r
    }

    /// The pairs of consecutive labels that overlap or are out of order: the
    /// index of the second label, the first label and the second label. Labels
    /// that share a boundary (`a.end == b.start`) are fine.
    pub fn overlapping_pairs(&self) -> (r: Vec<(usize, &Label, &Label)>)
        ensures
            r@.map_values(|p: (usize, &Label, &Label)| (p.0 as nat, p.1@, p.2@)) == overlap_triples(self@),
    {
        let ghost all = self@;
        let mut r: Vec<(usize, &Label, &Label)> = Vec::new();
        let n = self.labels.len();
        if n < 2 {
            return r;
        }
        let mut i: usize = 1;
        assert(overlap_triples(all.take(1)) == Seq::<(nat, LabelModel, LabelModel)>::empty());
        while i < n
            invariant
                1 <= i <= n,
                n == self.labels@.len(),
                all == self@,
                r@.map_values(|p: (usize, &Label, &Label)| (p.0 as nat, p.1@, p.2@)) == overlap_triples(all.take(i as int)),
            decreases n - i,
        {
            let a = &self.labels[i - 1];
            let b = &self.labels[i];
            let ghost before = r@;
            proof {
                let t = all.take(i + 1);
                assert(t.drop_last() == all.take(i as int));
                assert(t[i - 1] == all[i - 1]);
                assert(t[i as int] == all[i as int]);
            }
            if let (Some(a_end), Some(b_start)) = (a.end, b.start) {
                if b_start < a_end {
                    r.push((i, a, b));
                    assert(r@.map_values(|p: (usize, &Label, &Label)| (p.0 as nat, p.1@, p.2@)) == before.map_values(|p: (usize, &Label, &Label)| (p.0 as nat, p.1@, p.2@)).push((i as nat, all[i - 1], all[i as int])));
                }
            }
            i += 1;
        }
        assert(all.take(n as int) == all);
        r
    }
}

/// Whether label `l` continues label `p` when merging: the same text, and no
/// gap or overlap between them where both times are there.
pub open spec fn mergeable(p: LabelModel, l: LabelModel) -> bool {
    p.text == l.text && match (p.end, l.start) {
        (Some(e), Some(s)) => e == s,
        _ => true,
    }
}

/// Label `p` extended by its continuation `l`: `l`'s end where it has one,
/// and no score.
pub open spec fn merged(p: LabelModel, l: LabelModel) -> LabelModel {
    LabelModel {
        end: if l.end is Some {
            l.end
        } else {
            p.end
        },
        score: None,
        ..p
    }
}

/// Adds label `l` to labels merged so far.
pub open spec fn merge_step(acc: Seq<LabelModel>, l: LabelModel) -> Seq<LabelModel> {
    if acc.len() > 0 && mergeable(acc.last(), l) {
        acc.drop_last().push(merged(acc.last(), l))
    } else {
        acc.push(l)
    }
}

/// Labels with every run of continuing labels merged into one, front to back.
pub open spec fn merge_all(ls: Seq<LabelModel>) -> Seq<LabelModel>
    decreases ls.len(),
{
    if ls.len() == 0 {
        Seq::empty()
    } else {
        merge_step(merge_all(ls.drop_last()), ls.last())
    }
}

/// Whether no label continues the one before it.
pub open spec fn no_mergeable_neighbours(ls: Seq<LabelModel>) -> bool {
    forall|i: int| 0 <= i < ls.len() - 1 ==> !mergeable(#[trigger] ls[i], ls[i + 1])
}

/// After merging, no label continues the one before it, and there are at
/// most as many labels as before.
pub proof fn lemma_merge_leaves_no_neighbours(ls: Seq<LabelModel>)
    ensures
        no_mergeable_neighbours(merge_all(ls)),
        merge_all(ls).len() <= ls.len(),
        ls.len() > 0 ==> merge_all(ls).len() > 0,
    decreases ls.len(),
{
    if ls.len() > 0 {
        let p = ls.drop_last();
        lemma_merge_leaves_no_neighbours(p);
        let acc = merge_all(p);
        let l = ls.last();
        let r = merge_all(ls);
        if acc.len() > 0 && mergeable(acc.last(), l) {
            let m = merged(acc.last(), l);
            assert(r == acc.drop_last().push(m));
            assert forall|i: int| 0 <= i < r.len() - 1 implies !mergeable(#[trigger] r[i], r[i + 1]) by {
                assert(r[i] == acc[i]);
                if i + 1 < r.len() - 1 {
                    assert(r[i + 1] == acc[i + 1]);
                } else {
                    assert(r[i + 1] == m);
                    assert(!mergeable(acc[i], acc[i + 1]));
                }
            }
        } else {
            assert(r == acc.push(l));
            assert forall|i: int| 0 <= i < r.len() - 1 implies !mergeable(#[trigger] r[i], r[i + 1]) by {
                assert(r[i] == acc[i]);
                if i + 1 < r.len() - 1 {
                    assert(r[i + 1] == acc[i + 1]);
                }
            }
        }
    }
}

/// Labels of which none continues the one before are left as they are by
/// merging.
pub proof fn lemma_merge_keeps_separate(ls: Seq<LabelModel>)
    requires
        no_mergeable_neighbours(ls),
    ensures
        merge_all(ls) == ls,
    decreases ls.len(),
{
    if ls.len() > 0 {
        let p = ls.drop_last();
        assert forall|i: int| 0 <= i < p.len() - 1 implies !mergeable(#[trigger] p[i], p[i + 1]) by {
            assert(p[i] == ls[i]);
            assert(p[i + 1] == ls[i + 1]);
        }
        lemma_merge_keeps_separate(p);
        if p.len() > 0 {
            assert(p.last() == ls[ls.len() - 2]);
            assert(!mergeable(ls[ls.len() - 2], ls[ls.len() - 1]));
        }
        assert(p.push(ls.last()) == ls);
    }
}

/// Merging twice is merging once.
pub proof fn lemma_merge_idempotent(ls: Seq<LabelModel>)
    ensures
        merge_all(merge_all(ls)) == merge_all(ls),
{
    lemma_merge_leaves_no_neighbours(ls);
    lemma_merge_keeps_separate(merge_all(ls));
}

/// Merging changes nothing where each label differs in text from the next,
/// or both times between them are there and differ (a gap or an overlap).
pub proof fn lemma_merge_needs_same_text_and_meeting(ls: Seq<LabelModel>)
    requires
        forall|i: int|
            0 <= i < ls.len() - 1 ==> (#[trigger] ls[i]).text != ls[i + 1].text || (ls[i].end is Some
                && ls[i + 1].start is Some && ls[i].end != ls[i + 1].start),
    ensures
        merge_all(ls) == ls,
{
    assert forall|i: int| 0 <= i < ls.len() - 1 implies !mergeable(#[trigger] ls[i], ls[i + 1]) by {}
    lemma_merge_keeps_separate(ls);
}

/// Two labels of the same text, the second starting where the first ends
/// (or a time missing to tell), become one label: the first's start, the
/// second's end where it has one (else the first's), and no score.
pub proof fn lemma_merge_pair(a: LabelModel, b: LabelModel)
    requires
        a.text == b.text,
        a.end is Some && b.start is Some ==> a.end == b.start,
    ensures
        merge_all(seq![a, b]) == seq![
            LabelModel {
                start: a.start,
                end: if b.end is Some {
                    b.end
                } else {
                    a.end
                },
                text: a.text,
                score: None,
            },
        ],
{
    let ls = seq![a, b];
    assert(ls.drop_last() =~= seq![a]);
    assert(seq![a].drop_last() =~= Seq::<LabelModel>::empty());
    assert(seq![a].last() == a);
    assert(ls.last() == b);
    assert(merge_all(Seq::<LabelModel>::empty()) == Seq::<LabelModel>::empty());
    assert(merge_all(seq![a]) == merge_step(Seq::<LabelModel>::empty(), a));
    assert(merge_all(seq![a]) == Seq::<LabelModel>::empty().push(a));
    assert(merge_all(seq![a]) =~= seq![a]);
    assert(merge_all(ls) =~= seq![a].drop_last().push(merged(a, b)));
}

impl LabFile {
    /// Merges consecutive labels with identical text that meet or lack the
    /// times to tell; merged labels lose their scores.
    pub fn merge_adjacent(&mut self)
        ensures
            final(self)@ == merge_all(old(self)@),
    {
        let mut src: Vec<Label> = Vec::new();
        std::mem::swap(&mut src, &mut self.labels);
        let ghost orig = src@.map_values(|l: Label| l@);
        assert(orig == old(self)@);
        let n = src.len();
        let mut merged_labels: Vec<Label> = Vec::new();
        let mut i: usize = 0;
        assert(orig.take(0) == Seq::<LabelModel>::empty());
        while i < n
            invariant
                i <= n,
                n == src@.len(),
                orig.len() == n,
                forall|j: int| i <= j < n ==> (#[trigger] src@[j])@ == orig[j],
                merged_labels@.map_values(|l: Label| l@) == merge_all(orig.take(i as int)),
            decreases n - i,
        {
            let mut l = Label { start: None, end: None, text: String::new(), score: None };
            std::mem::swap(&mut l, &mut src[i]);
            assert(l@ == orig[i as int]);
            let ghost acc = merged_labels@.map_values(|x: Label| x@);
            proof {
                assert(orig.take(i + 1).drop_last() == orig.take(i as int));
                assert(orig.take(i + 1).last() == orig[i as int]);
            }
            let m = merged_labels.len();
            let joins = if m > 0 {
                let p = &merged_labels[m - 1];
                assert(p@ == acc.last());
                p.text == l.text && match (p.end, l.start) {
                    (Some(e), Some(s)) => e == s,
                    _ => true,
                }
            } else {
                false
            };
            if joins {
                let p = merged_labels.pop().unwrap();
                let end = if l.end.is_some() {
                    l.end
                } else {
                    p.end
                };
                merged_labels.push(Label { start: p.start, end, text: p.text, score: None });
                assert(merged_labels@.map_values(|x: Label| x@) == acc.drop_last().push(
                    merged(acc.last(), l@),
                ));
            } else {
                merged_labels.push(l);
                assert(merged_labels@.map_values(|x: Label| x@) == acc.push(orig[i as int]));
            }
            i += 1;
        }
        assert(orig.take(n as int) == orig);
        self.labels = merged_labels;
    }
}

/// The message for labels `a` (number `i + 1`) and `b` (number `i + 2`)
/// when `b` starts before `a` ends at `a_end`: out of order where `b` also
/// ends by then, else overlapping.
pub open spec fn overlap_message(i: nat, a: LabelModel, b: LabelModel, a_end: u64) -> Seq<char> {
    "label "@ + dec(i + 2) + " (`"@ + b.text + "`) "@ + (if b.end matches Some(be) && be <= a_end {
        "is out of order with"@
    } else {
        "overlaps"@
    }) + " label "@ + dec(i + 1) + " (`"@ + a.text + "`)"@
}

/// The message for a gap of `g` units between labels `a` (number `i + 1`) and
/// `b` (number `i + 2`).
pub open spec fn gap_message(i: nat, a: LabelModel, b: LabelModel, g: nat) -> Seq<char> {
    "gap of "@ + seconds_text(g, 4) + "s between label "@ + dec(i + 1) + " (`"@ + a.text
        + "`) and label "@ + dec(i + 2) + " (`"@ + b.text + "`)"@
}

/// The problem, if any, between consecutive labels `a` (index `i`) and `b`:
/// an overlap or disorder where `b` starts before `a` ends, a gap where it
/// starts after.
pub open spec fn pair_problem(i: nat, a: LabelModel, b: LabelModel) -> Option<Seq<char>> {
    match (a.end, b.start) {
        (Some(ae), Some(bs)) => if bs < ae {
            Some(overlap_message(i, a, b, ae))
        } else if bs > ae {
            Some(gap_message(i, a, b, (bs - ae) as nat))
        } else {
            None
        },
        _ => None,
    }
}

/// The problems of all pairs of consecutive labels, in order.
pub open spec fn problems(ls: Seq<LabelModel>) -> Seq<Seq<char>>
    decreases ls.len(),
{
    if ls.len() < 2 {
        Seq::empty()
    } else {
        let k = ls.len() - 1;
        let r = problems(ls.drop_last());
        match pair_problem((k - 1) as nat, ls[k - 1], ls[k]) {
            Some(m) => r.push(m),
            None => r,
        }
    }
}

/// Whether consecutive labels meet exactly wherever both times are there.
pub open spec fn meet(a: LabelModel, b: LabelModel) -> bool {
    match (a.end, b.start) {
        (Some(ae), Some(bs)) => ae == bs,
        _ => true,
    }
}

/// The number of consecutive pairs with a gap between them.
pub open spec fn gap_count(ls: Seq<LabelModel>) -> nat
    decreases ls.len(),
{
    if ls.len() < 2 {
        0
    } else {
        let k = ls.len() - 1;
        gap_count(ls.drop_last()) + match (ls[k - 1].end, ls[k].start) {
            (Some(ae), Some(bs)) => if bs > ae {
                1nat
            } else {
                0nat
            },
            _ => 0nat,
        }
    }
}

/// The problems reported are one for each overlapping or out-of-order pair
/// and one for each gap; none are reported exactly when all consecutive
/// labels meet wherever both times are there.
pub proof fn lemma_problems_count(ls: Seq<LabelModel>)
    ensures
        problems(ls).len() == overlap_triples(ls).len() + gap_count(ls),
        problems(ls).len() == 0 <==> forall|i: int| 0 <= i < ls.len() - 1 ==> meet(#[trigger] ls[i], ls[i + 1]),
    decreases ls.len(),
{
    if ls.len() >= 2 {
        let p = ls.drop_last();
        lemma_problems_count(p);
        let k = ls.len() - 1;
        assert(p[k - 1] == ls[k - 1]);
        assert forall|i: int| 0 <= i < p.len() - 1 implies #[trigger] p[i] == ls[i] && p[i + 1] == ls[i + 1] by {}
        if problems(ls).len() == 0 {
            assert forall|i: int| 0 <= i < ls.len() - 1 implies meet(#[trigger] ls[i], ls[i + 1]) by {
                if i < k - 1 {
                    assert(p[i] == ls[i] && p[i + 1] == ls[i + 1]);
                }
            }
        }
        if forall|i: int| 0 <= i < ls.len() - 1 ==> meet(#[trigger] ls[i], ls[i + 1]) {
            assert(meet(ls[k - 1], ls[k]));
            assert forall|i: int| 0 <= i < p.len() - 1 implies meet(#[trigger] p[i], p[i + 1]) by {
                assert(meet(ls[i], ls[i + 1]));
            }
        }
    } else {
        assert(overlap_triples(ls).len() == 0);
    }
}

/// Appends a string's characters.
fn push_str(s: &mut String, t: &String)
    ensures
        final(s)@ == old(s)@ + t@,
{
    s.append(t.as_str());
}

fn pair_problem_exec(i: usize, a: &Label, b: &Label) -> (r: Option<String>)
    requires
        i + 2 <= usize::MAX,
    ensures
        match r {
            Some(m) => pair_problem(i as nat, a@, b@) == Some(m@),
            None => pair_problem(i as nat, a@, b@) is None,
        },
{
    let (a_end, b_start) = match (a.end, b.start) {
        (Some(ae), Some(bs)) => (ae, bs),
        _ => {
            return None;
        },
    };
    let first = (i + 1) as u64;
    let second = (i + 2) as u64;
    if b_start < a_end {
        let mut m = String::from_str("label ");
        push_decimal(&mut m, second);
        m.append(" (`");
        push_str(&mut m, &b.text);
        m.append("`) ");
        let out_of_order = match b.end {
            Some(be) => be <= a_end,
            None => false,
        };
        if out_of_order {
            m.append("is out of order with");
        } else {
            m.append("overlaps");
        }
        m.append(" label ");
        push_decimal(&mut m, first);
        m.append(" (`");
        push_str(&mut m, &a.text);
        m.append("`)");
        Some(m)
    } else if b_start > a_end {
        let mut m = String::from_str("gap of ");
        push_seconds(&mut m, b_start - a_end, 4);
        m.append("s between label ");
        push_decimal(&mut m, first);
        m.append(" (`");
        push_str(&mut m, &a.text);
        m.append("`) and label ");
        push_decimal(&mut m, second);
        m.append(" (`");
        push_str(&mut m, &b.text);
        m.append("`)");
        Some(m)
    } else {
        None
    }
}

impl LabFile {
    /// A message for each gap, overlap, or out-of-order pair of consecutive
    /// labels, in order.
    pub fn validate(&self) -> (r: Vec<String>)
        ensures
            r@.map_values(|m: String| m@) == problems(self@),
    {
        let ghost all = self@;
        let mut r: Vec<String> = Vec::new();
        let n = self.labels.len();
        if n < 2 {
            return r;
        }
        let mut i: usize = 1;
        assert(problems(all.take(1)) == Seq::<Seq<char>>::empty());
        while i < n
            invariant
                1 <= i <= n,
                n == self.labels@.len(),
                all == self@,
                r@.map_values(|m: String| m@) == problems(all.take(i as int)),
            decreases n - i,
        {
            let ghost before = r@;
            proof {
                let t = all.take(i + 1);
                assert(t.drop_last() == all.take(i as int));
                assert(t[i - 1] == all[i - 1]);
                assert(t[i as int] == all[i as int]);
            }
            match pair_problem_exec(i - 1, &self.labels[i - 1], &self.labels[i]) {
                Some(m) => {
                    r.push(m);
                    assert(r@.map_values(|m: String| m@) == before.map_values(|m: String| m@).push(
                        m@,
                    ));
                },
                None => {},
            }
            i += 1;
        }
        assert(all.take(n as int) == all);
        r
    }
}

/// Whether some label of `labels` has the text `t`.
pub open spec fn has_text(labels: Seq<LabelModel>, t: Seq<char>) -> bool {
    exists|i: int| 0 <= i < labels.len() && labels[i].text == t
}

/// Whether each text of `v` comes before every later one.
pub open spec fn strictly_sorted(v: Seq<Seq<char>>) -> bool {
    forall|j: int, k: int| 0 <= j < k < v.len() ==> text_less(v[j], v[k])
}

/// The characters of each string of `v`.
pub open spec fn string_views(v: Seq<String>) -> Seq<Seq<char>> {
    v.map_values(|s: String| s@)
}

impl LabFile {
    /// The distinct texts of the labels, each once, in the order of `str`.
    pub fn distinct_texts(&self) -> (r: Vec<String>)
        ensures
            strictly_sorted(string_views(r@)),
            forall|t: Seq<char>| string_views(r@).contains(t) <==> has_text(self@, t),
    {
        let n = self.labels.len();
        let mut keys: Vec<Vec<char>> = Vec::new();
        let ghost mut pos: Seq<int> = Seq::empty();
        let ghost mut src: Seq<int> = Seq::empty();
        let mut i: usize = 0;
        while i < n
            invariant
                n == self.labels.len(),
                i <= n,
                pos.len() == i,
                src.len() == keys.len(),
                forall|j: int, k: int|
                    0 <= j < k < keys.len() ==> text_less(#[trigger] keys@[j]@, #[trigger] keys@[k]@),
                forall|l: int|
                    0 <= l < i ==> 0 <= #[trigger] pos[l] < keys.len() && keys@[pos[l]]@ == self@[l].text,
                forall|j: int|
                    0 <= j < keys.len() ==> 0 <= #[trigger] src[j] < i && self@[src[j]].text == keys@[j]@,
            decreases n - i,
        {
            let t = chars_of(self.labels[i].text.as_str());
            assert(t@ == self@[i as int].text);
            let mut p: usize = 0;
            while p < keys.len() && chars_less(keys[p].as_slice(), t.as_slice())
                invariant
                    p <= keys.len(),
                    forall|j: int| 0 <= j < p ==> text_less(#[trigger] keys@[j]@, t@),
                decreases keys.len() - p,
            {
                p += 1;
            }
            if p < keys.len() && !chars_less(t.as_slice(), keys[p].as_slice()) {
                proof {
                    lemma_text_less_total(keys@[p as int]@, t@);
                    pos = pos.push(p as int);
                }
            } else {
                let ghost old_keys = keys@;
                proof {
                    if p < keys.len() {
                        lemma_text_less_total(keys@[p as int]@, t@);
                    }
                }
                keys.insert(p, t);
                proof {
                    assert forall|j: int, k: int|
                        0 <= j < k < keys.len() implies text_less(#[trigger] keys@[j]@, #[trigger] keys@[k]@) by {
                        if k == p {
                        } else if j == p {
                            if k > p + 1 {
                                lemma_text_less_transitive(t@, old_keys[p as int]@, old_keys[k - 1]@);
                            }
                        } else if j > p {
                            assert(keys@[j] == old_keys[j - 1]);
                        } else if k > p {
                            assert(keys@[k] == old_keys[k - 1]);
                        }
                    }
                    let old_pos = pos;
                    pos = pos.map_values(|x: int| if x >= p { x + 1 } else { x }).push(p as int);
                    assert forall|l: int| 0 <= l < i + 1 implies 0 <= #[trigger] pos[l] < keys.len()
                        && keys@[pos[l]]@ == self@[l].text by {
                        if l < i {
                            assert(pos[l] == if old_pos[l] >= p { old_pos[l] + 1 } else { old_pos[l] });
                        }
                    }
                    src = src.insert(p as int, i as int);
                }
            }
            i += 1;
        }
        let mut r: Vec<String> = Vec::new();
        let mut j: usize = 0;
        while j < keys.len()
            invariant
                j <= keys.len(),
                r.len() == j,
                forall|k: int| 0 <= k < j ==> #[trigger] r@[k]@ == keys@[k]@,
            decreases keys.len() - j,
        {
            r.push(string_of_chars(keys[j].as_slice()));
            j += 1;
        }
        proof {
            let v = string_views(r@);
            assert forall|t: Seq<char>| v.contains(t) <==> has_text(self@, t) by {
                if v.contains(t) {
                    let k = choose|k: int| 0 <= k < v.len() && v[k] == t;
                    assert(self@[src[k]].text == t);
                }
                if has_text(self@, t) {
                    let l = choose|l: int| 0 <= l < self@.len() && self@[l].text == t;
                    assert(v[pos[l]] == t);
                }
            }
        }
        r
    }
}

impl std::ops::Deref for LabFile {
    type Target = Vec<Label>;

    fn deref(&self) -> (r: &Vec<Label>)
        ensures
            *r == self.labels,
    {
        &self.labels
    }
}

impl std::str::FromStr for LabFile {
    type Err = ParseError;

    fn from_str(s: &str) -> (r: Result<LabFile, ParseError>)
        ensures
            file_result_view(r) == parse_file_spec(s@),
    {
        LabFile::parse_str(s)
    }
}

} // verus!
