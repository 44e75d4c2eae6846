//! The field grammar: given one buffer holding a (possibly partial) logical
//! record, produce the ordered decoded fields, signal that more input is
//! needed, or classify the buffer as malformed.
//!
//! A record is `field (separator field)*`. An unquoted field is a run of
//! characters up to the separator, the quote character or a control
//! character, kept as written. A quoted field may be preceded by
//! whitespace, which is stripped; inside it a doubled quote decodes to one
//! literal quote, and after the closing quote only whitespace and then the
//! separator or the end of the record may follow. A quoted field with no
//! closing quote is incomplete: it may continue on a later physical line.

use vstd::prelude::*;

verus! {

use crate::text::{chars_of, is_ctl, is_space, spec_is_ctl, spec_is_space, string_of};

/// Outcome of parsing one field out of a buffer, at the specification
/// level: the decoded field and the unconsumed rest, or a signal.
pub enum SpecField {
    Complete { field: Seq<char>, rest: Seq<char> },
    Incomplete,
    Malformed,
}

/// Outcome of parsing one record out of a buffer, at the specification
/// level: the decoded fields in order and the unconsumed rest, or a signal.
pub enum SpecRecord {
    Complete { fields: Seq<Seq<char>>, rest: Seq<char> },
    Incomplete,
    Malformed,
}

/// Number of leading whitespace characters of `s`.
pub open spec fn ws_count(s: Seq<char>) -> int
    decreases s.len(),
{
    if s.len() > 0 && spec_is_space(s[0]) {
        1 + ws_count(s.drop_first())
    } else {
        0
    }
}

/// `s` with its leading whitespace stripped.
pub open spec fn trim_start(s: Seq<char>) -> Seq<char> {
    s.skip(ws_count(s))
}

pub proof fn lemma_ws_count_bounds(s: Seq<char>)
    ensures
        0 <= ws_count(s) <= s.len(),
        forall|i: int| 0 <= i < ws_count(s) ==> spec_is_space(s[i]),
        ws_count(s) < s.len() ==> !spec_is_space(s[ws_count(s)]),
    decreases s.len(),
{
    if s.len() > 0 && spec_is_space(s[0]) {
        lemma_ws_count_bounds(s.drop_first());
        assert forall|i: int| 0 <= i < ws_count(s) implies spec_is_space(s[i]) by {
            if i > 0 {
                assert(spec_is_space(s.drop_first()[i - 1]));
            }
        }
    }
}

/// Whether `c` ends an unquoted field: the separator, the quote character
/// or any control character.
pub open spec fn is_stop(c: char, comma: char, dquote: char) -> bool {
    spec_is_ctl(c) || c == comma || c == dquote
}

/// Length of the unquoted-field prefix of `s`.
pub open spec fn text_len(s: Seq<char>, comma: char, dquote: char) -> int
    decreases s.len(),
{
    if s.len() > 0 && !is_stop(s[0], comma, dquote) {
        1 + text_len(s.drop_first(), comma, dquote)
    } else {
        0
    }
}

pub proof fn lemma_text_len_bounds(s: Seq<char>, comma: char, dquote: char)
    ensures
        0 <= text_len(s, comma, dquote) <= s.len(),
        forall|i: int| 0 <= i < text_len(s, comma, dquote) ==> !is_stop(s[i], comma, dquote),
        text_len(s, comma, dquote) < s.len() ==> is_stop(
            s[text_len(s, comma, dquote)],
            comma,
            dquote,
        ),
    decreases s.len(),
{
    if s.len() > 0 && !is_stop(s[0], comma, dquote) {
        lemma_text_len_bounds(s.drop_first(), comma, dquote);
        assert forall|i: int| 0 <= i < text_len(s, comma, dquote) implies !is_stop(
            s[i],
            comma,
            dquote,
        ) by {
            if i > 0 {
                assert(!is_stop(s.drop_first()[i - 1], comma, dquote));
            }
        }
    }
}

/// Index of the closing quote in the body of a quoted field, skipping
/// doubled quotes, or `None` if the buffer ends first.
pub open spec fn close_idx(body: Seq<char>, dquote: char) -> Option<int>
    decreases body.len(),
{
    if body.len() == 0 {
        None
    } else if body[0] == dquote {
        if body.len() >= 2 && body[1] == dquote {
            match close_idx(body.skip(2), dquote) {
                Some(i) => Some(i + 2),
                None => None,
            }
        } else {
            Some(0)
        }
    } else {
        match close_idx(body.skip(1), dquote) {
            Some(i) => Some(i + 1),
            None => None,
        }
    }
}

pub proof fn lemma_close_idx_bounds(body: Seq<char>, dquote: char)
    ensures
        close_idx(body, dquote) matches Some(i) ==> 0 <= i < body.len() && body[i] == dquote,
    decreases body.len(),
{
    if body.len() == 0 {
    } else if body[0] == dquote {
        if body.len() >= 2 && body[1] == dquote {
            lemma_close_idx_bounds(body.skip(2), dquote);
        }
    } else {
        lemma_close_idx_bounds(body.skip(1), dquote);
    }
}

/// Quote-doubling decoded: each doubled quote becomes one literal quote.
pub open spec fn undouble(s: Seq<char>, dquote: char) -> Seq<char>
    decreases s.len(),
{
    if s.len() == 0 {
        Seq::empty()
    } else if s.len() >= 2 && s[0] == dquote && s[1] == dquote {
        seq![dquote] + undouble(s.skip(2), dquote)
    } else {
        seq![s[0]] + undouble(s.skip(1), dquote)
    }
}

/// May the text after a quoted field's closing quote, already stripped of
/// whitespace, stand there? Only the end of the record, the separator, or a
/// control character (the line terminator still in the buffer) may follow.
pub open spec fn tail_ok(rem: Seq<char>, comma: char) -> bool {
    rem.len() == 0 || rem[0] == comma || spec_is_ctl(rem[0])
}

/// Parse one field from the front of `s`.
pub open spec fn spec_field(s: Seq<char>, comma: char, dquote: char) -> SpecField {
    let t = trim_start(s);
    if t.len() > 0 && t[0] == dquote {
        let body = t.drop_first();
        match close_idx(body, dquote) {
            None => SpecField::Incomplete,
            Some(i) => {
                let rem = trim_start(body.skip(i + 1));
                if tail_ok(rem, comma) {
                    SpecField::Complete { field: undouble(body.take(i), dquote), rest: rem }
                } else {
                    SpecField::Malformed
                }
            },
        }
    } else {
        let n = text_len(s, comma, dquote);
        SpecField::Complete { field: s.take(n), rest: s.skip(n) }
    }
}

/// A completed field consumes nothing beyond the input.
pub proof fn lemma_spec_field_shrinks(s: Seq<char>, comma: char, dquote: char)
    ensures
        spec_field(s, comma, dquote) matches SpecField::Complete { rest, .. } ==> rest.len()
            <= s.len(),
{
    lemma_ws_count_bounds(s);
    let t = trim_start(s);
    if t.len() > 0 && t[0] == dquote {
        let body = t.drop_first();
        lemma_close_idx_bounds(body, dquote);
        match close_idx(body, dquote) {
            Some(i) => {
                lemma_ws_count_bounds(body.skip(i + 1));
            },
            None => {},
        }
    } else {
        lemma_text_len_bounds(s, comma, dquote);
    }
}

/// Parse the remaining `separator field` groups of a record. The fields
/// found are returned in order, with the rest of the buffer.
pub open spec fn spec_record_more(rest: Seq<char>, comma: char, dquote: char) -> SpecRecord
    decreases rest.len(),
    via spec_record_more_decreases
{
    if rest.len() > 0 && rest[0] == comma {
        match spec_field(rest.drop_first(), comma, dquote) {
            SpecField::Incomplete => SpecRecord::Incomplete,
            SpecField::Malformed => SpecRecord::Malformed,
            SpecField::Complete { field, rest: rest2 } => match spec_record_more(
                rest2,
                comma,
                dquote,
            ) {
                SpecRecord::Complete { fields, rest: rest3 } => (SpecRecord::Complete {
                    fields: seq![field] + fields,
                    rest: rest3,
                }),
                other => other,
            },
        }
    } else {
        SpecRecord::Complete { fields: Seq::empty(), rest }
    }
}

#[via_fn]
proof fn spec_record_more_decreases(rest: Seq<char>, comma: char, dquote: char) {
    if rest.len() > 0 && rest[0] == comma {
        lemma_spec_field_shrinks(rest.drop_first(), comma, dquote);
    }
}

/// Parse one whole record: a first field, then any number of
/// `separator field` groups.
pub open spec fn spec_record(s: Seq<char>, comma: char, dquote: char) -> SpecRecord {
    match spec_field(s, comma, dquote) {
        SpecField::Incomplete => SpecRecord::Incomplete,
        SpecField::Malformed => SpecRecord::Malformed,
        SpecField::Complete { field, rest } => match spec_record_more(rest, comma, dquote) {
            SpecRecord::Complete { fields, rest: rest2 } => (SpecRecord::Complete {
                fields: seq![field] + fields,
                rest: rest2,
            }),
            other => other,
        },
    }
}

pub(crate) proof fn lemma_skip_skip<T>(s: Seq<T>, a: int, b: int)
    requires
        0 <= a,
        0 <= b,
        a + b <= s.len(),
    ensures
        s.skip(a).skip(b) =~= s.skip(a + b),
{
}

pub(crate) proof fn lemma_skip_drop_first<T>(s: Seq<T>, a: int)
    requires
        0 <= a < s.len(),
    ensures
        s.skip(a).drop_first() =~= s.skip(a + 1),
{
}

/// Position right after the leading whitespace starting at `pos`.
fn scan_ws(s: &[char], pos: usize) -> (r: usize)
    requires
        pos <= s@.len(),
    ensures
        pos <= r <= s@.len(),
        r - pos == ws_count(s@.skip(pos as int)),
{
    let n = s.len();
    let mut i = pos;
    loop
        invariant
            pos <= i <= n,
            n == s@.len(),
            ws_count(s@.skip(pos as int)) == (i - pos) + ws_count(s@.skip(i as int)),
        ensures
            pos <= i <= n,
            ws_count(s@.skip(pos as int)) == i - pos,
        decreases n - i,
    {
        if i == n || !is_space(s[i]) {
            proof {
                lemma_ws_count_bounds(s@.skip(i as int));
                assert(ws_count(s@.skip(i as int)) == 0);
            }
            break ;
        }
        proof {
            lemma_skip_drop_first(s@, i as int);
            assert(s@.skip(i as int)[0] == s@[i as int]);
            assert(ws_count(s@.skip(i as int)) == 1 + ws_count(s@.skip(i + 1)));
        }
        i = i + 1;
    }
    i
}

/// Position right after the unquoted-field run starting at `pos`.
fn scan_text(s: &[char], pos: usize, comma: char, dquote: char) -> (r: usize)
    requires
        pos <= s@.len(),
    ensures
        pos <= r <= s@.len(),
        r - pos == text_len(s@.skip(pos as int), comma, dquote),
{
    let n = s.len();
    let mut i = pos;
    loop
        invariant
            pos <= i <= n,
            n == s@.len(),
            text_len(s@.skip(pos as int), comma, dquote) == (i - pos) + text_len(
                s@.skip(i as int),
                comma,
                dquote,
            ),
        ensures
            pos <= i <= n,
            text_len(s@.skip(pos as int), comma, dquote) == i - pos,
        decreases n - i,
    {
        if i == n || is_ctl(s[i]) || s[i] == comma || s[i] == dquote {
            proof {
                lemma_text_len_bounds(s@.skip(i as int), comma, dquote);
                assert(s@.skip(i as int).len() > 0 ==> s@.skip(i as int)[0] == s@[i as int]);
                assert(text_len(s@.skip(i as int), comma, dquote) == 0);
            }
            break ;
        }
        proof {
            lemma_skip_drop_first(s@, i as int);
            assert(s@.skip(i as int)[0] == s@[i as int]);
            assert(text_len(s@.skip(i as int), comma, dquote) == 1 + text_len(
                s@.skip(i + 1),
                comma,
                dquote,
            ));
        }
        i = i + 1;
    }
    i
}

/// Position of the closing quote of a quoted field whose body starts at
/// `pos`, skipping doubled quotes; `None` if the buffer ends first.
fn scan_close(s: &[char], pos: usize, dquote: char) -> (r: Option<usize>)
    requires
        pos <= s@.len(),
    ensures
        match r {
            Some(j) => pos <= j < s@.len() && close_idx(s@.skip(pos as int), dquote) == Some(
                j - pos as int,
            ),
            None => close_idx(s@.skip(pos as int), dquote) is None,
        },
{
    let n = s.len();
    let mut j = pos;
    loop
        invariant
            pos <= j <= n,
            n == s@.len(),
            match close_idx(s@.skip(j as int), dquote) {
                Some(i) => close_idx(s@.skip(pos as int), dquote) == Some(i + j - pos as int),
                None => close_idx(s@.skip(pos as int), dquote) is None,
            },
        decreases n - j,
    {
        if j == n {
            return None;
        }
        proof {
            assert(s@.skip(j as int)[0] == s@[j as int]);
        }
        if s[j] == dquote {
            if j + 1 < n && s[j + 1] == dquote {
                proof {
                    lemma_skip_skip(s@, j as int, 2);
                    assert(s@.skip(j as int)[1] == s@[j + 1]);
                }
                j = j + 2;
            } else {
                proof {
                    assert(s@.skip(j as int).len() >= 2 ==> s@.skip(j as int)[1] == s@[j + 1]);
                    assert(close_idx(s@.skip(j as int), dquote) == Some(0int));
                }
                return Some(j);
            }
        } else {
            proof {
                lemma_skip_skip(s@, j as int, 1);
                lemma_skip_drop_first(s@, j as int);
            }
            j = j + 1;
        }
    }
}

/// Copy of `s[from..to]`.
fn copy_range(s: &[char], from: usize, to: usize) -> (r: Vec<char>)
    requires
        from <= to <= s@.len(),
    ensures
        r@ == s@.subrange(from as int, to as int),
{
    let mut out: Vec<char> = Vec::new();
    let mut k = from;
    while k < to
        invariant
            from <= k <= to <= s@.len(),
            out@ =~= s@.subrange(from as int, k as int),
        decreases to - k,
    {
        out.push(s[k]);
        assert(out@ =~= s@.subrange(from as int, k + 1));
        k = k + 1;
    }
    assert(out@ =~= s@.subrange(from as int, to as int));
    out
}

/// Decode the quote-doubled span `s[from..to]`.
fn unescape(s: &[char], from: usize, to: usize, dquote: char) -> (r: Vec<char>)
    requires
        from <= to <= s@.len(),
    ensures
        r@ == undouble(s@.subrange(from as int, to as int), dquote),
{
    let mut out: Vec<char> = Vec::new();
    let mut k = from;
    loop
        invariant
            from <= k <= to <= s@.len(),
            undouble(s@.subrange(from as int, to as int), dquote) == out@ + undouble(
                s@.subrange(k as int, to as int),
                dquote,
            ),
        ensures
            out@ == undouble(s@.subrange(from as int, to as int), dquote),
        decreases to - k,
    {
        let ghost pre = s@.subrange(k as int, to as int);
        let ghost out0 = out@;
        if k == to {
            proof {
                assert(undouble(pre, dquote) =~= Seq::<char>::empty());
                assert(out@ + undouble(pre, dquote) =~= out@);
            }
            break ;
        }
        proof {
            assert(pre[0] == s@[k as int]);
            assert(pre.len() >= 2 ==> pre[1] == s@[k + 1]);
        }
        if s[k] == dquote && k + 1 < to && s[k + 1] == dquote {
            out.push(s[k]);
            k = k + 2;
            proof {
                assert(pre.skip(2) =~= s@.subrange(k as int, to as int));
                assert(undouble(pre, dquote) == seq![dquote] + undouble(pre.skip(2), dquote));
                assert(out0 + (seq![dquote] + undouble(pre.skip(2), dquote)) =~= out@ + undouble(
                    pre.skip(2),
                    dquote,
                ));
            }
        } else {
            out.push(s[k]);
            k = k + 1;
            proof {
                assert(pre.skip(1) =~= s@.subrange(k as int, to as int));
                assert(undouble(pre, dquote) == seq![pre[0]] + undouble(pre.skip(1), dquote));
                assert(out0 + (seq![pre[0]] + undouble(pre.skip(1), dquote)) =~= out@ + undouble(
                    pre.skip(1),
                    dquote,
                ));
            }
        }
    }
    out
}

/// Outcome of parsing one field: the decoded field and the position where
/// the rest of the buffer begins, or a signal.
enum FieldResult {
    Complete { field: String, next: usize },
    Incomplete,
    Malformed,
}

/// Parse one field from `s` starting at `pos`.
fn parse_field(s: &[char], pos: usize, comma: char, dquote: char) -> (r: FieldResult)
    requires
        pos <= s@.len(),
    ensures
        ({
            let sp = spec_field(s@.skip(pos as int), comma, dquote);
            match r {
                FieldResult::Complete { field, next } => sp matches SpecField::Complete {
                    field: f,
                    rest,
                } && field@ == f && pos <= next <= s@.len() && s@.skip(next as int) == rest,
                FieldResult::Incomplete => sp is Incomplete,
                FieldResult::Malformed => sp is Malformed,
            }
        }),
{
    let ghost input = s@.skip(pos as int);
    let t0 = scan_ws(s, pos);
    proof {
        lemma_ws_count_bounds(input);
        lemma_skip_skip(s@, pos as int, t0 - pos as int);
        assert(trim_start(input) =~= s@.skip(t0 as int));
    }
    let ghost t = trim_start(input);
    if t0 < s.len() && s[t0] == dquote {
        proof {
            assert(t[0] == s@[t0 as int]);
            lemma_skip_drop_first(s@, t0 as int);
            assert(t.drop_first() =~= s@.skip(t0 + 1));
        }
        let ghost body = t.drop_first();
        match scan_close(s, t0 + 1, dquote) {
            None => FieldResult::Incomplete,
            Some(j) => {
                let ghost i = j - (t0 + 1);
                proof {
                    lemma_close_idx_bounds(body, dquote);
                    lemma_skip_skip(s@, t0 + 1, i + 1);
                    assert(body.skip(i + 1) =~= s@.skip(j + 1));
                }
                let rem0 = scan_ws(s, j + 1);
                proof {
                    lemma_ws_count_bounds(s@.skip(j + 1));
                    lemma_skip_skip(s@, j + 1, rem0 - (j + 1));
                    assert(trim_start(body.skip(i + 1)) =~= s@.skip(rem0 as int));
                }
                let ghost rem = trim_start(body.skip(i + 1));
                if rem0 == s.len() || s[rem0] == comma || is_ctl(s[rem0]) {
                    proof {
                        assert(rem.len() == 0 ==> tail_ok(rem, comma));
                        assert(rem.len() > 0 ==> rem[0] == s@[rem0 as int]);
                    }
                    let content = unescape(s, t0 + 1, j, dquote);
                    proof {
                        assert(body.take(i) =~= s@.subrange(t0 + 1, j as int));
                    }
                    let field = string_of(content.as_slice());
                    FieldResult::Complete { field, next: rem0 }
                } else {
                    proof {
                        assert(rem[0] == s@[rem0 as int]);
                        assert(!tail_ok(rem, comma));
                    }
                    FieldResult::Malformed
                }
            },
        }
    } else {
        proof {
            assert(t.len() > 0 ==> t[0] == s@[t0 as int]);
        }
        let e = scan_text(s, pos, comma, dquote);
        let ghost n = text_len(input, comma, dquote);
        let content = copy_range(s, pos, e);
        proof {
            lemma_text_len_bounds(input, comma, dquote);
            assert(input.take(n) =~= s@.subrange(pos as int, e as int));
            lemma_skip_skip(s@, pos as int, n);
            assert(input.skip(n) =~= s@.skip(e as int));
        }
        let field = string_of(content.as_slice());
        FieldResult::Complete { field, next: e }
    }
}

/// Outcome of parsing one record out of a buffer: the decoded fields in
/// order, or a signal that more input is needed or that the buffer is
/// malformed.
#[derive(Debug, PartialEq)]
pub enum RecordResult {
    Complete(Vec<String>),
    Incomplete,
    Malformed,
}

/// Parse one whole record from the characters of `s`.
pub(crate) fn parse_record_chars(s: &[char], comma: char, dquote: char) -> (r: RecordResult)
    ensures
        ({
            let sr = spec_record(s@, comma, dquote);
            match r {
                RecordResult::Complete(fields) => sr matches SpecRecord::Complete {
                    fields: fs,
                    ..
                } && fields.deep_view() == fs,
                RecordResult::Incomplete => sr is Incomplete,
                RecordResult::Malformed => sr is Malformed,
            }
        }),
{
    proof {
        assert(s@.skip(0) =~= s@);
    }
    match parse_field(s, 0, comma, dquote) {
        FieldResult::Incomplete => RecordResult::Incomplete,
        FieldResult::Malformed => RecordResult::Malformed,
        FieldResult::Complete { field, next } => {
            let ghost first = field@;
            let mut fields: Vec<String> = Vec::new();
            fields.push(field);
            proof {
                assert(fields.deep_view() =~= seq![first]);
            }
            let mut p = next;
            loop
                invariant
                    p <= s@.len(),
                    s@.len() == s.len(),
                    match spec_record_more(s@.skip(p as int), comma, dquote) {
                        SpecRecord::Complete { fields: fs, rest } => spec_record(
                            s@,
                            comma,
                            dquote,
                        ) == (SpecRecord::Complete { fields: fields.deep_view() + fs, rest }),
                        SpecRecord::Incomplete => spec_record(s@, comma, dquote)
                            is Incomplete,
                        SpecRecord::Malformed => spec_record(s@, comma, dquote) is Malformed,
                    },
                decreases s@.len() - p,
            {
                let ghost rest = s@.skip(p as int);
                if p < s.len() && s[p] == comma {
                    proof {
                        assert(rest[0] == s@[p as int]);
                        lemma_skip_drop_first(s@, p as int);
                        assert(rest.drop_first() =~= s@.skip(p + 1));
                    }
                    match parse_field(s, p + 1, comma, dquote) {
                        FieldResult::Incomplete => {
                            return RecordResult::Incomplete;
                        },
                        FieldResult::Malformed => {
                            return RecordResult::Malformed;
                        },
                        FieldResult::Complete { field, next: next2 } => {
                            let ghost fv = field@;
                            let ghost old_fields = fields.deep_view();
                            fields.push(field);
                            proof {
                                assert(fields.deep_view() =~= old_fields + seq![fv]);
                                match spec_record_more(s@.skip(next2 as int), comma, dquote) {
                                    SpecRecord::Complete { fields: fs, rest: r3 } => {
                                        assert((old_fields + seq![fv]) + fs =~= old_fields + (
                                        seq![fv] + fs));
                                    },
                                    _ => {},
                                }
                            }
                            p = next2;
                        },
                    }
                } else {
                    proof {
                        assert(rest.len() > 0 ==> rest[0] == s@[p as int]);
                        assert(spec_record_more(rest, comma, dquote) == (SpecRecord::Complete {
                            fields: Seq::<Seq<char>>::empty(),
                            rest,
                        }));
                        assert(fields.deep_view() + Seq::<Seq<char>>::empty() =~= fields.deep_view());
                    }
                    return RecordResult::Complete(fields);
                }
            }
        },
    }
}

/// Parse one record from the front of `src` with the given separator and
/// quote characters.
pub fn record(src: &str, comma: char, dquote: char) -> (r: RecordResult)
    ensures
        ({
            let sr = spec_record(src@, comma, dquote);
            match r {
                RecordResult::Complete(fields) => sr matches SpecRecord::Complete {
                    fields: fs,
                    ..
                } && fields.deep_view() == fs,
                RecordResult::Incomplete => sr is Incomplete,
                RecordResult::Malformed => sr is Malformed,
            }
        }),
{
    let chars = chars_of(src);
    parse_record_chars(chars.as_slice(), comma, dquote)
}

} // verus!
