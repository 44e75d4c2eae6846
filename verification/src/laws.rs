//! The guarantees that tie the writer to the reader: decoding undoes
//! quote-doubling, and parsing a serialized record gives the record back.

use vstd::prelude::*;

verus! {

use crate::parse::{
    close_idx, is_stop, lemma_ws_count_bounds, spec_field, spec_record, spec_record_more,
    tail_ok, text_len, trim_start, undouble, ws_count, SpecField, SpecRecord,
};
use crate::reader::{line_len, spec_pull};
use crate::text::{spec_is_ctl, spec_is_space};
use crate::error::Error;
use crate::writer::{double_quotes, escape_field, needs_escape, render_fields, render_row};

/// Decoding undoes the writer's escaping: undoubling the quotes that
/// `double_quotes` doubled gives the field back, for every field and every
/// quote character.
pub proof fn lemma_unescape_escape(f: Seq<char>, dquote: char)
    ensures
        undouble(double_quotes(f, dquote), dquote) == f,
    decreases f.len(),
{
    let d = double_quotes(f, dquote);
    if f.len() == 0 {
        assert(undouble(d, dquote) =~= f);
    } else {
        let f1 = f.drop_first();
        lemma_unescape_escape(f1, dquote);
        let d1 = double_quotes(f1, dquote);
        if f[0] == dquote {
            assert(d == seq![dquote, dquote] + d1);
            assert(d[0] == dquote && d[1] == dquote && d.len() >= 2);
            assert(d.skip(2) =~= d1);
            assert(undouble(d, dquote) == seq![dquote] + undouble(d1, dquote));
            assert(seq![dquote] + f1 =~= f);
        } else {
            assert(d == seq![f[0]] + d1);
            assert(d[0] == f[0]);
            assert(d.skip(1) =~= d1);
            assert(undouble(d, dquote) == seq![f[0]] + undouble(d1, dquote));
            assert(seq![f[0]] + f1 =~= f);
        }
    }
}

/// In `double_quotes(f) + [dquote] + tail` with `tail` not starting with a
/// quote, the closing quote is the one right after the doubled span.
proof fn lemma_close_of_double(f: Seq<char>, tail: Seq<char>, dquote: char)
    requires
        tail.len() == 0 || tail[0] != dquote,
    ensures
        close_idx(double_quotes(f, dquote) + seq![dquote] + tail, dquote) == Some(
            double_quotes(f, dquote).len() as int,
        ),
        (double_quotes(f, dquote) + seq![dquote] + tail).take(double_quotes(f, dquote).len() as int)
            =~= double_quotes(f, dquote),
        (double_quotes(f, dquote) + seq![dquote] + tail).skip(
            double_quotes(f, dquote).len() + 1int,
        ) =~= tail,
    decreases f.len(),
{
    let d = double_quotes(f, dquote);
    let body = d + seq![dquote] + tail;
    if f.len() == 0 {
        assert(d =~= Seq::<char>::empty());
        assert(body[0] == dquote);
        assert(body.len() >= 2 ==> body[1] == tail[0]);
        assert(close_idx(body, dquote) == Some(0int));
    } else {
        let f1 = f.drop_first();
        lemma_close_of_double(f1, tail, dquote);
        let d1 = double_quotes(f1, dquote);
        let body1 = d1 + seq![dquote] + tail;
        if f[0] == dquote {
            assert(d == seq![dquote, dquote] + d1);
            assert(body[0] == dquote && body[1] == dquote && body.len() >= 2);
            assert(body.skip(2) =~= body1);
            assert(close_idx(body, dquote) == Some(d1.len() + 2int));
        } else {
            assert(body[0] == f[0] && f[0] != dquote);
            assert(body.skip(1) =~= body1);
            assert(close_idx(body, dquote) == Some(d1.len() + 1int));
        }
    }
}

/// An unquoted run followed by nothing or by a stop character is measured
/// exactly.
proof fn lemma_text_len_concat(f: Seq<char>, tail: Seq<char>, comma: char, dquote: char)
    requires
        forall|i: int| 0 <= i < f.len() ==> !is_stop(f[i], comma, dquote),
        tail.len() == 0 || is_stop(tail[0], comma, dquote),
    ensures
        text_len(f + tail, comma, dquote) == f.len(),
    decreases f.len(),
{
    let s = f + tail;
    if f.len() == 0 {
        assert(s =~= tail);
    } else {
        let f1 = f.drop_first();
        lemma_text_len_concat(f1, tail, comma, dquote);
        assert(s[0] == f[0]);
        assert(s.drop_first() =~= f1 + tail);
    }
}

/// A sequence starting with a non-space character has no leading
/// whitespace to strip.
proof fn lemma_trim_noop(s: Seq<char>)
    requires
        s.len() == 0 || !spec_is_space(s[0]),
    ensures
        trim_start(s) =~= s,
{
    assert(ws_count(s) == 0);
}

/// One escaped field followed by nothing or by a separator parses back to
/// the field, consuming exactly the escaped span.
proof fn lemma_field_round_trip(f: Seq<char>, tail: Seq<char>, comma: char, dquote: char)
    requires
        comma != dquote,
        !spec_is_space(comma),
        !spec_is_space(dquote),
        tail.len() == 0 || tail[0] == comma,
    ensures
        spec_field(escape_field(f, seq![comma], dquote) + tail, comma, dquote) == (
        SpecField::Complete { field: f, rest: tail }),
{
    let sep = seq![comma];
    let esc = escape_field(f, sep, dquote);
    let s = esc + tail;
    if needs_escape(f, sep, dquote) {
        let d = double_quotes(f, dquote);
        assert(esc == seq![dquote] + d + seq![dquote]);
        assert(s[0] == dquote);
        lemma_trim_noop(s);
        let t = trim_start(s);
        assert(t == s && t[0] == dquote && t.len() > 0);
        let body = t.drop_first();
        assert(body =~= d + seq![dquote] + tail);
        lemma_close_of_double(f, tail, dquote);
        assert(close_idx(body, dquote) == Some(d.len() as int));
        assert(body.take(d.len() as int) =~= d);
        lemma_unescape_escape(f, dquote);
        assert(undouble(body.take(d.len() as int), dquote) == f);
        assert(body.skip(d.len() + 1int) =~= tail);
        lemma_trim_noop(tail);
        let rem = trim_start(body.skip(d.len() + 1int));
        assert(rem == tail);
        assert(tail_ok(rem, comma));
    } else {
        // Unquoted: the field has no separator, quote or control
        // character, so the run ends exactly at the tail.
        assert(forall|i: int|
            0 <= i < f.len() ==> !(spec_is_ctl(f[i]) || sep.contains(f[i]) || f[i] == dquote));
        assert forall|i: int| 0 <= i < f.len() implies f[i] != comma by {
            if f[i] == comma {
                assert(sep[0] == f[i]);
                assert(sep.contains(f[i]));
            }
        }
        assert(forall|i: int| 0 <= i < f.len() ==> !is_stop(f[i], comma, dquote));
        assert(esc == f);
        // The trimmed buffer does not start with a quote, so the unquoted
        // branch is taken.
        lemma_ws_count_bounds(s);
        let w = ws_count(s);
        let t = trim_start(s);
        if t.len() > 0 {
            assert(t[0] == s[w]);
            if w < f.len() {
                assert(s[w] == f[w]);
                assert(s[w] != dquote);
            } else {
                // Everything before `w` is whitespace, and the separator
                // that starts the tail is not, so `w` stops at the tail.
                assert(tail.len() > 0);
                if w > f.len() {
                    assert(spec_is_space(s[f.len() as int]));
                    assert(s[f.len() as int] == tail[0]);
                    assert(false);
                }
                assert(s[w] == tail[0]);
                assert(s[w] != dquote);
            }
            assert(t[0] != dquote);
        }
        lemma_text_len_concat(f, tail, comma, dquote);
        assert(text_len(s, comma, dquote) == f.len());
        assert(s.take(f.len() as int) =~= f);
        assert(s.skip(f.len() as int) =~= tail);
    }
}

/// The `separator field` groups after the first field parse back to the
/// fields they render, consuming the whole buffer.
proof fn lemma_record_more_round_trip(fields: Seq<Seq<char>>, comma: char, dquote: char)
    requires
        comma != dquote,
        !spec_is_space(comma),
        !spec_is_space(dquote),
    ensures
        spec_record_more(render_fields(fields, seq![comma], dquote), comma, dquote) == (
        SpecRecord::Complete { fields, rest: Seq::<char>::empty() }),
    decreases fields.len(),
{
    let sep = seq![comma];
    let r = render_fields(fields, sep, dquote);
    if fields.len() == 0 {
        assert(r =~= Seq::<char>::empty());
        assert(spec_record_more(r, comma, dquote) == (SpecRecord::Complete {
            fields: Seq::<Seq<char>>::empty(),
            rest: Seq::<char>::empty(),
        }));
        assert(Seq::<Seq<char>>::empty() =~= fields);
    } else {
        let f0 = fields[0];
        let rest_fields = fields.drop_first();
        let rest_render = render_fields(rest_fields, sep, dquote);
        assert(r == sep + escape_field(f0, sep, dquote) + rest_render);
        assert(r[0] == comma && r.len() > 0);
        assert(r.drop_first() =~= escape_field(f0, sep, dquote) + rest_render);
        assert(rest_render.len() == 0 || rest_render[0] == comma) by {
            if rest_fields.len() > 0 {
                assert(rest_render == sep + escape_field(rest_fields[0], sep, dquote)
                    + render_fields(rest_fields.drop_first(), sep, dquote));
                assert(rest_render[0] == comma);
            } else {
                assert(rest_render =~= Seq::<char>::empty());
            }
        }
        lemma_field_round_trip(f0, rest_render, comma, dquote);
        lemma_record_more_round_trip(rest_fields, comma, dquote);
        assert(seq![f0] + rest_fields =~= fields);
    }
}

/// The round-trip guarantee: parsing a serialized record gives exactly the
/// record back, with nothing left over, for every record with at least one
/// field and every separator and quote pair where the two differ and
/// neither is whitespace — the default comma and double quote included.
pub proof fn lemma_round_trip(fields: Seq<Seq<char>>, comma: char, dquote: char)
    requires
        fields.len() >= 1,
        comma != dquote,
        !spec_is_space(comma),
        !spec_is_space(dquote),
    ensures
        spec_record(render_row(fields, seq![comma], dquote), comma, dquote) == (
        SpecRecord::Complete { fields, rest: Seq::<char>::empty() }),
{
    let sep = seq![comma];
    let f0 = fields[0];
    let rest_fields = fields.drop_first();
    let rest_render = render_fields(rest_fields, sep, dquote);
    let s = render_row(fields, sep, dquote);
    assert(s == escape_field(f0, sep, dquote) + rest_render);
    assert(rest_render.len() == 0 || rest_render[0] == comma) by {
        if rest_fields.len() > 0 {
            assert(rest_render == sep + escape_field(rest_fields[0], sep, dquote) + render_fields(
                rest_fields.drop_first(),
                sep,
                dquote,
            ));
            assert(rest_render[0] == comma);
        } else {
            assert(rest_render =~= Seq::<char>::empty());
        }
    }
    lemma_field_round_trip(f0, rest_render, comma, dquote);
    lemma_record_more_round_trip(rest_fields, comma, dquote);
    assert(seq![f0] + rest_fields =~= fields);
}

/// No character of `s` is `c`.
spec fn lacks(s: Seq<char>, c: char) -> bool {
    forall|i: int| 0 <= i < s.len() ==> s[i] != c
}

proof fn lemma_lacks_concat(a: Seq<char>, b: Seq<char>, c: char)
    requires
        lacks(a, c),
        lacks(b, c),
    ensures
        lacks(a + b, c),
{
    assert forall|i: int| 0 <= i < (a + b).len() implies (a + b)[i] != c by {
        if i < a.len() {
            assert((a + b)[i] == a[i]);
        } else {
            assert((a + b)[i] == b[i - a.len()]);
        }
    }
}

proof fn lemma_lacks_drop_first(s: Seq<char>, c: char)
    requires
        lacks(s, c),
        s.len() > 0,
    ensures
        lacks(s.drop_first(), c),
{
    assert forall|i: int| 0 <= i < s.drop_first().len() implies s.drop_first()[i] != c by {
        assert(s.drop_first()[i] == s[i + 1]);
    }
}

proof fn lemma_double_lacks(f: Seq<char>, dquote: char, c: char)
    requires
        lacks(f, c),
        c != dquote,
    ensures
        lacks(double_quotes(f, dquote), c),
    decreases f.len(),
{
    if f.len() > 0 {
        lemma_lacks_drop_first(f, c);
        lemma_double_lacks(f.drop_first(), dquote, c);
        if f[0] == dquote {
            lemma_lacks_concat(seq![dquote, dquote], double_quotes(f.drop_first(), dquote), c);
        } else {
            lemma_lacks_concat(seq![f[0]], double_quotes(f.drop_first(), dquote), c);
        }
    }
}

proof fn lemma_escape_lacks(f: Seq<char>, sep: Seq<char>, dquote: char, c: char)
    requires
        lacks(f, c),
        c != dquote,
    ensures
        lacks(escape_field(f, sep, dquote), c),
{
    if needs_escape(f, sep, dquote) {
        lemma_double_lacks(f, dquote, c);
        lemma_lacks_concat(seq![dquote], double_quotes(f, dquote), c);
        lemma_lacks_concat(seq![dquote] + double_quotes(f, dquote), seq![dquote], c);
    }
}

proof fn lemma_render_fields_lacks(fields: Seq<Seq<char>>, sep: Seq<char>, dquote: char, c: char)
    requires
        forall|i: int| 0 <= i < fields.len() ==> lacks(#[trigger] fields[i], c),
        lacks(sep, c),
        c != dquote,
    ensures
        lacks(render_fields(fields, sep, dquote), c),
    decreases fields.len(),
{
    if fields.len() > 0 {
        assert forall|i: int| 0 <= i < fields.drop_first().len() implies lacks(
            #[trigger] fields.drop_first()[i],
            c,
        ) by {
            assert(fields.drop_first()[i] == fields[i + 1]);
        }
        lemma_render_fields_lacks(fields.drop_first(), sep, dquote, c);
        lemma_escape_lacks(fields[0], sep, dquote, c);
        lemma_lacks_concat(sep, escape_field(fields[0], sep, dquote), c);
        lemma_lacks_concat(
            sep + escape_field(fields[0], sep, dquote),
            render_fields(fields.drop_first(), sep, dquote),
            c,
        );
    }
}

proof fn lemma_render_row_lacks(fields: Seq<Seq<char>>, sep: Seq<char>, dquote: char, c: char)
    requires
        forall|i: int| 0 <= i < fields.len() ==> lacks(#[trigger] fields[i], c),
        lacks(sep, c),
        c != dquote,
    ensures
        lacks(render_row(fields, sep, dquote), c),
{
    if fields.len() > 0 {
        assert forall|i: int| 0 <= i < fields.drop_first().len() implies lacks(
            #[trigger] fields.drop_first()[i],
            c,
        ) by {
            assert(fields.drop_first()[i] == fields[i + 1]);
        }
        lemma_render_fields_lacks(fields.drop_first(), sep, dquote, c);
        lemma_escape_lacks(fields[0], sep, dquote, c);
        lemma_lacks_concat(
            escape_field(fields[0], sep, dquote),
            render_fields(fields.drop_first(), sep, dquote),
            c,
        );
    }
}

/// A buffer without a line feed, closed by one, is one physical line.
proof fn lemma_line_len_terminal(x: Seq<char>)
    requires
        lacks(x, '\n'),
    ensures
        line_len(x + seq!['\n']) == x.len() + 1,
    decreases x.len(),
{
    let s = x + seq!['\n'];
    if x.len() == 0 {
        assert(s[0] == '\n');
        assert(s.len() == 1);
    } else {
        assert(s[0] == x[0]);
        lemma_lacks_drop_first(x, '\n');
        lemma_line_len_terminal(x.drop_first());
        assert(s.drop_first() =~= x.drop_first() + seq!['\n']);
    }
}

/// The last escaped field of a line, followed by the line terminator,
/// parses back to the field, and what is left cannot start another field.
proof fn lemma_field_eol(f: Seq<char>, tail: Seq<char>, comma: char, dquote: char)
    requires
        comma != dquote,
        !spec_is_space(comma),
        !spec_is_space(dquote),
        tail == seq!['\r', '\n'] || tail == seq!['\n'],
    ensures
        spec_field(escape_field(f, seq![comma], dquote) + tail, comma, dquote) matches
            SpecField::Complete { field: ff, rest } && ff == f && !(rest.len() > 0 && rest[0]
            == comma),
{
    let sep = seq![comma];
    let esc = escape_field(f, sep, dquote);
    let s = esc + tail;
    assert(spec_is_space(tail[0]) && spec_is_ctl(tail[0]));
    assert(ws_count(tail) == tail.len()) by {
        if tail.len() == 2 {
            assert(tail[0] == '\r' && spec_is_space(tail[0]));
            assert(tail.drop_first() =~= seq!['\n']);
            assert(tail.drop_first()[0] == '\n' && spec_is_space('\n'));
            assert(tail.drop_first().drop_first() =~= Seq::<char>::empty());
            assert(ws_count(tail.drop_first().drop_first()) == 0);
            assert(ws_count(tail.drop_first()) == 1);
        } else {
            assert(tail[0] == '\n' && spec_is_space(tail[0]));
            assert(tail.drop_first() =~= Seq::<char>::empty());
            assert(ws_count(tail.drop_first()) == 0);
        }
    }
    if needs_escape(f, sep, dquote) {
        let d = double_quotes(f, dquote);
        assert(esc == seq![dquote] + d + seq![dquote]);
        assert(s[0] == dquote);
        lemma_trim_noop(s);
        let t = trim_start(s);
        assert(t == s && t[0] == dquote && t.len() > 0);
        let body = t.drop_first();
        assert(body =~= d + seq![dquote] + tail);
        assert(tail[0] != dquote);
        lemma_close_of_double(f, tail, dquote);
        assert(close_idx(body, dquote) == Some(d.len() as int));
        assert(body.take(d.len() as int) =~= d);
        lemma_unescape_escape(f, dquote);
        assert(body.skip(d.len() + 1int) =~= tail);
        let rem = trim_start(tail);
        assert(rem =~= tail.skip(tail.len() as int));
        assert(rem.len() == 0);
        assert(tail_ok(rem, comma));
    } else {
        assert(forall|i: int|
            0 <= i < f.len() ==> !(spec_is_ctl(f[i]) || sep.contains(f[i]) || f[i] == dquote));
        assert forall|i: int| 0 <= i < f.len() implies f[i] != comma by {
            if f[i] == comma {
                assert(sep[0] == f[i]);
                assert(sep.contains(f[i]));
            }
        }
        assert(forall|i: int| 0 <= i < f.len() ==> !is_stop(f[i], comma, dquote));
        assert(esc == f);
        lemma_ws_count_bounds(s);
        let w = ws_count(s);
        let t = trim_start(s);
        if t.len() > 0 {
            assert(t[0] == s[w]);
            if w < f.len() {
                assert(s[w] == f[w]);
                assert(s[w] != dquote);
            } else {
                // every character of the terminator is whitespace, so the
                // first non-space index cannot fall inside it
                assert(s[w] == tail[w - f.len()]);
                assert(spec_is_space(s[w]));
                assert(false);
            }
            assert(t[0] != dquote);
        }
        assert(is_stop(tail[0], comma, dquote));
        lemma_text_len_concat(f, tail, comma, dquote);
        assert(s.take(f.len() as int) =~= f);
        assert(s.skip(f.len() as int) =~= tail);
        assert(tail[0] != comma);
    }
}

/// The `separator field` groups after the first field of a line, with the
/// line terminator closing the buffer, parse back to the fields they
/// render.
proof fn lemma_record_more_eol(fields: Seq<Seq<char>>, tail: Seq<char>, comma: char, dquote: char)
    requires
        comma != dquote,
        !spec_is_space(comma),
        !spec_is_space(dquote),
        tail == seq!['\r', '\n'] || tail == seq!['\n'],
    ensures
        spec_record_more(render_fields(fields, seq![comma], dquote) + tail, comma, dquote) matches
            SpecRecord::Complete { fields: ff, .. } && ff == fields,
    decreases fields.len(),
{
    let sep = seq![comma];
    let r = render_fields(fields, sep, dquote) + tail;
    if fields.len() == 0 {
        assert(r =~= tail);
        assert(spec_is_space(tail[0]));
        assert(tail[0] != comma);
        assert(spec_record_more(r, comma, dquote) == (SpecRecord::Complete {
            fields: Seq::<Seq<char>>::empty(),
            rest: r,
        }));
        assert(Seq::<Seq<char>>::empty() =~= fields);
    } else {
        let f0 = fields[0];
        let rest_fields = fields.drop_first();
        let rest_render = render_fields(rest_fields, sep, dquote);
        assert(r =~= sep + escape_field(f0, sep, dquote) + (rest_render + tail));
        assert(r[0] == comma && r.len() > 0);
        assert(r.drop_first() =~= escape_field(f0, sep, dquote) + (rest_render + tail));
        if rest_fields.len() > 0 {
            assert(rest_render == sep + escape_field(rest_fields[0], sep, dquote) + render_fields(
                rest_fields.drop_first(),
                sep,
                dquote,
            ));
            assert((rest_render + tail)[0] == rest_render[0]);
            assert((rest_render + tail)[0] == comma);
            lemma_field_round_trip(f0, rest_render + tail, comma, dquote);
            lemma_record_more_eol(rest_fields, tail, comma, dquote);
        } else {
            assert(rest_render =~= Seq::<char>::empty());
            assert(rest_render + tail =~= tail);
            lemma_field_eol(f0, tail, comma, dquote);
            match spec_field(escape_field(f0, sep, dquote) + tail, comma, dquote) {
                SpecField::Complete { field: ff0, rest: rest2 } => {
                    assert(spec_record_more(rest2, comma, dquote) == (SpecRecord::Complete {
                        fields: Seq::<Seq<char>>::empty(),
                        rest: rest2,
                    }));
                },
                _ => {
                    assert(false);
                },
            }
        }
        assert(seq![f0] + rest_fields =~= fields);
    }
}

/// The round trip through the reader's pull loop: one serialized record,
/// closed with an RFC or Unix line terminator, pulled from the start of a
/// stream, gives exactly the record back and consumes the whole stream.
/// The fields may hold no control characters — a field with an embedded
/// line feed would span several physical lines — and, as in the record
/// round trip, the separator and quote must differ and neither may be
/// whitespace.
pub proof fn lemma_pull_round_trip(fields: Seq<Seq<char>>, comma: char, dquote: char, eol: Seq<char>)
    requires
        fields.len() >= 1,
        comma != dquote,
        !spec_is_space(comma),
        !spec_is_space(dquote),
        forall|i: int, j: int|
            0 <= i < fields.len() && 0 <= j < fields[i].len() ==> !spec_is_ctl(#[trigger] fields[i][j]),
        eol == seq!['\r', '\n'] || eol == seq!['\n'],
    ensures
        spec_pull(render_row(fields, seq![comma], dquote) + eol, Seq::empty(), comma, dquote) == (
            Ok::<Seq<Seq<char>>, Error>(fields),
            Seq::<char>::empty(),
        ),
{
    let sep = seq![comma];
    let row = render_row(fields, sep, dquote);
    let src = row + eol;
    // Neither line feed nor carriage return occurs inside the rendered row.
    assert(spec_is_ctl('\n') && spec_is_ctl('\r'));
    assert(spec_is_space('\n') && spec_is_space('\r'));
    assert forall|i: int| 0 <= i < fields.len() implies lacks(#[trigger] fields[i], '\n') && lacks(
        fields[i],
        '\r',
    ) by {
        assert(forall|j: int| 0 <= j < fields[i].len() ==> !spec_is_ctl(fields[i][j]));
    }
    assert(lacks(sep, '\n') && lacks(sep, '\r'));
    lemma_render_row_lacks(fields, sep, dquote, '\n');
    lemma_render_row_lacks(fields, sep, dquote, '\r');
    // The whole buffer is one physical line.
    if eol == seq!['\n'] {
        lemma_line_len_terminal(row);
        assert(src =~= row + seq!['\n']);
    } else {
        lemma_lacks_concat(row, seq!['\r'], '\n');
        lemma_line_len_terminal(row + seq!['\r']);
        assert(src =~= (row + seq!['\r']) + seq!['\n']);
    }
    assert(line_len(src) == src.len());
    // The line parses back to the record.
    let f0 = fields[0];
    let rest_fields = fields.drop_first();
    let rest_render = render_fields(rest_fields, sep, dquote);
    assert(src =~= escape_field(f0, sep, dquote) + (rest_render + eol));
    if rest_fields.len() > 0 {
        assert(rest_render == sep + escape_field(rest_fields[0], sep, dquote) + render_fields(
            rest_fields.drop_first(),
            sep,
            dquote,
        ));
        assert((rest_render + eol)[0] == rest_render[0]);
        assert((rest_render + eol)[0] == comma);
        lemma_field_round_trip(f0, rest_render + eol, comma, dquote);
        lemma_record_more_eol(rest_fields, eol, comma, dquote);
    } else {
        assert(rest_render =~= Seq::<char>::empty());
        assert(rest_render + eol =~= eol);
        lemma_field_eol(f0, eol, comma, dquote);
        match spec_field(escape_field(f0, sep, dquote) + eol, comma, dquote) {
            SpecField::Complete { field: ff0, rest: rest2 } => {
                assert(spec_record_more(rest2, comma, dquote) == (SpecRecord::Complete {
                    fields: Seq::<Seq<char>>::empty(),
                    rest: rest2,
                }));
            },
            _ => {
                assert(false);
            },
        }
    }
    assert(seq![f0] + rest_fields =~= fields);
    assert(spec_record(src, comma, dquote) matches SpecRecord::Complete { fields: ff, .. }
        && ff == fields);
    // One unfolding of the pull loop consumes the line and yields the record.
    assert(Seq::<char>::empty() + src.take(src.len() as int) =~= src);
    assert(src.skip(src.len() as int) =~= Seq::<char>::empty());
}

} // verus!
