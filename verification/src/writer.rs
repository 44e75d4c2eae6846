//! The record writer: serializes ordered field lists to an owned text
//! sink, quoting and quote-doubling fields that need it, and separating
//! rows with a configurable line terminator.

use vstd::prelude::*;

verus! {

use crate::error::Error;
use crate::text::{chars_of, is_ctl, spec_is_ctl, string_of};

/// Line terminator written between rows.
#[derive(Debug)]
pub enum NewLine {
    /// `"\r\n"`, the RFC 4180 terminator.
    Rfc,
    /// `"\n"`.
    Unix,
    /// A caller-supplied literal string.
    Custom(String),
}

/// The characters a terminator writes.
pub open spec fn eol_chars(nl: NewLine) -> Seq<char> {
    match nl {
        NewLine::Rfc => seq!['\r', '\n'],
        NewLine::Unix => seq!['\n'],
        NewLine::Custom(s) => s@,
    }
}

impl NewLine {
    /// The terminator as a string.
    pub fn as_string(&self) -> (r: String)
        ensures
            r@ == eol_chars(*self),
    {
        match self {
            NewLine::Rfc => {
                let s = String::from_str("\r\n");
                proof {
                    reveal_strlit("\r\n");
                    assert(s@ =~= seq!['\r', '\n']);
                }
                s
            },
            NewLine::Unix => {
                let s = String::from_str("\n");
                proof {
                    reveal_strlit("\n");
                    assert(s@ =~= seq!['\n']);
                }
                s
            },
            NewLine::Custom(eol) => eol.clone(),
        }
    }
}

/// Writer options: the separator string, the quote character and the line
/// terminator.
#[derive(Debug)]
pub struct Config {
    /// Value separator, `","` by default.
    pub separator: String,
    /// Quote character, `'"'` by default.
    pub escape: char,
    /// Line terminator, RFC-style `"\r\n"` by default.
    pub newline: NewLine,
}

impl Config {
    /// Create the default options.
    pub fn new() -> (r: Self)
        ensures
            r.separator@ == seq![','],
            r.escape == '"',
            r.newline is Rfc,
    {
        Config::default()
    }

    /// Set a custom separator character.
    pub fn separator(self, comma: char) -> (r: Self)
        ensures
            r.separator@ == seq![comma],
            r.escape == self.escape,
            r.newline == self.newline,
    {
        let sep = string_of(&[comma]);
        proof {
            assert(sep@ =~= seq![comma]);
        }
        Config { separator: sep, escape: self.escape, newline: self.newline }
    }

    /// Set a custom quote character.
    pub fn escape(self, dquote: char) -> (r: Self)
        ensures
            r.separator == self.separator,
            r.escape == dquote,
            r.newline == self.newline,
    {
        Config { separator: self.separator, escape: dquote, newline: self.newline }
    }

    /// Terminate rows as RFC 4180 does, with `"\r\n"` (the default).
    pub fn rfc_end_of_line(self) -> (r: Self)
        ensures
            r.separator == self.separator,
            r.escape == self.escape,
            r.newline is Rfc,
    {
        Config { separator: self.separator, escape: self.escape, newline: NewLine::Rfc }
    }

    /// Terminate rows Unix-style, with `"\n"`.
    pub fn unix_end_of_line(self) -> (r: Self)
        ensures
            r.separator == self.separator,
            r.escape == self.escape,
            r.newline is Unix,
    {
        Config { separator: self.separator, escape: self.escape, newline: NewLine::Unix }
    }

    /// Terminate rows with a custom string.
    pub fn custom_end_of_line(self, eoln: String) -> (r: Self)
        ensures
            r.separator == self.separator,
            r.escape == self.escape,
            r.newline == NewLine::Custom(eoln),
    {
        Config { separator: self.separator, escape: self.escape, newline: NewLine::Custom(eoln) }
    }
}

impl Default for Config {
    /// Comma-separated, double-quoted, RFC-style line ends.
    fn default() -> (r: Self)
        ensures
            r.separator@ == seq![','],
            r.escape == '"',
            r.newline is Rfc,
    {
        let sep = String::from_str(",");
        proof {
            reveal_strlit(",");
            assert(sep@ =~= seq![',']);
        }
        Config { separator: sep, escape: '"', newline: NewLine::Rfc }
    }
}

/// Whether a field must be quoted when written: it holds a control
/// character, a character of the separator, or the quote character.
pub open spec fn needs_escape(f: Seq<char>, sep: Seq<char>, dquote: char) -> bool {
    exists|i: int|
        0 <= i < f.len() && (spec_is_ctl(f[i]) || sep.contains(f[i]) || f[i] == dquote)
}

/// Every quote character doubled.
pub open spec fn double_quotes(f: Seq<char>, dquote: char) -> Seq<char>
    decreases f.len(),
{
    if f.len() == 0 {
        Seq::empty()
    } else if f[0] == dquote {
        seq![dquote, dquote] + double_quotes(f.drop_first(), dquote)
    } else {
        seq![f[0]] + double_quotes(f.drop_first(), dquote)
    }
}

/// A field as written: wrapped in quotes with its quotes doubled if it
/// needs escaping, and kept as-is otherwise.
pub open spec fn escape_field(f: Seq<char>, sep: Seq<char>, dquote: char) -> Seq<char> {
    if needs_escape(f, sep, dquote) {
        seq![dquote] + double_quotes(f, dquote) + seq![dquote]
    } else {
        f
    }
}

/// The rest of a row: each remaining field preceded by the separator.
pub open spec fn render_fields(fields: Seq<Seq<char>>, sep: Seq<char>, dquote: char) -> Seq<char>
    decreases fields.len(),
{
    if fields.len() == 0 {
        Seq::empty()
    } else {
        sep + escape_field(fields[0], sep, dquote) + render_fields(fields.drop_first(), sep, dquote)
    }
}

/// A whole row as written: the escaped fields joined by the separator.
pub open spec fn render_row(fields: Seq<Seq<char>>, sep: Seq<char>, dquote: char) -> Seq<char> {
    if fields.len() == 0 {
        Seq::empty()
    } else {
        escape_field(fields[0], sep, dquote) + render_fields(fields.drop_first(), sep, dquote)
    }
}

/// A whole document as written: each row preceded by the line terminator
/// if anything stands before it.
pub open spec fn render_doc(
    rows: Seq<Seq<Seq<char>>>,
    dirty: bool,
    sep: Seq<char>,
    dquote: char,
    eol: Seq<char>,
) -> Seq<char>
    decreases rows.len(),
{
    if rows.len() == 0 {
        Seq::empty()
    } else {
        (if dirty {
            eol
        } else {
            Seq::empty()
        }) + render_row(rows[0], sep, dquote) + render_doc(rows.drop_first(), true, sep, dquote, eol)
    }
}

/// Whether `v` holds `c`.
fn contains_char(v: &[char], c: char) -> (r: bool)
    ensures
        r == v@.contains(c),
{
    let n = v.len();
    let mut i: usize = 0;
    while i < n
        invariant
            i <= n,
            n == v@.len(),
            forall|j: int| 0 <= j < i ==> v@[j] != c,
        decreases n - i,
    {
        if v[i] == c {
            return true;
        }
        i = i + 1;
    }
    false
}

/// Writer of UTF-8 comma-separated content into an owned text sink.
///
/// # Example
///
/// ```
/// let mut writer = justcsv::CsvWriter::new(String::new());
/// writer.write_row(&vec!["1".to_string(), "2".to_string()]).unwrap();
/// assert_eq!("1,2", writer.into_inner());
/// ```
pub struct CsvWriter {
    dest: String,
    config: Config,
    is_dirty: bool,
}

impl CsvWriter {
    /// Everything written to the sink so far, the initial contents
    /// included.
    pub closed spec fn contents(self) -> Seq<char> {
        self.dest@
    }

    /// The options the writer was built with.
    pub closed spec fn spec_config(self) -> Config {
        self.config
    }

    /// Whether at least one row has been written.
    pub closed spec fn dirty(self) -> bool {
        self.is_dirty
    }

    /// Create a writer with default options appending to `dest`.
    pub fn new(dest: String) -> (r: Self)
        ensures
            r.contents() == dest@,
            !r.dirty(),
            r.spec_config().separator@ == seq![','],
            r.spec_config().escape == '"',
            r.spec_config().newline is Rfc,
    {
        Self::with_config(dest, Config::default())
    }

    /// Create a writer with the given options appending to `dest`.
    pub fn with_config(dest: String, config: Config) -> (r: Self)
        ensures
            r.contents() == dest@,
            !r.dirty(),
            r.spec_config() == config,
    {
        CsvWriter { dest, config, is_dirty: false }
    }

    /// Give the sink back, with everything written so far.
    pub fn into_inner(self) -> (r: String)
        ensures
            r@ == self.contents(),
    {
        self.dest
    }

    /// The field as it is written: quoted with its quotes doubled if it
    /// holds a control character, a separator character or the quote
    /// character, and unchanged otherwise.
    fn escape_if_needed(&self, field: &String) -> (r: String)
        ensures
            r@ == escape_field(field@, self.config.separator@, self.config.escape),
    {
        let f = chars_of(field.as_str());
        let sep = chars_of(self.config.separator.as_str());
        let dq = self.config.escape;
        let n = f.len();
        let mut needs = false;
        for i in 0..n
            invariant
                n == f@.len(),
                f@ == field@,
                sep@ == self.config.separator@,
                dq == self.config.escape,
                needs == exists|j: int|
                    0 <= j < i && (spec_is_ctl(f@[j]) || sep@.contains(f@[j]) || f@[j] == dq),
        {
            if is_ctl(f[i]) || contains_char(sep.as_slice(), f[i]) || f[i] == dq {
                needs = true;
            }
        }
        if needs {
            let mut out: Vec<char> = Vec::new();
            out.push(dq);
            let mut i: usize = 0;
            proof {
                assert(f@.skip(0) =~= f@);
                assert(out@ =~= seq![dq]);
            }
            loop
                invariant
                    i <= n,
                    n == f@.len(),
                    seq![dq] + double_quotes(f@, dq) == out@ + double_quotes(
                        f@.skip(i as int),
                        dq,
                    ),
                ensures
                    out@ == seq![dq] + double_quotes(f@, dq),
                decreases n - i,
            {
                let ghost pre = f@.skip(i as int);
                let ghost out0 = out@;
                if i == n {
                    proof {
                        assert(double_quotes(pre, dq) =~= Seq::<char>::empty());
                        assert(out@ + double_quotes(pre, dq) =~= out@);
                    }
                    break ;
                }
                proof {
                    assert(pre[0] == f@[i as int]);
                    crate::parse::lemma_skip_drop_first(f@, i as int);
                    assert(pre.drop_first() =~= f@.skip(i + 1));
                }
                if f[i] == dq {
                    out.push(dq);
                    out.push(dq);
                    proof {
                        assert(double_quotes(pre, dq) == seq![dq, dq] + double_quotes(
                            f@.skip(i + 1),
                            dq,
                        ));
                        assert(out0 + (seq![dq, dq] + double_quotes(f@.skip(i + 1), dq)) =~= out@
                            + double_quotes(f@.skip(i + 1), dq));
                    }
                } else {
                    out.push(f[i]);
                    proof {
                        assert(double_quotes(pre, dq) == seq![pre[0]] + double_quotes(
                            f@.skip(i + 1),
                            dq,
                        ));
                        assert(out0 + (seq![pre[0]] + double_quotes(f@.skip(i + 1), dq)) =~= out@
                            + double_quotes(f@.skip(i + 1), dq));
                    }
                }
                i = i + 1;
            }
            out.push(dq);
            let r = string_of(out.as_slice());
            proof {
                assert(r@ =~= seq![dq] + double_quotes(f@, dq) + seq![dq]);
            }
            r
        } else {
            field.clone()
        }
    }

    /// Write one row: the line terminator first if anything was written
    /// before, then the escaped fields joined by the separator.
    pub fn write_row(&mut self, row: &Vec<String>) -> (r: Result<(), Error>)
        ensures
            r is Ok,
            final(self).spec_config() == old(self).spec_config(),
            final(self).dirty(),
            final(self).contents() == old(self).contents() + (if old(self).dirty() {
                eol_chars(old(self).spec_config().newline)
            } else {
                Seq::<char>::empty()
            }) + render_row(
                row.deep_view(),
                old(self).spec_config().separator@,
                old(self).spec_config().escape,
            ),
    {
        let ghost sep = self.config.separator@;
        let ghost dq = self.config.escape;
        if self.is_dirty {
            let eol = self.config.newline.as_string();
            self.dest.append(eol.as_str());
        } else {
            self.is_dirty = true;
        }
        let ghost base = self.dest@;
        let ghost rows = row.deep_view();
        let n = row.len();
        if n == 0 {
            proof {
                assert(render_row(rows, sep, dq) =~= Seq::<char>::empty());
                assert(self.dest@ =~= base + render_row(rows, sep, dq));
                assert(old(self).contents() + (if old(self).dirty() {
                    eol_chars(old(self).spec_config().newline)
                } else {
                    Seq::<char>::empty()
                }) + render_row(rows, sep, dq) =~= self.dest@);
            }
            return Ok(());
        }
        let field0 = self.escape_if_needed(&row[0]);
        self.dest.append(field0.as_str());
        proof {
            assert(rows[0] == row@[0]@);
            crate::parse::lemma_skip_drop_first(rows, 0);
            assert(rows.skip(0).drop_first() =~= rows.skip(1));
            assert(rows.skip(0) =~= rows);
            assert(rows.drop_first() =~= rows.skip(1));
            assert(base + render_row(rows, sep, dq) =~= self.dest@ + render_fields(
                rows.skip(1),
                sep,
                dq,
            ));
        }
        let mut i: usize = 1;
        loop
            invariant
                1 <= i <= n,
                n == rows.len(),
                rows == row.deep_view(),
                self.config == old(self).config,
                self.is_dirty,
                sep == self.config.separator@,
                dq == self.config.escape,
                base + render_row(rows, sep, dq) == self.dest@ + render_fields(
                    rows.skip(i as int),
                    sep,
                    dq,
                ),
            ensures
                self.config == old(self).config,
                self.is_dirty,
                self.dest@ == base + render_row(rows, sep, dq),
            decreases n - i,
        {
            let ghost pre = rows.skip(i as int);
            if i == n {
                proof {
                    assert(render_fields(pre, sep, dq) =~= Seq::<char>::empty());
                    assert(self.dest@ + render_fields(pre, sep, dq) =~= self.dest@);
                }
                break ;
            }
            proof {
                assert(pre[0] == rows[i as int]);
                assert(rows[i as int] == row@[i as int]@);
                crate::parse::lemma_skip_drop_first(rows, i as int);
                assert(pre.drop_first() =~= rows.skip(i + 1));
            }
            let ghost before = self.dest@;
            let sep_str = self.config.separator.clone();
            self.dest.append(sep_str.as_str());
            let field = self.escape_if_needed(&row[i]);
            self.dest.append(field.as_str());
            proof {
                assert(render_fields(pre, sep, dq) == sep + escape_field(rows[i as int], sep, dq)
                    + render_fields(rows.skip(i + 1), sep, dq));
                assert(before + (sep + escape_field(rows[i as int], sep, dq) + render_fields(
                    rows.skip(i + 1),
                    sep,
                    dq,
                )) =~= self.dest@ + render_fields(rows.skip(i + 1), sep, dq));
            }
            i = i + 1;
        }
        proof {
            assert(old(self).contents() + (if old(self).dirty() {
                eol_chars(old(self).spec_config().newline)
            } else {
                Seq::<char>::empty()
            }) + render_row(rows, sep, dq) =~= self.dest@);
        }
        Ok(())
    }

    /// Write the header row. Fails with
    /// [`Error::WriteHeadersAfterRecords`], leaving the sink unchanged, if
    /// any row was already written: headers must come first.
    pub fn write_headers(&mut self, headers: &Vec<String>) -> (r: Result<(), Error>)
        ensures
            old(self).dirty() ==> r == Err::<(), Error>(Error::WriteHeadersAfterRecords)
                && *final(self) == *old(self),
            !old(self).dirty() ==> r is Ok && final(self).dirty() && final(self).spec_config()
                == old(self).spec_config() && final(self).contents() == old(self).contents()
                + render_row(
                headers.deep_view(),
                old(self).spec_config().separator@,
                old(self).spec_config().escape,
            ),
    {
        if self.is_dirty {
            return Err(Error::WriteHeadersAfterRecords);
        }
        let r = self.write_row(headers);
        proof {
            assert(old(self).contents() + Seq::<char>::empty() + render_row(
                headers.deep_view(),
                old(self).spec_config().separator@,
                old(self).spec_config().escape,
            ) =~= old(self).contents() + render_row(
                headers.deep_view(),
                old(self).spec_config().separator@,
                old(self).spec_config().escape,
            ));
        }
        r
    }

    /// Write a whole document: each row in order, as `write_row` does.
    pub fn write_document(&mut self, doc: &Vec<Vec<String>>) -> (r: Result<(), Error>)
        ensures
            r is Ok,
            final(self).spec_config() == old(self).spec_config(),
            final(self).dirty() == (old(self).dirty() || doc@.len() > 0),
            final(self).contents() == old(self).contents() + render_doc(
                doc.deep_view(),
                old(self).dirty(),
                old(self).spec_config().separator@,
                old(self).spec_config().escape,
                eol_chars(old(self).spec_config().newline),
            ),
    {
        let ghost sep = self.config.separator@;
        let ghost dq = self.config.escape;
        let ghost eol = eol_chars(self.config.newline);
        let ghost rows = doc.deep_view();
        let ghost base = self.dest@;
        let n = doc.len();
        let mut i: usize = 0;
        proof {
            assert(rows.skip(0) =~= rows);
        }
        loop
            invariant
                i <= n,
                n == rows.len(),
                rows == doc.deep_view(),
                self.config == old(self).config,
                sep == self.config.separator@,
                dq == self.config.escape,
                eol == eol_chars(self.config.newline),
                i == 0 ==> self.dest@ == base && self.is_dirty == old(self).is_dirty,
                i > 0 ==> self.is_dirty,
                base + render_doc(rows, old(self).is_dirty, sep, dq, eol) == self.dest@
                    + render_doc(rows.skip(i as int), self.is_dirty, sep, dq, eol),
            ensures
                self.config == old(self).config,
                self.is_dirty == (old(self).is_dirty || rows.len() > 0),
                self.dest@ == base + render_doc(rows, old(self).is_dirty, sep, dq, eol),
            decreases n - i,
        {
            let ghost pre = rows.skip(i as int);
            if i == n {
                proof {
                    assert(render_doc(pre, self.is_dirty, sep, dq, eol) =~= Seq::<char>::empty());
                    assert(self.dest@ + render_doc(pre, self.is_dirty, sep, dq, eol)
                        =~= self.dest@);
                }
                break ;
            }
            proof {
                assert(pre[0] == rows[i as int]);
                assert(rows[i as int] == doc@[i as int].deep_view());
                crate::parse::lemma_skip_drop_first(rows, i as int);
                assert(pre.drop_first() =~= rows.skip(i + 1));
            }
            let ghost before = self.dest@;
            let ghost was_dirty = self.is_dirty;
            let row = &doc[i];
            let _ = self.write_row(row);
            proof {
                assert(render_doc(pre, was_dirty, sep, dq, eol) == (if was_dirty {
                    eol
                } else {
                    Seq::<char>::empty()
                }) + render_row(rows[i as int], sep, dq) + render_doc(
                    rows.skip(i + 1),
                    true,
                    sep,
                    dq,
                    eol,
                ));
                assert(before + ((if was_dirty {
                    eol
                } else {
                    Seq::<char>::empty()
                }) + render_row(rows[i as int], sep, dq) + render_doc(
                    rows.skip(i + 1),
                    true,
                    sep,
                    dq,
                    eol,
                )) =~= self.dest@ + render_doc(rows.skip(i + 1), true, sep, dq, eol));
            }
            i = i + 1;
        }
        Ok(())
    }
}

} // verus!
