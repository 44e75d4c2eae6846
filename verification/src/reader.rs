//! The record reader: a pull-based sequence of records over a UTF-8 byte
//! buffer. Each pull accumulates physical lines until the grammar completes
//! a logical record, signals that the buffer is malformed, or the source
//! runs dry.

use vstd::prelude::*;

verus! {

use crate::error::Error;
use crate::parse::{
    lemma_skip_skip, parse_record_chars, spec_record, RecordResult, SpecRecord,
};
use crate::text::{append_range, bytes_to_str, chars_of};
use vstd::utf8::{decode_utf8, valid_utf8};

/// Reader options: whether a header record is expected, and the separator
/// and quote characters.
#[derive(Clone, Copy, Debug)]
pub struct Config {
    /// A header record is expected at the start of the stream.
    pub has_headers: bool,
    /// Value separator, `','` by default.
    pub separator: char,
    /// Quote character, `'"'` by default.
    pub escape: char,
}

impl Config {
    /// Set whether a header record is expected.
    pub fn has_headers(self, has: bool) -> (r: Self)
        ensures
            r == (Config { has_headers: has, ..self }),
    {
        Config { has_headers: has, separator: self.separator, escape: self.escape }
    }

    /// Set a custom separator character.
    pub fn separator(self, sep: char) -> (r: Self)
        ensures
            r == (Config { separator: sep, ..self }),
    {
        Config { has_headers: self.has_headers, separator: sep, escape: self.escape }
    }

    /// Set a custom quote character.
    pub fn escape(self, esc: char) -> (r: Self)
        ensures
            r == (Config { escape: esc, ..self }),
    {
        Config { has_headers: self.has_headers, separator: self.separator, escape: esc }
    }
}

impl Default for Config {
    /// No headers, comma-separated, double-quoted.
    fn default() -> (r: Self)
        ensures
            r == (Config { has_headers: false, separator: ',', escape: '"' }),
    {
        Config { has_headers: false, separator: ',', escape: '"' }
    }
}

/// Length of the first physical line of `s`, its terminator included: up to
/// and including the first line feed, or all of `s` if it has none.
pub open spec fn line_len(s: Seq<char>) -> int
    decreases s.len(),
{
    if s.len() == 0 {
        0
    } else if s[0] == '\n' {
        1
    } else {
        1 + line_len(s.drop_first())
    }
}

pub proof fn lemma_line_len_bounds(s: Seq<char>)
    ensures
        0 <= line_len(s) <= s.len(),
        s.len() > 0 ==> 1 <= line_len(s),
    decreases s.len(),
{
    if s.len() > 0 && s[0] != '\n' {
        lemma_line_len_bounds(s.drop_first());
    }
}

/// One pull from a source whose unread characters are `src`, with `acc`
/// already accumulated for the current logical record: the result of the
/// pull, and the characters left unread after it.
pub open spec fn spec_pull(src: Seq<char>, acc: Seq<char>, comma: char, dquote: char) -> (
    Result<Seq<Seq<char>>, Error>,
    Seq<char>,
)
    decreases src.len(),
    via spec_pull_decreases
{
    if src.len() == 0 {
        if acc.len() == 0 {
            (Err(Error::StreamComplete), src)
        } else {
            (Err(Error::UnexpectedEof), src)
        }
    } else {
        let n = line_len(src);
        let acc2 = acc + src.take(n);
        let src2 = src.skip(n);
        match spec_record(acc2, comma, dquote) {
            SpecRecord::Complete { fields, .. } => (Ok(fields), src2),
            SpecRecord::Incomplete => spec_pull(src2, acc2, comma, dquote),
            SpecRecord::Malformed => (Err(Error::Malformed), src2),
        }
    }
}

#[via_fn]
proof fn spec_pull_decreases(src: Seq<char>, acc: Seq<char>, comma: char, dquote: char) {
    lemma_line_len_bounds(src);
}

/// Position right after the first physical line starting at `pos`.
fn scan_line(s: &[char], pos: usize) -> (r: usize)
    requires
        pos <= s@.len(),
    ensures
        pos <= r <= s@.len(),
        r - pos == line_len(s@.skip(pos as int)),
{
    let n = s.len();
    let mut i = pos;
    loop
        invariant_except_break
            line_len(s@.skip(pos as int)) == (i - pos) + line_len(s@.skip(i as int)),
        invariant
            pos <= i <= n,
            n == s@.len(),
        ensures
            pos <= i <= n,
            line_len(s@.skip(pos as int)) == i - pos,
        decreases n - i,
    {
        if i == n {
            proof {
                assert(line_len(s@.skip(i as int)) == 0);
            }
            break ;
        }
        proof {
            assert(s@.skip(i as int)[0] == s@[i as int]);
            crate::parse::lemma_skip_drop_first(s@, i as int);
        }
        if s[i] == '\n' {
            proof {
                assert(line_len(s@.skip(i as int)) == 1);
            }
            i = i + 1;
            break ;
        }
        i = i + 1;
    }
    i
}

/// Pull one record from the characters of `src`, starting at `start`:
/// accumulate physical lines until the grammar completes a record, rejects
/// the buffer, or the source runs dry. Returns the outcome and the position
/// where the next pull starts.
fn parse_row(src: &Vec<char>, start: usize, comma: char, dquote: char) -> (r: (
    Result<Vec<String>, Error>,
    usize,
))
    requires
        start <= src@.len(),
    ensures
        start <= r.1 <= src@.len(),
        ({
            let (res, rem) = spec_pull(src@.skip(start as int), Seq::empty(), comma, dquote);
            src@.skip(r.1 as int) == rem && match r.0 {
                Ok(v) => res matches Ok(fs) && v.deep_view() == fs,
                Err(e) => res matches Err(e2) && e == e2,
            }
        }),
{
    let n = src.len();
    let mut acc: Vec<char> = Vec::new();
    let mut p = start;
    proof {
        assert(Seq::<char>::empty() + Seq::<char>::empty() =~= Seq::<char>::empty());
    }
    loop
        invariant
            start <= p <= n,
            n == src@.len(),
            spec_pull(src@.skip(start as int), Seq::empty(), comma, dquote) == spec_pull(
                src@.skip(p as int),
                acc@,
                comma,
                dquote,
            ),
        decreases n - p,
    {
        let ghost rest = src@.skip(p as int);
        if p == n {
            proof {
                assert(rest.len() == 0);
            }
            if acc.len() == 0 {
                return (Err(Error::StreamComplete), p);
            } else {
                return (Err(Error::UnexpectedEof), p);
            }
        }
        let e = scan_line(src.as_slice(), p);
        let ghost nl = line_len(rest);
        proof {
            lemma_line_len_bounds(rest);
            assert(rest.take(nl) =~= src@.subrange(p as int, e as int));
            lemma_skip_skip(src@, p as int, nl);
            assert(rest.skip(nl) =~= src@.skip(e as int));
        }
        append_range(&mut acc, src.as_slice(), p, e);
        p = e;
        match parse_record_chars(acc.as_slice(), comma, dquote) {
            RecordResult::Complete(fields) => {
                return (Ok(fields), p);
            },
            RecordResult::Incomplete => {
            },
            RecordResult::Malformed => {
                return (Err(Error::Malformed), p);
            },
        }
    }
}

/// Read the header record: a pull whose failure is swallowed, leaving the
/// headers absent but the position advanced past whatever was consumed.
fn load_headers(src: &Vec<char>, start: usize, comma: char, dquote: char) -> (r: (
    Option<Vec<String>>,
    usize,
))
    requires
        start <= src@.len(),
    ensures
        start <= r.1 <= src@.len(),
        ({
            let (res, rem) = spec_pull(src@.skip(start as int), Seq::empty(), comma, dquote);
            src@.skip(r.1 as int) == rem && match r.0 {
                Some(v) => res matches Ok(fs) && v.deep_view() == fs,
                None => res is Err,
            }
        }),
{
    let (res, p) = parse_row(src, start, comma, dquote);
    match res {
        Ok(v) => (Some(v), p),
        Err(_) => (None, p),
    }
}

/// Reader of UTF-8 comma-separated content over a byte buffer. Pull
/// records one at a time with [`CsvReader::next`] or
/// [`CsvReader::next_row`].
pub struct CsvReader {
    source: Vec<char>,
    pos: usize,
    valid_source: bool,
    config: Config,
    headers: Option<Vec<String>>,
}

impl CsvReader {
    /// The reader's position is inside its decoded source.
    pub closed spec fn wf(self) -> bool {
        self.pos <= self.source@.len()
    }

    /// The characters not yet consumed by a pull.
    pub closed spec fn remaining(self) -> Seq<char> {
        self.source@.skip(self.pos as int)
    }

    /// The options the reader was built with.
    pub closed spec fn spec_config(self) -> Config {
        self.config
    }

    /// The header record captured at construction, if any.
    pub closed spec fn spec_headers(self) -> Option<Vec<String>> {
        self.headers
    }

    /// Whether the source bytes decoded as UTF-8.
    pub closed spec fn source_ok(self) -> bool {
        self.valid_source
    }

    /// Create a reader with the default options.
    pub fn new(source: &[u8]) -> (r: Self)
        ensures
            r.wf(),
            r.spec_config() == (Config { has_headers: false, separator: ',', escape: '"' }),
            r.spec_headers() is None,
            r.source_ok() == valid_utf8(source@),
            valid_utf8(source@) ==> r.remaining() == decode_utf8(source@),
    {
        Self::with_config(source, Config::default())
    }

    /// Create a reader with the given options. If a header record is
    /// expected, it is pulled immediately; if that pull fails, the headers
    /// stay absent while the position is still advanced past whatever was
    /// consumed, and the failure is not surfaced.
    pub fn with_config(source: &[u8], config: Config) -> (r: Self)
        ensures
            r.wf(),
            r.spec_config() == config,
            r.source_ok() == valid_utf8(source@),
            !valid_utf8(source@) ==> r.spec_headers() is None,
            valid_utf8(source@) ==> ({
                let chars = decode_utf8(source@);
                if config.has_headers {
                    let (res, rem) = spec_pull(chars, Seq::empty(), config.separator, config.escape);
                    r.remaining() == rem && match res {
                        Ok(fs) => r.spec_headers() matches Some(h) && h.deep_view() == fs,
                        Err(_) => r.spec_headers() is None,
                    }
                } else {
                    r.remaining() == chars && r.spec_headers() is None
                }
            }),
    {
        match bytes_to_str(source) {
            None => CsvReader {
                source: Vec::new(),
                pos: 0,
                valid_source: false,
                config,
                headers: None,
            },
            Some(s) => {
                let chars = chars_of(s);
                proof {
                    assert(chars@.skip(0) =~= chars@);
                }
                if config.has_headers {
                    let (headers, p) = load_headers(&chars, 0, config.separator, config.escape);
                    CsvReader { source: chars, pos: p, valid_source: true, config, headers }
                } else {
                    CsvReader { source: chars, pos: 0, valid_source: true, config, headers: None }
                }
            },
        }
    }

    /// The header record, if one was expected and parsed at construction.
    pub fn headers(&self) -> (r: Option<&Vec<String>>)
        ensures
            match r {
                Some(h) => self.spec_headers() matches Some(h2) && h2 == *h,
                None => self.spec_headers() is None,
            },
    {
        self.headers.as_ref()
    }

    /// Pull the next record. `Err(Error::StreamComplete)` is the clean end
    /// of the stream; after a malformed record the reader stays usable and
    /// the next pull starts at the following physical line.
    pub fn next_row(&mut self) -> (r: Result<Vec<String>, Error>)
        requires
            old(self).wf(),
        ensures
            final(self).wf(),
            final(self).spec_config() == old(self).spec_config(),
            final(self).spec_headers() == old(self).spec_headers(),
            final(self).source_ok() == old(self).source_ok(),
            !old(self).source_ok() ==> r == Err::<Vec<String>, Error>(Error::InvalidUtf8)
                && final(self).remaining() == old(self).remaining(),
            old(self).source_ok() ==> ({
                let (res, rem) = spec_pull(
                    old(self).remaining(),
                    Seq::empty(),
                    old(self).spec_config().separator,
                    old(self).spec_config().escape,
                );
                final(self).remaining() == rem && match r {
                    Ok(v) => res matches Ok(fs) && v.deep_view() == fs,
                    Err(e) => res matches Err(e2) && e == e2,
                }
            }),
    {
        if !self.valid_source {
            return Err(Error::InvalidUtf8);
        }
        let (res, p) = parse_row(&self.source, self.pos, self.config.separator, self.config.escape);
        self.pos = p;
        res
    }

    /// Pull the next record as an option: `None` at the clean end of the
    /// stream, `Some(Err(..))` on a failure, which does not poison later
    /// pulls.
    pub fn next(&mut self) -> (r: Option<Result<Vec<String>, Error>>)
        requires
            old(self).wf(),
        ensures
            final(self).wf(),
            final(self).spec_config() == old(self).spec_config(),
            final(self).spec_headers() == old(self).spec_headers(),
            final(self).source_ok() == old(self).source_ok(),
            !old(self).source_ok() ==> r == Some(Err::<Vec<String>, Error>(Error::InvalidUtf8))
                && final(self).remaining() == old(self).remaining(),
            old(self).source_ok() ==> ({
                let (res, rem) = spec_pull(
                    old(self).remaining(),
                    Seq::empty(),
                    old(self).spec_config().separator,
                    old(self).spec_config().escape,
                );
                final(self).remaining() == rem && match res {
                    Ok(fs) => r matches Some(Ok(v)) && v.deep_view() == fs,
                    Err(e) => if e == Error::StreamComplete {
                        r is None
                    } else {
                        r == Some(Err::<Vec<String>, Error>(e))
                    },
                }
            }),
    {
        let row = self.next_row();
        match row {
            Err(Error::StreamComplete) => None,
            other => Some(other),
        }
    }
}

} // verus!
