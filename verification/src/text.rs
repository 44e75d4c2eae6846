//! Character-level text helpers shared by the grammar, the reader and the
//! writer: whitespace and control-character classification, UTF-8 decoding
//! of the source bytes, and conversions between `&str`, `Vec<char>` and
//! `String`.

use vstd::prelude::*;

verus! {

use vstd::std_specs::iter::IteratorSpec;
use vstd::utf8::{decode_utf8, valid_utf8};

broadcast use vstd::string::group_string_axioms;

/// Unicode whitespace, exactly the characters with the `White_Space`
/// property, as `str::trim_start` strips them.
pub open spec fn spec_is_space(c: char) -> bool {
    let u = c as u32;
    u == 0x20 || (0x09 <= u && u <= 0x0D) || u == 0x85 || u == 0xA0 || u == 0x1680 || (0x2000
        <= u && u <= 0x200A) || u == 0x2028 || u == 0x2029 || u == 0x202F || u == 0x205F || u
        == 0x3000
}

/// Control characters below the space character.
pub open spec fn spec_is_ctl(c: char) -> bool {
    (c as u32) < 0x20
}

#[verifier::when_used_as_spec(spec_is_space)]
pub fn is_space(c: char) -> (r: bool)
    ensures
        r == spec_is_space(c),
{
    let u = c as u32;
    u == 0x20 || (0x09 <= u && u <= 0x0D) || u == 0x85 || u == 0xA0 || u == 0x1680 || (0x2000 <= u
        && u <= 0x200A) || u == 0x2028 || u == 0x2029 || u == 0x202F || u == 0x205F || u == 0x3000
}

#[verifier::when_used_as_spec(spec_is_ctl)]
pub fn is_ctl(c: char) -> (r: bool)
    ensures
        r == spec_is_ctl(c),
{
    (c as u32) < 0x20
}

/// Relies on `String::push`: appends the given character to the end of the
/// string.
pub assume_specification[ String::push ](s: &mut String, c: char)
    ensures
        final(s)@ == old(s)@.push(c),
;

/// Relies on `core::str::from_utf8`: succeeds exactly on valid UTF-8 and
/// returns the string those bytes encode, stated against vstd's UTF-8 model.
#[verifier::external_body]
pub(crate) fn bytes_to_str(bytes: &[u8]) -> (r: Option<&str>)
    ensures
        r matches Some(s) ==> valid_utf8(bytes@) && s@ == decode_utf8(bytes@),
        valid_utf8(bytes@) ==> r is Some,
{
    core::str::from_utf8(bytes).ok()
}

/// The characters of `s`, in order, as a vector.
pub fn chars_of(s: &str) -> (r: Vec<char>)
    ensures
        r@ == s@,
{
    let mut out: Vec<char> = Vec::new();
    let mut it = s.chars();
    loop
        invariant
            out@ + it.remaining() == s@,
            it.decrease() is Some,
        ensures
            out@ == s@,
        decreases it.decrease()->0,
    {
        match it.next() {
            Some(c) => out.push(c),
            None => {
                proof {
                    assert(out@ =~= s@);
                }
                break ;
            },
        }
    }
    out
}

/// Append `s[from..to]` to `dst`.
pub(crate) fn append_range(dst: &mut Vec<char>, s: &[char], from: usize, to: usize)
    requires
        from <= to <= s@.len(),
    ensures
        final(dst)@ == old(dst)@ + s@.subrange(from as int, to as int),
{
    let ghost base = dst@;
    let mut k = from;
    while k < to
        invariant
            from <= k <= to <= s@.len(),
            dst@ =~= base + s@.subrange(from as int, k as int),
        decreases to - k,
    {
        dst.push(s[k]);
        assert(dst@ =~= base + s@.subrange(from as int, k + 1));
        k = k + 1;
    }
    assert(dst@ =~= base + s@.subrange(from as int, to as int));
}

/// The string holding exactly the characters of `v`, in order.
pub fn string_of(v: &[char]) -> (r: String)
    ensures
        r@ == v@,
{
    let mut out = String::new();
    let n = v.len();
    for i in 0..n
        invariant
            out@ == v@.take(i as int),
            n == v@.len(),
    {
        out.push(v[i]);
        assert(out@ =~= v@.take(i + 1));
    }
    assert(out@ =~= v@);
    out
}

} // verus!
