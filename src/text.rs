//! The text of one line as the searcher hands it over in bytes.
use vstd::prelude::*;

verus! {

/// Whether `c` is ASCII whitespace: space, tab, line feed, form feed or
/// carriage return.
pub open spec fn is_ascii_space(c: u8) -> bool {
    c == 0x20u8 || c == 0x09u8 || c == 0x0Au8 || c == 0x0Cu8 || c == 0x0Du8
}

/// `b` without its trailing ASCII whitespace.
pub open spec fn trim_end(b: Seq<u8>) -> Seq<u8>
    decreases b.len(),
{
    if b.len() > 0 && is_ascii_space(b.last()) {
        trim_end(b.drop_last())
    } else {
        b
    }
}

/// The text that lossy UTF-8 decoding gives for `b`.
pub uninterp spec fn lossy_text(b: Seq<u8>) -> Seq<char>;

/// Relies on String::from_utf8_lossy: the text is a function of the bytes
/// alone, and no bytes give no text.
#[verifier::external_body]
fn decode_lossy(b: &[u8]) -> (r: String)
    ensures
        r@ == lossy_text(b@),
        b@.len() == 0 ==> r@.len() == 0,
{
    String::from_utf8_lossy(b).into_owned()
}

fn is_space_byte(c: u8) -> (r: bool)
    ensures
        r == is_ascii_space(c),
{
    c == 0x20u8 || c == 0x09u8 || c == 0x0Au8 || c == 0x0Cu8 || c == 0x0Du8
}

/// The bytes of `b` up to `end`.
fn prefix_bytes(b: &[u8], end: usize) -> (r: Vec<u8>)
    requires
        end <= b@.len(),
    ensures
        r@ == b@.subrange(0, end as int),
{
    let mut r: Vec<u8> = Vec::new();
    let mut i: usize = 0;
    while i < end
        invariant
            i <= end <= b@.len(),
            r@ == b@.subrange(0, i as int),
        decreases end - i,
    {
        r.push(b[i]);
        i = i + 1;
        assert(r@ =~= b@.subrange(0, i as int));
    }
    r
}

/// The text of a line: its bytes without the line terminator and other
/// trailing ASCII whitespace, decoded as UTF-8 with invalid sequences
/// replaced.
pub fn line_text(bytes: &[u8]) -> (r: String)
    ensures
        r@ == lossy_text(trim_end(bytes@)),
{
    let mut end: usize = bytes.len();
    assert(bytes@.subrange(0, end as int) =~= bytes@);
    while end > 0 && is_space_byte(bytes[end - 1])
        invariant
            end <= bytes@.len(),
            trim_end(bytes@.subrange(0, end as int)) == trim_end(bytes@),
        decreases end,
    {
        assert(bytes@.subrange(0, end as int).drop_last() =~= bytes@.subrange(0, end - 1));
        end = end - 1;
    }
    let kept = prefix_bytes(bytes, end);
    proof {
        assert(trim_end(kept@) == kept@);
    }
    decode_lossy(kept.as_slice())
}

} // verus!
