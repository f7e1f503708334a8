//! Shift-JIS text and case folding, through encoding_rs and std.
use vstd::prelude::*;

verus! {

/// The text a Shift-JIS byte sequence decodes to; `None` where it holds malformed sequences.
pub uninterp spec fn shift_jis_decoded(b: Seq<u8>) -> Option<Seq<char>>;

/// The Shift-JIS bytes of a text; `None` where it holds unmappable characters.
pub uninterp spec fn shift_jis_encoded(s: Seq<char>) -> Option<Seq<u8>>;

/// The lowercase form of a text.
pub uninterp spec fn lower_of(s: Seq<char>) -> Seq<char>;

/// Relies on `encoding_rs::SHIFT_JIS.decode`: the decoded text, which depends on the bytes
/// alone, and whether malformed sequences were met.
#[verifier::external_body]
pub(crate) fn decode_shift_jis(b: &[u8]) -> (r: Option<String>)
    ensures
        match r {
            Some(s) => shift_jis_decoded(b@) == Some(s@),
            None => shift_jis_decoded(b@) is None,
        },
{
    let (res, _encoding, had_errors) = encoding_rs::SHIFT_JIS.decode(b);
    match had_errors {
        true => None,
        false => Some(res.into_owned()),
    }
}

/// Relies on `encoding_rs::SHIFT_JIS.encode`: the encoded bytes, which depend on the text
/// alone, and whether unmappable characters were met.
#[verifier::external_body]
pub(crate) fn encode_shift_jis(s: &str) -> (r: Option<Vec<u8>>)
    ensures
        match r {
            Some(b) => shift_jis_encoded(s@) == Some(b@),
            None => shift_jis_encoded(s@) is None,
        },
{
    let (res, _encoding, had_errors) = encoding_rs::SHIFT_JIS.encode(s);
    match had_errors {
        true => None,
        false => Some(res.into_owned()),
    }
}

/// Relies on `str::to_lowercase`: the result depends on the characters alone.
#[verifier::external_body]
pub(crate) fn lowercase(s: &str) -> (r: Vec<char>)
    ensures
        r@ == lower_of(s@),
{
    s.to_lowercase().chars().collect()
}

/// Whether `s` ends with `suffix`.
pub open spec fn ends_with(s: Seq<char>, suffix: Seq<char>) -> bool {
    s.len() >= suffix.len() && s.subrange(s.len() - suffix.len(), s.len() as int) == suffix
}

/// Whether the characters `s` end with the four characters `a b c d`.
pub fn ends_with4(s: &Vec<char>, a: char, b: char, c: char, d: char) -> (r: bool)
    ensures
        r == ends_with(s@, seq![a, b, c, d]),
{
    let n = s.len();
    if n < 4 {
        return false;
    }
    let r = s[n - 4] == a && s[n - 3] == b && s[n - 2] == c && s[n - 1] == d;
    assert(r == (s@.subrange(n - 4, n as int) =~= seq![a, b, c, d]));
    r
}

} // verus!
