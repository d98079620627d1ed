use vstd::prelude::*;

verus! {

/// The UTF-8 encoding of a character sequence.
pub uninterp spec fn utf8_of(s: Seq<char>) -> Seq<u8>;

/// The text that lossy UTF-16 decoding makes of a sequence of code
/// units: a function of the units alone.
pub uninterp spec fn utf16_lossy_of(units: Seq<u16>) -> Seq<char>;

/// Relies on `str::as_bytes`: a string's bytes are the UTF-8 encoding of
/// its characters.
#[verifier::external_body]
pub fn utf8_encode(s: &str) -> (r: Vec<u8>)
    ensures
        r@ == utf8_of(s@),
{
    s.as_bytes().to_vec()
}

/// Relies on `String::from_utf8`: it succeeds exactly on buffers that
/// are the UTF-8 encoding of some text, the text it returns encodes back
/// to the input buffer, and no other text shares that encoding (UTF-8
/// decoding is unambiguous).
#[verifier::external_body]
pub fn utf8_decode(b: Vec<u8>) -> (r: Option<String>)
    ensures
        r matches Some(s) ==> utf8_of(s@) == b@,
        r matches Some(s) ==> forall|t: Seq<char>| utf8_of(t) == b@ ==> t == s@,
        r is None ==> forall|t: Seq<char>| utf8_of(t) != b@,
{
    String::from_utf8(b).ok()
}

/// Relies on `String::from_utf16_lossy`: the result depends on the code
/// units alone.
#[verifier::external_body]
pub fn utf16_lossy(units: &Vec<u16>) -> (r: String)
    ensures
        r@ == utf16_lossy_of(units@),
{
    String::from_utf16_lossy(units.as_slice())
}

} // verus!
