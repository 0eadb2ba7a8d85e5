//! Bytes and the texts that they encode.
use vstd::prelude::*;
use vstd::utf8::*;

verus! {

/// `str::from_utf8` of std: the text that the bytes encode, where they are
/// UTF-8.
#[verifier::external_body]
pub(crate) fn utf8_text(bytes: &[u8]) -> (r: Option<String>)
    ensures
        match r {
            Some(s) => valid_utf8(bytes@) && s@ == decode_utf8(bytes@),
            None => !valid_utf8(bytes@),
        },
{
    std::str::from_utf8(bytes).ok().map(|s| s.to_string())
}

/// The text that `String::from_utf8_lossy` of std makes of bytes.
pub uninterp spec fn lossy_of(bytes: Seq<u8>) -> Seq<char>;

/// `String::from_utf8_lossy` of std: the text that the bytes encode, where they
/// are UTF-8. What stands for other bytes is only named.
#[verifier::external_body]
pub(crate) fn lossy(bytes: &[u8]) -> (s: String)
    ensures
        s@ == lossy_of(bytes@),
        valid_utf8(bytes@) ==> s@ == decode_utf8(bytes@),
{
    String::from_utf8_lossy(bytes).into_owned()
}

/// Whether the bytes encode the text.
pub fn bytes_are(bytes: &[u8], text: &str) -> (b: bool)
    ensures
        b == (bytes@ == encode_utf8(text@)),
{
    let other = text.as_bytes();
    if bytes.len() != other.len() {
        return false;
    }
    let mut i: usize = 0;
    while i < bytes.len()
        invariant
            i <= bytes.len() == other.len(),
            other@ == encode_utf8(text@),
            forall|j: int| 0 <= j < i ==> bytes@[j] == other@[j],
        decreases bytes.len() - i,
    {
        if bytes[i] != other[i] {
            return false;
        }
        i = i + 1;
    }
    assert(bytes@ =~= other@);
    true
}

} // verus!
