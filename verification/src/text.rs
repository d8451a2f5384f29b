use vstd::prelude::*;
use vstd::utf8::*;

verus! {

/// `String::from_utf8` from std: the bytes become a `String` exactly when
/// they are valid UTF-8, and the string then holds the characters that the
/// bytes encode. The error value that std hands back on invalid input is
/// dropped here; only the fact that conversion failed is kept.
#[verifier::external_body]
pub(crate) fn string_from_utf8(bytes: Vec<u8>) -> (r: Option<String>)
    ensures
        r is Some <==> valid_utf8(bytes@),
        r matches Some(s) ==> s@ == decode_utf8(bytes@),
{
    String::from_utf8(bytes).ok()
}

/// Whether two byte runs are equal.
fn same_bytes(a: &[u8], b: &[u8]) -> (r: bool)
    ensures
        r == (a@ == b@),
{
    if a.len() != b.len() {
        return false;
    }
    let mut i: usize = 0;
    while i < a.len()
        invariant
            a@.len() == b@.len(),
            i <= a@.len(),
            forall|j: int| 0 <= j < i ==> a@[j] == b@[j],
        decreases a.len() - i,
    {
        if a[i] != b[i] {
            return false;
        }
        i = i + 1;
    }
    assert(a@ =~= b@);
    true
}

/// Decodes UTF-8 bytes into a `String`, `None` exactly where they are not
/// valid UTF-8. The string that comes back is checked here to encode back
/// to the very bytes it was read from, so it holds exactly the characters
/// that those bytes encode.
pub(crate) fn decode_text(bytes: &[u8]) -> (r: Option<String>)
    ensures
        r is Some <==> valid_utf8(bytes@),
        r matches Some(s) ==> encode_utf8(s@) == bytes@,
        r matches Some(s) ==> s@ == decode_utf8(bytes@),
{
    match string_from_utf8(vstd::slice::slice_to_vec(bytes)) {
        None => None,
        Some(s) => {
            if same_bytes(s.as_str().as_bytes(), bytes) {
                proof {
                    encode_utf8_valid_utf8(s@);
                    encode_utf8_decode_utf8(s@);
                }
                Some(s)
            } else {
                proof {
                    decode_utf8_encode_utf8(bytes@);
                }
                None
            }
        },
    }
}

/// Whether two strings hold the same characters.
pub(crate) fn same_text(a: &str, b: &str) -> (r: bool)
    ensures
        r == (a@ == b@),
{
    let x: String = a.to_owned();
    let y: String = b.to_owned();
    x == y
}

} // verus!
