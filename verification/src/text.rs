use vstd::prelude::*;
use vstd::string::*;
use vstd::utf8::*;

verus! {

/// `core::str::Utf8Error`, which says why bytes are no UTF-8. Nothing is read
/// from it.
#[verifier::external_type_specification]
#[verifier::external_body]
pub struct ExUtf8Error(core::str::Utf8Error);

/// `core::str::from_utf8` succeeds exactly on well-formed UTF-8, and the
/// string slice it then returns is made of the very bytes it was given.
pub assume_specification[ core::str::from_utf8 ](v: &[u8]) -> (r: Result<
    &str,
    core::str::Utf8Error,
>)
    ensures
        r is Ok <==> valid_utf8(v@),
        r matches Ok(s) ==> s.spec_bytes() == v@,
;

/// The character U+FFFD, shown in place of bytes that are no text.
pub open spec fn replacement() -> Seq<char> {
    seq!['\u{fffd}']
}

/// How a piece of the input is shown in a message: decoded where it is
/// well-formed UTF-8, as a single U+FFFD where it is not.
pub open spec fn display_text(bytes: Seq<u8>) -> Seq<char> {
    if valid_utf8(bytes) {
        decode_utf8(bytes)
    } else {
        replacement()
    }
}

/// Copies `bytes` into a string for use in a message.
pub fn to_text(bytes: &[u8]) -> (text: String)
    ensures
        text@ == display_text(bytes@),
{
    match core::str::from_utf8(bytes) {
        Ok(s) => {
            proof {
                encode_utf8_decode_utf8(s@);
            }
            String::from_str(s)
        },
        Err(_) => {
            proof {
                reveal_strlit("\u{fffd}");
            }
            String::from_str("\u{fffd}")
        },
    }
}

/// Whether `bytes` spell `word`.
pub fn is_word(bytes: &[u8], word: &str) -> (same: bool)
    ensures
        same == (bytes@ == word.spec_bytes()),
{
    let expected = word.as_bytes();
    if bytes.len() != expected.len() {
        return false;
    }
    let mut i: usize = 0;
    while i < bytes.len()
        invariant
            expected@ == word.spec_bytes(),
            bytes@.len() == expected@.len(),
            i <= bytes@.len(),
            forall|j: int| 0 <= j < i ==> bytes@[j] == expected@[j],
        decreases bytes@.len() - i,
    {
        if bytes[i] != expected[i] {
            return false;
        }
        i += 1;
    }
    assert(bytes@ =~= expected@);
    true
}

} // verus!
