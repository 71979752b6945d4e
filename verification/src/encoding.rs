//! Bytes and the text that they encode.

use vstd::prelude::*;
use vstd::utf8::*;

verus! {

/// What is wrong with `bytes` as UTF-8, in the words of the standard library.
pub uninterp spec fn utf8_fault(bytes: Seq<u8>) -> Seq<char>;

/// `bytes` as text for display, where what is not UTF-8 is replaced.
pub uninterp spec fn lossy_text(bytes: Seq<u8>) -> Seq<char>;

/// The text that `bytes` encode, if they are UTF-8.
pub open spec fn decoded(bytes: Seq<u8>) -> Result<Seq<char>, Seq<char>> {
    if valid_utf8(bytes) {
        Ok(decode_utf8(bytes))
    } else {
        Err(utf8_fault(bytes))
    }
}

/// Calls `std::str::from_utf8`. It accepts exactly the valid UTF-8, gives the text that the bytes
/// encode, and otherwise an error whose display depends on the bytes alone.
#[verifier::external_body]
fn from_utf8(bytes: &[u8]) -> (text: Result<&str, String>)
    ensures
        match text {
            Ok(text) => valid_utf8(bytes@) && text@ == decode_utf8(bytes@),
            Err(cause) => !valid_utf8(bytes@) && cause@ == utf8_fault(bytes@),
        },
{
    match std::str::from_utf8(bytes) {
        Ok(text) => Ok(text),
        Err(cause) => Err(cause.to_string()),
    }
}

/// Calls `String::from_utf8_lossy`. The result depends on the bytes alone, and valid UTF-8 comes
/// out as the text that it encodes.
#[verifier::external_body]
fn from_utf8_lossy(bytes: &[u8]) -> (text: String)
    ensures
        text@ == lossy_text(bytes@),
        valid_utf8(bytes@) ==> text@ == decode_utf8(bytes@),
{
    String::from_utf8_lossy(bytes).into_owned()
}

/// Decodes UTF-8; the error says in words why the bytes are none.
pub fn decode(bytes: &Vec<u8>) -> (text: Result<String, String>)
    ensures
        match text {
            Ok(text) => decoded(bytes@) == Ok::<Seq<char>, Seq<char>>(text@),
            Err(cause) => decoded(bytes@) == Err::<Seq<char>, Seq<char>>(cause@),
        },
{
    match from_utf8(bytes.as_slice()) {
        Ok(text) => Ok(text.to_owned()),
        Err(cause) => Err(cause),
    }
}

/// Decodes bytes for display.
pub fn decode_lossy(bytes: &Vec<u8>) -> (text: String)
    ensures
        text@ == lossy_text(bytes@),
        valid_utf8(bytes@) ==> text@ == decode_utf8(bytes@),
{
    from_utf8_lossy(bytes.as_slice())
}

/// The bytes that encode `text`.
pub fn encode(text: &str) -> (bytes: Vec<u8>)
    ensures
        bytes@ == encode_utf8(text@),
{
    text.as_bytes_vec()
}

/// Whether two lists of bytes are equal.
pub fn same_bytes(left: &Vec<u8>, right: &Vec<u8>) -> (equal: bool)
    ensures
        equal == (left@ == right@),
{
    if left.len() != right.len() {
        return false;
    }
    let mut at: usize = 0;
    while at < left.len()
        invariant
            left.len() == right.len(),
            at <= left.len(),
            forall|k: int| 0 <= k < at ==> left@[k] == right@[k],
        decreases left.len() - at,
    {
        if left[at] != right[at] {
            return false;
        }
        at = at + 1;
    }
    assert(left@ =~= right@);
    true
}

/// A copy of a list of bytes.
pub fn copied(bytes: &Vec<u8>) -> (copy: Vec<u8>)
    ensures
        copy@ == bytes@,
{
    let mut copy: Vec<u8> = Vec::new();
    let mut at: usize = 0;
    while at < bytes.len()
        invariant
            at <= bytes.len(),
            copy@ == bytes@.take(at as int),
        decreases bytes.len() - at,
    {
        copy.push(bytes[at]);
        at = at + 1;
    }
    assert(bytes@.take(at as int) =~= bytes@);
    copy
}

} // verus!
