//! UTF-8 text in byte strings.

use vstd::prelude::*;
use vstd::utf8::{decode_utf8, decode_utf8_encode_utf8, encode_utf8, valid_utf8};

verus! {

/// The text that `String::from_utf8_lossy` makes of `bytes`.
pub uninterp spec fn spec_utf8_lossy(bytes: Seq<u8>) -> Seq<char>;

/// Whether `bytes` is valid UTF-8.
///
/// Calls `std::str::from_utf8`, which succeeds on exactly the byte strings
/// that are valid UTF-8; the contract says so over vstd's definition of
/// valid UTF-8, and nothing of it is proved here.
#[verifier::external_body]
pub(crate) fn is_utf8(bytes: &[u8]) -> (valid: bool)
    ensures
        valid == valid_utf8(bytes@),
{
    std::str::from_utf8(bytes).is_ok()
}

/// The text of `bytes`, with each invalid sequence replaced by U+FFFD.
///
/// Calls `String::from_utf8_lossy`. The contract names its result, and
/// claims of it only what the documentation gives: valid UTF-8 comes out
/// as the text that it encodes. Nothing of it is proved here.
#[verifier::external_body]
pub(crate) fn utf8_lossy(bytes: &[u8]) -> (text: String)
    ensures
        text@ == spec_utf8_lossy(bytes@),
        valid_utf8(bytes@) ==> text@ == decode_utf8(bytes@),
{
    String::from_utf8_lossy(bytes).into_owned()
}

/// The text of `bytes`: what valid UTF-8 encodes, and for other bytes what
/// `String::from_utf8_lossy` makes of them.
pub open spec fn utf8_text(bytes: Seq<u8>) -> Seq<char> {
    if valid_utf8(bytes) {
        decode_utf8(bytes)
    } else {
        spec_utf8_lossy(bytes)
    }
}

/// The text of `bytes`, with each invalid sequence replaced by U+FFFD.
pub fn lossy_text(bytes: &[u8]) -> (text: String)
    ensures
        text@ == utf8_text(bytes@),
{
    utf8_lossy(bytes)
}

/// The bytes of two texts one after the other are the bytes of the first
/// followed by those of the second.
pub proof fn lemma_encode_utf8_concat(first: Seq<char>, second: Seq<char>)
    ensures
        encode_utf8(first + second) == encode_utf8(first) + encode_utf8(second),
    decreases first.len(),
{
    if first.len() == 0 {
        assert(first + second =~= second);
        assert(encode_utf8(first) + encode_utf8(second) =~= encode_utf8(second));
    } else {
        lemma_encode_utf8_concat(first.drop_first(), second);
        assert((first + second).drop_first() =~= first.drop_first() + second);
        assert(encode_utf8(first + second) =~= encode_utf8(first) + encode_utf8(second));
    }
}

/// Behind a text, the text of valid UTF-8 takes the bytes that it was made of.
pub proof fn lemma_text_of_valid_utf8(before: Seq<char>, bytes: Seq<u8>)
    requires
        valid_utf8(bytes),
    ensures
        encode_utf8(before + utf8_text(bytes)) == encode_utf8(before) + bytes,
{
    lemma_encode_utf8_concat(before, decode_utf8(bytes));
    decode_utf8_encode_utf8(bytes);
}

} // verus!
