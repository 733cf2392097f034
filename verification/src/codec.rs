//! Byte-to-text decoding: strict UTF-8 and EUC-JP.

use vstd::prelude::*;
use vstd::utf8::{valid_utf8, decode_utf8};

verus! {

/// The text of `r`, if any.
pub open spec fn opt_text(r: Option<String>) -> Option<Seq<char>> {
    match r {
        Some(s) => Some(s@),
        None => None,
    }
}

/// The text that well-formed UTF-8 bytes encode; `None` for malformed input.
pub open spec fn utf8_text(bytes: Seq<u8>) -> Option<Seq<char>> {
    if valid_utf8(bytes) {
        Some(decode_utf8(bytes))
    } else {
        None
    }
}

// What `encoding_rs::EUC_JP.decode` gives for `bytes` when it reports no
// malformed sequence (`None` when it does). The decoder honours a leading
// byte-order mark, so this is a function of the bytes alone.
pub uninterp spec fn euc_jp_text(bytes: Seq<u8>) -> Option<Seq<char>>;

/// Largest input handed to the EUC-JP decoder: it sizes its output buffer as
/// a small multiple of the input and panics when that size overflows.
pub open spec fn decodable_len(n: nat) -> bool {
    n <= isize::MAX / 4
}

/// Decodes `bytes` with `std::str::from_utf8`: the text when the bytes are
/// well-formed UTF-8, `None` otherwise.
#[verifier::external_body]
pub(crate) fn decode_utf8_strict(bytes: &[u8]) -> (r: Option<String>)
    ensures
        opt_text(r) == utf8_text(bytes@),
{
    match std::str::from_utf8(bytes) {
        Ok(s) => Some(String::from(s)),
        Err(_) => None,
    }
}

/// Decodes `bytes` with `encoding_rs::EUC_JP.decode`, keeping the text only
/// when the decoder reports no malformed sequence. What the text is (the
/// JIS X 0208 / 0212 tables, the byte-order-mark sniffing) is left to the
/// name `euc_jp_text`.
#[verifier::external_body]
pub(crate) fn decode_euc_jp_strict(bytes: &[u8]) -> (r: Option<String>)
    requires
        decodable_len(bytes@.len()),
    ensures
        opt_text(r) == euc_jp_text(bytes@),
{
    let (text, _encoding, had_errors) = encoding_rs::EUC_JP.decode(bytes);
    if had_errors {
        None
    } else {
        Some(text.into_owned())
    }
}

} // verus!
