//! Calls into the outside crates that the archive logic relies on.

use vstd::prelude::*;
use vstd::utf8::{decode_utf8, valid_utf8};
use crate::lzo::lzo_refs_in_range;

verus! {

/// The text that a lossy UTF-8 decoding makes of `b`.
pub uninterp spec fn lossy_text(b: Seq<u8>) -> Seq<char>;

/// What an LZO1X stream decompresses to, or `None` where it is not a valid stream.
pub uninterp spec fn lzo1x_decompressed(b: Seq<u8>) -> Option<Seq<u8>>;

/// Whether a shell-style glob pattern matches a path.
pub uninterp spec fn glob_matches(pattern: Seq<char>, path: Seq<char>) -> bool;

#[verifier::external_type_specification]
#[verifier::external_body]
pub struct ExLzoError(lzokay_native::Error);

/// Relies on `binread::NullString::into_string`, which decodes the bytes of a
/// null-terminated string with `String::from_utf8_lossy`: valid UTF-8 comes
/// out as it is.
#[verifier::external_body]
pub(crate) fn null_string_text(b: &[u8]) -> (r: String)
    ensures
        r@ == lossy_text(b@),
        valid_utf8(b@) ==> r@ == decode_utf8(b@),
{
    binread::NullString(b.to_vec()).into_string()
}

/// Relies on `lzokay_native::decompress_all`, which decodes one whole LZO1X
/// stream; its size argument only reserves capacity for the output. The
/// decoder panics on a back-reference before the start of its output, so the
/// stream must first pass `lzo_refs_in_range`.
#[verifier::external_body]
pub(crate) fn lzo_decompress(b: &[u8], capacity: usize) -> (r: Result<
    Vec<u8>,
    lzokay_native::Error,
>)
    requires
        lzo_refs_in_range(b@),
    ensures
        r is Ok <==> lzo1x_decompressed(b@) is Some,
        r is Ok ==> r->Ok_0@ == lzo1x_decompressed(b@)->0,
{
    lzokay_native::decompress_all(b, Some(capacity))
}

/// Relies on `glob_match::glob_match`: whether `pattern` matches `path`.
#[verifier::external_body]
pub(crate) fn glob_match_path(pattern: &str, path: &str) -> (r: bool)
    ensures
        r == glob_matches(pattern@, path@),
{
    glob_match::glob_match(pattern, path)
}

} // verus!
