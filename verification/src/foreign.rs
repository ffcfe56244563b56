//! What the library takes from the standard library on trust: conversions between bytes and text,
//! and the clock.

use vstd::prelude::*;
use vstd::utf8::*;

verus! {

/// What `String::from_utf8_lossy` makes of a byte string.
pub uninterp spec fn lossy_text(bytes: Seq<u8>) -> Seq<char>;

/// Calls `String::from_utf8_lossy`, which turns any bytes into text and puts the replacement
/// character in the place of what is not UTF-8. Bytes that are UTF-8 come out as the text they
/// encode; of other bytes only that the same bytes always give the same text is claimed.
#[verifier::external_body]
pub(crate) fn text_lossy(bytes: &Vec<u8>) -> (text: String)
    ensures
        text@ == lossy_text(bytes@),
        valid_utf8(bytes@) ==> text@ == decode_utf8(bytes@),
{
    String::from_utf8_lossy(bytes).into_owned()
}

/// Calls `String::from_utf8`, which succeeds exactly on bytes that are UTF-8 and then gives the
/// text whose encoding they are.
#[verifier::external_body]
pub(crate) fn text_checked(bytes: Vec<u8>) -> (text: Option<String>)
    ensures
        text is Some <==> valid_utf8(bytes@),
        text matches Some(t) ==> encode_utf8(t@) == bytes@,
{
    String::from_utf8(bytes).ok()
}

/// A reading of the system clock.
#[verifier::external_type_specification]
#[verifier::external_body]
pub struct ExSystemTime(std::time::SystemTime);

/// The error for a reading of the clock that lies before the one it is compared with.
#[verifier::external_type_specification]
#[verifier::external_body]
pub struct ExSystemTimeError(std::time::SystemTimeError);

/// Calls `SystemTime::now`, which reads the clock. Nothing is claimed of the reading.
#[verifier::external_body]
pub(crate) fn clock() -> (now: std::time::SystemTime) {
    std::time::SystemTime::now()
}

/// Calls `SystemTime::duration_since` with the Unix epoch, which fails on a reading before it.
/// Nothing is claimed of the span.
#[verifier::external_body]
pub(crate) fn since_epoch(now: std::time::SystemTime) -> (span: Result<
    std::time::Duration,
    std::time::SystemTimeError,
>) {
    now.duration_since(std::time::UNIX_EPOCH)
}

/// Calls `Duration::as_millis`, which counts the whole milliseconds in a span. What span it is
/// given depends on the clock, so nothing is claimed of the count.
#[verifier::external_body]
pub(crate) fn millis(span: std::time::Duration) -> (count: u128) {
    span.as_millis()
}

} // verus!
