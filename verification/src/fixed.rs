//! The heapless rendering path: the same formatter, written into a
//! fixed-capacity 27-byte buffer for environments without a heap.
//!
//! The buffer type comes from the `heapless` crate and is opaque to the
//! verifier; `fixed_chars` names its contents, and the two wrappers state what
//! the crate's operations do to them.

use crate::render::{
    format_unix, lemma_timestamp_shape, timestamp_seq, Timestamp, SECONDS_OF_YEAR_10000,
};
use vstd::prelude::*;

verus! {

#[verifier::external_type_specification]
#[verifier::external_body]
pub struct ExHeaplessString<const N: usize>(heapless::String<N>);

/// A rendered RFC3339 timestamp in a fixed-capacity buffer; 27 bytes hold the
/// full `YYYY-MM-DDTHH:MM:SS.ffffffZ` rendering of any four-digit year.
pub type FixedTimestamp = heapless::String<27>;

/// The characters held by a fixed-capacity timestamp buffer.
pub uninterp spec fn fixed_chars(s: FixedTimestamp) -> Seq<char>;

/// Relies on heapless::String::new: a freshly constructed fixed-capacity
/// string is empty.
#[verifier::external_body]
fn fixed_new() -> (r: FixedTimestamp)
    ensures
        fixed_chars(r) == Seq::<char>::empty(),
{
    heapless::String::new()
}

/// Relies on heapless::String::push_str: when the appended string's byte
/// length fits the remaining capacity, the whole string is stored and the call
/// returns Ok.  An ASCII string is one byte per character, so under the
/// preconditions the append cannot fail and its result needs no inspection.
#[verifier::external_body]
fn fixed_push_str(out: &mut FixedTimestamp, s: &str)
    requires
        vstd::utf8::is_ascii_chars(s@),
        fixed_chars(*old(out)).len() + s@.len() <= 27,
    ensures
        fixed_chars(*final(out)) == fixed_chars(*old(out)) + s@,
{
    let _ = out.push_str(s);
}

/// Converts a Unix timestamp into an RFC3339 date-time string in UTC, stored
/// in a fixed-capacity buffer.
///
/// The rendering is identical to [`format_unix`]; the domain is restricted to
/// instants whose rendering is exactly 27 characters (four-digit year,
/// in-range microseconds), so that the buffer is always large enough and no
/// silent truncation can occur.
pub fn format_unix_fixed(seconds: u64, micros: u32) -> (r: FixedTimestamp)
    requires
        seconds < SECONDS_OF_YEAR_10000,
        micros < 1000000,
    ensures
        fixed_chars(r) == timestamp_seq(seconds as int, micros as int),
{
    proof {
        lemma_timestamp_shape(seconds as int, micros as int);
    }
    let s: Timestamp = format_unix(seconds, micros);
    assert(vstd::utf8::is_ascii_chars(s@)) by {
        assert(forall|i: int|
            0 <= i < s@.len() ==> '\0' <= #[trigger] s@[i] <= '\u{7f}');
    }
    let mut out = fixed_new();
    fixed_push_str(&mut out, s.as_str());
    proof {
        assert(fixed_chars(out) =~= timestamp_seq(seconds as int, micros as int));
    }
    out
}

} // verus!
