//! The clock, and text at the start of a line.

use crate::rope::{slice_chars, slice_len_chars, slice_text};
use crate::text::chars_of;
use ropey::RopeSlice;
use std::time::SystemTime;
use vstd::prelude::*;

verus! {

/// `SystemTime::elapsed` on the Unix epoch: how long ago it was by the clock, in whole seconds and
/// the nanoseconds beyond them, of which there are less than one billion. `None` where the clock is
/// set to a time before the epoch. Nothing more is claimed of what the clock says.
#[verifier::external_body]
fn clock_reading() -> (reading: Option<(u64, u32)>)
    ensures
        reading matches Some((secs, nanos)) ==> nanos < 1_000_000_000,
{
    match SystemTime::UNIX_EPOCH.elapsed() {
        Ok(elapsed) => Some((elapsed.as_secs(), elapsed.subsec_nanos())),
        Err(_) => None,
    }
}

/// The whole milliseconds in a time of `secs` seconds and `nanos` nanoseconds.
pub open spec fn whole_millis(secs: u64, nanos: u32) -> int {
    secs * 1000 + nanos as int / 1_000_000
}

/// Whether the clock can be read as `reading`.
pub closed spec fn is_reading(reading: Option<(u64, u32)>) -> bool {
    call_ensures(clock_reading, (), reading)
}

/// Whether `now` is the time that a reading of the clock in seconds and nanoseconds gives: as much
/// of its milliseconds as a `usize` holds, and none where the clock gave none.
pub open spec fn is_time_of(reading: Option<(u64, u32)>, now: Option<usize>) -> bool {
    match reading {
        Some((secs, nanos)) => now matches Some(bits) && bits == whole_millis(secs, nanos) % (
        usize::MAX + 1),
        None => now is None,
    }
}

/// As much of `millis` as a `usize` holds: its low bits.
pub fn low_bits(millis: u128) -> (bits: usize)
    ensures
        bits == millis as int % (usize::MAX + 1),
{
    (millis % (usize::MAX as u128 + 1)) as usize
}

/// The time in milliseconds that a reading of the clock in seconds and nanoseconds gives: as much
/// of it as a `usize` holds, and none where the clock gave none.
pub fn time_of(reading: Option<(u64, u32)>) -> (now: Option<usize>)
    ensures
        is_time_of(reading, now),
{
    match reading {
        Some((secs, nanos)) => Some(
            low_bits(secs as u128 * 1000 + nanos as u128 / 1_000_000),
        ),
        None => None,
    }
}

/// The current time in milliseconds since the Unix epoch, as much of it as a `usize` holds. `None`
/// where the clock is set to a time before the epoch. The result comes from a reading of the clock;
/// of what the clock says nothing is claimed.
pub fn time() -> (now: Option<usize>)
    ensures
        exists|reading: Option<(u64, u32)>|
            #[trigger] is_reading(reading) && is_time_of(reading, now),
{
    let reading = clock_reading();
    assert(is_reading(reading));
    time_of(reading)
}

/// Whether the text of a slice starts with `text`.
pub fn rope_starts_with(slice: &RopeSlice<'_>, text: &str) -> (starts: bool)
    ensures
        starts == text@.is_prefix_of(slice_text(*slice)),
{
    let wanted = chars_of(text);
    if slice_len_chars(slice) < wanted.len() {
        return false;
    }
    let chars = slice_chars(slice);
    let mut i: usize = 0;
    while i < wanted.len()
        invariant
            wanted@ == text@,
            chars@ == slice_text(*slice),
            i <= wanted@.len() <= chars@.len(),
            forall|j: int| 0 <= j < i ==> wanted@[j] == chars@[j],
        decreases wanted@.len() - i,
    {
        if chars[i] != wanted[i] {
            assert(slice_text(*slice).subrange(0, text@.len() as int)[i as int] != text@[i as int]);
            return false;
        }
        i += 1;
    }
    assert(slice_text(*slice).subrange(0, text@.len() as int) =~= text@);
    true
}

} // verus!
