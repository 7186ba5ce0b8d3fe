//! Sizes and times as text: reading a size with its unit, and writing a
//! modification time as a date.

use crate::number::{parse_unsigned, unsigned_from_text};
use crate::text::{chars_of, slice_of, trim, trim_bounds};
use vstd::prelude::*;

verus! {

/// Bytes in a kilobyte.
pub const KB: u64 = 1024;

/// Bytes in a megabyte.
pub const MB: u64 = 1048576;

/// Bytes in a gigabyte.
pub const GB: u64 = 1073741824;

/// The number of bytes that a unit of two letters stands for, whatever the
/// case of the letters: `KB`, `MB` or `GB`. Any other text is no unit.
pub open spec fn unit_multiplier(unit: Seq<char>) -> Option<u64> {
    if unit.len() != 2 || !(unit[1] == 'B' || unit[1] == 'b') {
        None
    } else if unit[0] == 'K' || unit[0] == 'k' {
        Some(KB)
    } else if unit[0] == 'M' || unit[0] == 'm' {
        Some(MB)
    } else if unit[0] == 'G' || unit[0] == 'g' {
        Some(GB)
    } else {
        None
    }
}

/// The size in bytes that a text denotes. Whitespace around the text does not
/// count. The last two characters are the unit, and what stands before them
/// is the number: an unsigned integer, directly followed by the unit. `None`
/// where the text is too short, the number or the unit is not recognised, or
/// the size does not fit in 64 bits.
pub open spec fn size_from_text(text: Seq<char>) -> Option<u64> {
    let trimmed = trim(text);
    if trimmed.len() < 2 {
        None
    } else {
        let split = trimmed.len() - 2;
        match (unsigned_from_text(trimmed.take(split)), unit_multiplier(trimmed.skip(split))) {
            (Some(number), Some(unit)) => if number * unit <= u64::MAX {
                Some((number * unit) as u64)
            } else {
                None
            },
            _ => None,
        }
    }
}

fn multiplier_of(first: char, second: char) -> (unit: Option<u64>)
    ensures
        unit == unit_multiplier(seq![first, second]),
{
    if !(second == 'B' || second == 'b') {
        None
    } else if first == 'K' || first == 'k' {
        Some(KB)
    } else if first == 'M' || first == 'm' {
        Some(MB)
    } else if first == 'G' || first == 'g' {
        Some(GB)
    } else {
        None
    }
}

/// Reads a size from characters: see [`size_from_text`].
pub fn size_from_chars(text: &[char]) -> (size: Option<u64>)
    ensures
        size == size_from_text(text@),
{
    let (start, end) = trim_bounds(text);
    if end - start < 2 {
        return None;
    }
    let ghost trimmed = trim(text@);
    let split = end - 2;
    let digits = slice_of(text, start, split);
    assert(digits@ == trimmed.take(trimmed.len() - 2));
    assert(trimmed.skip(trimmed.len() - 2) == seq![text@[split as int], text@[split + 1]]);
    let number = match parse_unsigned(digits.as_slice()) {
        Some(number) => number,
        None => {
            return None;
        },
    };
    let unit = match multiplier_of(text[split], text[split + 1]) {
        Some(unit) => unit,
        None => {
            return None;
        },
    };
    number.checked_mul(unit)
}

/// Reads a size such as `10KB`, `3mb` or `1GB` from a string: see [`size_from_text`].
pub fn format_size_from_string(size_str: &str) -> (size: Option<u64>)
    ensures
        size == size_from_text(size_str@),
{
    let text = chars_of(size_str);
    size_from_chars(text.as_slice())
}

/// The text that `chrono` writes for a Unix time, taken as UTC and laid out
/// as year-month-day hour:minute:second; `None` where `chrono` has no date
/// for the time.
pub uninterp spec fn utc_text(seconds: i64) -> Option<Seq<char>>;

/// `chrono::DateTime::from_timestamp`, then `format` with the layout
/// `%Y-%m-%d %H:%M:%S`. The result depends on the seconds alone; what it is
/// for given seconds is not stated here. Believed of `chrono`, not proved.
#[verifier::external_body]
fn utc_text_of(seconds: i64) -> (text: Option<String>)
    ensures
        match text {
            Some(written) => utc_text(seconds) == Some(written@),
            None => utc_text(seconds) is None,
        },
{
    match chrono::DateTime::from_timestamp(seconds, 0) {
        Some(time) => Some(time.format("%Y-%m-%d %H:%M:%S").to_string()),
        None => None,
    }
}

/// Writes a modification time as a UTC date and time of day.
pub fn format_time(modified: i64) -> (written: String)
    requires
        modified >= 0,
        utc_text(modified) is Some,
    ensures
        Some(written@) == utc_text(modified),
{
    utc_text_of(modified).unwrap()
}

/// Writes a modification time as a UTC date and time of day, if it lies at
/// or after the epoch and `chrono` has a date for it.
pub fn try_format_time(modified: i64) -> (written: Option<String>)
    ensures
        written is Some <==> modified >= 0 && utc_text(modified) is Some,
        written matches Some(text) ==> Some(text@) == utc_text(modified),
{
    if modified >= 0 && utc_text_of(modified).is_some() {
        Some(format_time(modified))
    } else {
        None
    }
}

/// `SystemTime::now`, as whole seconds since the Unix epoch, or `None` if
/// the clock stands before the epoch. Nothing is claimed of the value.
#[verifier::external_body]
fn seconds_since_epoch() -> Option<u64> {
    match std::time::SystemTime::now().duration_since(std::time::UNIX_EPOCH) {
        Ok(elapsed) => Some(elapsed.as_secs()),
        Err(_) => None,
    }
}

/// The Unix time for a number of whole seconds since the epoch: the number
/// itself, as far as 63 bits hold it; -1 for a time before the epoch.
pub open spec fn unix_time_of(since_epoch: Option<u64>) -> i64 {
    match since_epoch {
        Some(seconds) => if seconds <= i64::MAX {
            seconds as i64
        } else {
            i64::MAX
        },
        None => -1i64,
    }
}

/// The Unix time for a number of whole seconds since the epoch, or for a
/// time before it.
pub fn unix_time(since_epoch: Option<u64>) -> (time: i64)
    ensures
        time == unix_time_of(since_epoch),
{
    match since_epoch {
        Some(seconds) => if seconds <= i64::MAX as u64 {
            seconds as i64
        } else {
            i64::MAX
        },
        None => -1,
    }
}

/// The Unix time at the moment of the call: the Unix time of what the clock
/// read, whatever that was. So it is -1 where the clock stands before the
/// epoch, and a count of seconds since the epoch otherwise.
pub fn now() -> (time: i64)
    ensures
        exists|since_epoch: Option<u64>| time == #[trigger] unix_time_of(since_epoch),
        time >= -1,
{
    let since_epoch = seconds_since_epoch();
    let time = unix_time(since_epoch);
    assert(time == unix_time_of(since_epoch));
    time
}

} // verus!
