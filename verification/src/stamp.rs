//! What a record takes from outside when it is made: the wall clock and a
//! fresh identifier.
use std::time::{Duration, SystemTime, SystemTimeError};

use vstd::prelude::*;

verus! {

#[verifier::external_type_specification]
#[verifier::external_body]
pub struct ExSystemTime(SystemTime);

#[verifier::external_type_specification]
#[verifier::external_body]
pub struct ExSystemTimeError(SystemTimeError);

/// `SystemTime::now` reads the machine's clock: nothing is known of it.
pub assume_specification[ SystemTime::now ]() -> SystemTime
;

/// `SystemTime::duration_since`: an error where `earlier` is later than `t`.
/// Nothing is stated of either outcome, since the times are opaque.
pub assume_specification[ SystemTime::duration_since ](
    t: &SystemTime,
    earlier: SystemTime,
) -> Result<Duration, SystemTimeError>
;

/// `Duration::as_millis`: the whole milliseconds of a duration. Nothing is
/// stated of the count, since the duration is opaque.
pub assume_specification[ Duration::as_millis ](d: &Duration) -> u128
;

/// `SystemTime::UNIX_EPOCH`, a point in time that carries no number here.
#[verifier::external_body]
fn unix_epoch() -> SystemTime {
    SystemTime::UNIX_EPOCH
}

/// Milliseconds on the clock, as a signed count; 0 where the clock stands
/// before the epoch.
pub open spec fn clock_ms(millis: Option<u128>) -> int {
    match millis {
        Some(m) => {
            let low = m as int % 0x1_0000_0000_0000_0000;
            if low < 0x8000_0000_0000_0000 {
                low
            } else {
                low - 0x1_0000_0000_0000_0000
            }
        },
        None => 0,
    }
}

/// The signed count for a reading of the clock (`None`: before the epoch).
pub fn ms_of(millis: Option<u128>) -> (r: i64)
    ensures
        r == clock_ms(millis),
{
    match millis {
        Some(m) => {
            let low: u128 = m % 0x1_0000_0000_0000_0000u128;
            if low < 0x8000_0000_0000_0000u128 {
                low as i64
            } else {
                let up: u128 = 0x1_0000_0000_0000_0000u128 - low;
                if up == 0x8000_0000_0000_0000u128 {
                    i64::MIN
                } else {
                    -(up as i64)
                }
            }
        },
        None => 0,
    }
}

/// The current time in milliseconds since the epoch.
pub fn now_ms() -> i64 {
    match SystemTime::now().duration_since(unix_epoch()) {
        Ok(d) => ms_of(Some(d.as_millis())),
        Err(_) => ms_of(None),
    }
}

/// The 32 symbols of Crockford's base 32: digits and capitals without
/// `I`, `L`, `O` and `U`.
pub open spec fn is_symbol(c: char) -> bool {
    ||| '0' <= c <= '9'
    ||| ('A' <= c <= 'Z' && c != 'I' && c != 'L' && c != 'O' && c != 'U')
}

/// Whether `id` has the form of a fresh identifier.
pub open spec fn is_id(id: Seq<char>) -> bool {
    &&& id.len() == 26
    &&& forall|i: int| 0 <= i < id.len() ==> is_symbol(#[trigger] id[i])
}

/// `ulid::Ulid::new`, written out with `Ulid::to_string`: 26 symbols of
/// Crockford's base 32. Which ones depends on the clock and on chance.
#[verifier::external_body]
pub(crate) fn new_id() -> (id: String)
    ensures
        is_id(id@),
{
    ulid::Ulid::new().to_string()
}

} // verus!
