use vstd::prelude::*;
use crate::registry_key::{RegistryKey, with_time_all};

verus! {

pub const TICKS_PER_SEC: u64 = 10_000_000;

/// Ticks from 1601-01-01 to 1970-01-01: 369 years of days plus 89 leap days.
pub const TICKS_1601_TO_1970: u64 = 86_400 * (369 * 365 + 89) * 10_000_000;

/// The largest POSIX second count whose FILETIME fits in 64 bits.
pub const MAX_FILETIME_SECONDS: u64 = (0xFFFF_FFFF_FFFF_FFFF - 86_400 * (369 * 365 + 89)
    * 10_000_000) / 10_000_000;

pub open spec fn spec_timestamp_to_filetime(ts: u64) -> u64
    recommends
        ts <= MAX_FILETIME_SECONDS,
{
    (ts * TICKS_PER_SEC + TICKS_1601_TO_1970) as u64
}

/// POSIX seconds to FILETIME ticks.
pub fn timestamp_to_filetime(timestamp: u64) -> (r: u64)
    requires
        timestamp <= MAX_FILETIME_SECONDS,
    ensures
        r == spec_timestamp_to_filetime(timestamp),
        r >= TICKS_1601_TO_1970,
{
    timestamp * TICKS_PER_SEC + TICKS_1601_TO_1970
}

pub open spec fn spec_filetime_to_timestamp(ft: u64) -> u64 {
    if ft >= TICKS_1601_TO_1970 {
        (((ft - TICKS_1601_TO_1970) as u64) / TICKS_PER_SEC) as u64
    } else {
        0
    }
}

/// FILETIME ticks back to POSIX seconds, by integer division; ticks before
/// the 1970 epoch report zero.
pub fn filetime_to_timestamp(filetime: u64) -> (r: u64)
    ensures
        r == spec_filetime_to_timestamp(filetime),
{
    if filetime >= TICKS_1601_TO_1970 {
        (filetime - TICKS_1601_TO_1970) / TICKS_PER_SEC
    } else {
        0
    }
}

/// The round trip from seconds through ticks loses nothing.
pub proof fn lemma_filetime_round_trip(ts: u64)
    requires
        ts <= MAX_FILETIME_SECONDS,
    ensures
        spec_filetime_to_timestamp(spec_timestamp_to_filetime(ts)) == ts,
{
    let ft = ts * TICKS_PER_SEC + TICKS_1601_TO_1970;
    assert((ft - TICKS_1601_TO_1970) as u64 == ts * TICKS_PER_SEC);
    assert((ts * TICKS_PER_SEC) as int / (TICKS_PER_SEC as int) == ts) by (nonlinear_arith)
        requires
            TICKS_PER_SEC > 0,
    ;
}

/// The type codes whose payloads are text.
pub fn is_string_type(ty: u32) -> (r: bool)
    ensures
        r == (ty == crate::registry_value::REG_SZ || ty == crate::registry_value::REG_EXPAND_SZ
            || ty == crate::registry_value::REG_MULTI_SZ),
{
    ty == 1 || ty == 2 || ty == 7
}

/// The payload prefix the textual format uses for a type code; types
/// without a dedicated spelling have none.
pub fn data_type_prefix(ty: u32) -> (r: &'static str)
    ensures
        ty == 1 ==> r@ == ""@,
        ty == 2 ==> r@ == "str(2):"@,
        ty == 7 ==> r@ == "str(7):"@,
        ty == 4 ==> r@ == "dword:"@,
        ty == 3 ==> r@ == "hex:"@,
        !(ty == 1 || ty == 2 || ty == 7 || ty == 4 || ty == 3) ==> r@ == ""@,
{
    match ty {
        1 => "",
        2 => "str(2):",
        7 => "str(7):",
        4 => "dword:",
        3 => "hex:",
        _ => "",
    }
}

/// Case-insensitive hexadecimal digit value.
pub fn hex_digit_value(c: char) -> (r: Option<u8>)
    ensures
        r == crate::text::spec_hex_digit(c),
{
    crate::text::hex_digit_value(c)
}

/// Relies on `std::time::SystemTime::now` and
/// `SystemTime::duration_since(UNIX_EPOCH)`: the wall clock as whole POSIX
/// seconds, zero when the clock reads before the epoch.  Nothing further can
/// be promised of a clock reading.
#[verifier::external_body]
fn now_posix_seconds() -> u64 {
    std::time::SystemTime::now().duration_since(std::time::SystemTime::UNIX_EPOCH).unwrap_or_default().as_secs()
}

/// Stamp the key and all its descendants with the current wall-clock
/// FILETIME (saturated to the representable range).
pub fn set_current_time_recursive(key: &mut RegistryKey)
    requires
        old(key)@.wf(),
    ensures
        exists|t: u64| final (key)@ == with_time_all(old(key)@, t),
        final (key)@.wf(),
{
    let now = now_posix_seconds();
    let ts = if now <= MAX_FILETIME_SECONDS {
        now
    } else {
        MAX_FILETIME_SECONDS
    };
    let ft = timestamp_to_filetime(ts);
    key.set_time_recursive(ft);
}

} // verus!
