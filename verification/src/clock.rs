//! The wall clock, read once per call.
use vstd::prelude::*;

verus! {

/// Reads the system clock through `std::time::SystemTime::now` and
/// `SystemTime::duration_since(UNIX_EPOCH)`: whole seconds since the Unix epoch
/// and the milliseconds within the current second (`Duration::as_secs`,
/// `Duration::subsec_millis`), or `None` when the clock stands before the epoch.
/// The only thing claimed of the reading is what `subsec_millis` documents: the
/// milliseconds are below one thousand. Which time it returns is not stated.
#[verifier::external_body]
fn read_clock() -> (r: Option<(u64, u32)>)
    ensures
        r matches Some(t) ==> t.1 < 1000,
{
    match std::time::SystemTime::now().duration_since(std::time::UNIX_EPOCH) {
        Ok(d) => Some((d.as_secs(), d.subsec_millis())),
        Err(_) => None,
    }
}

/// `Duration::as_millis() as u64` for a duration of `secs` seconds and `ms`
/// milliseconds: the total number of milliseconds, truncated to 64 bits.
pub open spec fn millis_of(secs: u64, ms: u32) -> u64 {
    ((secs * 1000 + ms) % 0x1_0000_0000_0000_0000) as u64
}

/// The milliseconds since the Unix epoch that a clock reading gives (0 for a
/// clock before the epoch).
pub open spec fn reading_millis(t: Option<(u64, u32)>) -> u64 {
    match t {
        Some((secs, ms)) => millis_of(secs, ms),
        None => 0,
    }
}

/// The whole seconds since the Unix epoch that a clock reading gives (0 for a
/// clock before the epoch).
pub open spec fn reading_secs(t: Option<(u64, u32)>) -> u64 {
    match t {
        Some((secs, _)) => secs,
        None => 0,
    }
}

/// Whether a clock reading has its milliseconds within the second.
pub open spec fn reading_ok(t: Option<(u64, u32)>) -> bool {
    t matches Some(x) ==> x.1 < 1000
}

/// A reading of `secs` seconds and `ms` milliseconds is `secs * 1000 + ms`
/// milliseconds: read back, it gives the same whole seconds and the same
/// milliseconds within the second, as long as the total fits in 64 bits.
pub proof fn lemma_millis_of_reading(secs: u64, ms: u32)
    requires
        ms < 1000,
        secs * 1000 + ms <= u64::MAX,
    ensures
        millis_of(secs, ms) == secs * 1000 + ms,
        millis_of(secs, ms) / 1000 == secs,
        millis_of(secs, ms) % 1000 == ms,
        reading_millis(Some((secs, ms))) / 1000 == reading_secs(Some((secs, ms))),
{
    let total: int = secs * 1000 + ms;
    assert(total % 0x1_0000_0000_0000_0000 == total) by {
        vstd::arithmetic::div_mod::lemma_small_mod(total as nat, 0x1_0000_0000_0000_0000);
    }
    assert(total / 1000 == secs && total % 1000 == ms) by (nonlinear_arith)
        requires
            total == secs * 1000 + ms,
            0 <= ms < 1000,
            secs >= 0,
    ;
}

/// The clock reading in milliseconds since the Unix epoch, as
/// `duration_since(UNIX_EPOCH).map(|d| d.as_millis() as u64).unwrap_or(0)` gives it,
/// with the reading it was taken from.
pub(crate) fn unix_millis() -> (r: (u64, Ghost<Option<(u64, u32)>>))
    ensures
        reading_ok(r.1@),
        r.0 == reading_millis(r.1@),
{
    let t = read_clock();
    let ms_total = match t {
        Some((secs, ms)) => {
            let total: u128 = (secs as u128) * 1000 + (ms as u128);
            let r = (total % 0x1_0000_0000_0000_0000u128) as u64;
            assert(r == millis_of(secs, ms));
            r
        },
        None => 0,
    };
    (ms_total, Ghost(t))
}

/// The clock reading in whole seconds since the Unix epoch, as
/// `duration_since(UNIX_EPOCH).map(|d| d.as_secs()).unwrap_or(0)` gives it,
/// with the reading it was taken from.
pub(crate) fn unix_secs() -> (r: (u64, Ghost<Option<(u64, u32)>>))
    ensures
        reading_ok(r.1@),
        r.0 == reading_secs(r.1@),
{
    let t = read_clock();
    let secs = match t {
        Some((secs, _)) => secs,
        None => 0,
    };
    (secs, Ghost(t))
}

} // verus!
