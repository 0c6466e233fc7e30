//! Electron-sea model for metallic bonding.
use vstd::prelude::*;

verus! {

/// Default delocalised-electron pool size for the electron-sea visualisation.
pub const DEFAULT_POOL_SIZE: i64 = 12;

/// Delocalised electrons for the electron-sea model: three per valence
/// electron of each metal, capped at the pool size.
pub open spec fn electron_sea(ve_a: int, ve_b: int, pool_size: int) -> int {
    if 3 * ve_a + 3 * ve_b < pool_size {
        3 * ve_a + 3 * ve_b
    } else {
        pool_size
    }
}

/// Whether `3 * ve_a + 3 * ve_b` stays within `i64`.
pub open spec fn sea_fits(ve_a: int, ve_b: int) -> bool {
    i64::MIN <= 3 * ve_a <= i64::MAX && i64::MIN <= 3 * ve_b <= i64::MAX && i64::MIN <= 3 * ve_a
        + 3 * ve_b <= i64::MAX
}

/// Delocalised electron count for the electron-sea model, capped at `pool_size`.
pub fn metallic_electron_count_capped(ve_a: i64, ve_b: i64, pool_size: i64) -> (r: i64)
    requires
        sea_fits(ve_a as int, ve_b as int),
    ensures
        r == electron_sea(ve_a as int, ve_b as int, pool_size as int),
{
    let total = 3 * ve_a + 3 * ve_b;
    if total < pool_size {
        total
    } else {
        pool_size
    }
}

/// Delocalised electron count using the [`DEFAULT_POOL_SIZE`] cap.
pub fn metallic_electron_count(ve_a: i64, ve_b: i64) -> (r: i64)
    requires
        sea_fits(ve_a as int, ve_b as int),
    ensures
        r == electron_sea(ve_a as int, ve_b as int, DEFAULT_POOL_SIZE as int),
{
    metallic_electron_count_capped(ve_a, ve_b, DEFAULT_POOL_SIZE)
}

} // verus!
