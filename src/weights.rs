//! Execution weights of the session keys calls, from benchmark figures and
//! the cost of database reads and writes.
use vstd::prelude::*;

verus! {

/// Cost of one database read and one database write.
#[derive(Clone, Copy, Debug, PartialEq, Eq, Structural)]
pub struct RuntimeDbWeight {
    pub read: u64,
    pub write: u64,
}

/// `x`, or `u64::MAX` when it does not fit.
pub open spec fn saturate(x: int) -> u64 {
    if x > u64::MAX {
        u64::MAX
    } else {
        x as u64
    }
}

/// `a * b`, saturating.
fn mul_sat(a: u64, b: u64) -> (r: u64)
    ensures
        r == saturate(a * b),
{
    match a.checked_mul(b) {
        Some(x) => x,
        None => u64::MAX,
    }
}

/// Base weight plus `reads` reads and `writes` writes, saturating.
fn weight_of(db: RuntimeDbWeight, base: u64, reads: u64, writes: u64) -> (r: u64)
    ensures
        r == saturate(base + db.read * reads + db.write * writes),
{
    assert(db.read * reads >= 0 && db.write * writes >= 0) by (nonlinear_arith);
    base.saturating_add(mul_sat(db.read, reads)).saturating_add(mul_sat(db.write, writes))
}

/// Weights of the session pallet's calls.
#[derive(Clone, Copy, Debug, PartialEq, Eq, Structural)]
pub struct WeightInfo;

impl WeightInfo {
    /// Weight of setting session keys: six reads and five writes.
    pub fn set_keys(db: RuntimeDbWeight) -> (r: u64)
        ensures
            r == saturate(88_411_000 + db.read * 6 + db.write * 5),
    {
        weight_of(db, 88_411_000, 6, 5)
    }

    /// Weight of purging session keys: two reads and five writes.
    pub fn purge_keys(db: RuntimeDbWeight) -> (r: u64)
        ensures
            r == saturate(51_843_000 + db.read * 2 + db.write * 5),
    {
        weight_of(db, 51_843_000, 2, 5)
    }
}

} // verus!
