use vstd::prelude::*;

verus! {

/// Cost of a call: computation time (in picoseconds) and proof size (in
/// bytes).
#[derive(Clone, Copy, Debug, PartialEq, Eq, Structural)]
pub struct Weight {
    pub ref_time: u64,
    pub proof_size: u64,
}

/// `a + b`, or `u64::MAX` where that does not fit.
pub open spec fn sat_add(a: u64, b: u64) -> u64 {
    if a + b > u64::MAX {
        u64::MAX
    } else {
        (a + b) as u64
    }
}

/// `a * b`, or `u64::MAX` where that does not fit.
pub open spec fn sat_mul(a: u64, b: u64) -> u64 {
    if a * b > u64::MAX {
        u64::MAX
    } else {
        (a * b) as u64
    }
}

/// `a * b`, or `u64::MAX` where that does not fit.
pub fn mul_saturating(a: u64, b: u64) -> (r: u64)
    ensures
        r == sat_mul(a, b),
{
    if b == 0 {
        proof {
            assert(a * b == 0) by (nonlinear_arith)
                requires
                    b == 0,
            ;
        }
        return 0;
    }
    if a > u64::MAX / b {
        proof {
            assert(a * b > u64::MAX) by (nonlinear_arith)
                requires
                    a > u64::MAX / b,
                    b > 0,
            ;
        }
        u64::MAX
    } else {
        proof {
            assert(a * b <= u64::MAX) by (nonlinear_arith)
                requires
                    a <= u64::MAX / b,
                    b > 0,
            ;
        }
        a * b
    }
}

impl Weight {
    /// A weight of computation time alone.
    pub fn from_ref_time(ref_time: u64) -> (r: Weight)
        ensures
            r == (Weight { ref_time, proof_size: 0 }),
    {
        Weight { ref_time, proof_size: 0 }
    }

    /// Sum of two weights, each part capped at `u64::MAX`.
    pub fn saturating_add(self, o: Weight) -> (r: Weight)
        ensures
            r.ref_time == sat_add(self.ref_time, o.ref_time),
            r.proof_size == sat_add(self.proof_size, o.proof_size),
    {
        Weight {
            ref_time: self.ref_time.saturating_add(o.ref_time),
            proof_size: self.proof_size.saturating_add(o.proof_size),
        }
    }

    /// The weight times `n`, each part capped at `u64::MAX`.
    pub fn saturating_mul(self, n: u64) -> (r: Weight)
        ensures
            r.ref_time == sat_mul(self.ref_time, n),
            r.proof_size == sat_mul(self.proof_size, n),
    {
        Weight { ref_time: mul_saturating(self.ref_time, n), proof_size: mul_saturating(self.proof_size, n) }
    }
}

/// Cost of one storage read and of one storage write.
#[derive(Clone, Copy, Debug, PartialEq, Eq, Structural)]
pub struct RuntimeDbWeight {
    pub read: u64,
    pub write: u64,
}

/// Time of one read from the RocksDB storage backend.
pub const ROCKS_DB_READ: u64 = 25_000_000;

/// Time of one write to the RocksDB storage backend.
pub const ROCKS_DB_WRITE: u64 = 100_000_000;

impl RuntimeDbWeight {
    /// Costs of the RocksDB storage backend.
    pub fn rocks_db() -> (r: RuntimeDbWeight)
        ensures
            r.read == ROCKS_DB_READ,
            r.write == ROCKS_DB_WRITE,
    {
        RuntimeDbWeight { read: ROCKS_DB_READ, write: ROCKS_DB_WRITE }
    }

    /// Weight of `n` reads.
    pub fn reads(self, n: u64) -> (r: Weight)
        ensures
            r == (Weight { ref_time: sat_mul(self.read, n), proof_size: 0 }),
    {
        Weight::from_ref_time(mul_saturating(self.read, n))
    }

    /// Weight of `n` writes.
    pub fn writes(self, n: u64) -> (r: Weight)
        ensures
            r == (Weight { ref_time: sat_mul(self.write, n), proof_size: 0 }),
    {
        Weight::from_ref_time(mul_saturating(self.write, n))
    }
}

/// Weight of a call that takes `base` of computation and makes `reads`
/// storage reads and `writes` storage writes on RocksDB, each sum and
/// product capped at `u64::MAX`.
pub open spec fn db_call(base: u64, reads: u64, writes: u64) -> Weight {
    Weight {
        ref_time: sat_add(sat_add(base, sat_mul(ROCKS_DB_READ, reads)), sat_mul(ROCKS_DB_WRITE, writes)),
        proof_size: 0,
    }
}

/// Computes `db_call`.
pub fn db_call_weight(base: u64, reads: u64, writes: u64) -> (r: Weight)
    ensures
        r == db_call(base, reads, writes),
{
    let db = RuntimeDbWeight::rocks_db();
    Weight::from_ref_time(base).saturating_add(db.reads(reads)).saturating_add(db.writes(writes))
}

/// Weights of the asset calls, measured on reference hardware.
pub struct SubstrateWeight;

impl SubstrateWeight {
    pub fn freeze() -> (r: Weight)
        ensures
            r == db_call(46_325_000, 6, 1),
    {
        db_call_weight(46_325_000, 6, 1)
    }

    pub fn unfreeze() -> (r: Weight)
        ensures
            r == db_call(47_007_000, 6, 1),
    {
        db_call_weight(47_007_000, 6, 1)
    }

    pub fn issue() -> (r: Weight)
        ensures
            r == db_call(95_467_000, 17, 4),
    {
        db_call_weight(95_467_000, 17, 4)
    }

    pub fn redeem() -> (r: Weight)
        ensures
            r == db_call(90_698_000, 15, 5),
    {
        db_call_weight(90_698_000, 15, 5)
    }

    pub fn base_transfer() -> (r: Weight)
        ensures
            r == db_call(186_484_000, 18, 9),
    {
        db_call_weight(186_484_000, 18, 9)
    }

    pub fn exempt_ticker_affirmation() -> (r: Weight)
        ensures
            r == db_call(12_364_000, 0, 1),
    {
        db_call_weight(12_364_000, 0, 1)
    }

    pub fn remove_ticker_affirmation_exemption() -> (r: Weight)
        ensures
            r == db_call(12_833_000, 0, 1),
    {
        db_call_weight(12_833_000, 0, 1)
    }

    pub fn pre_approve_ticker() -> (r: Weight)
        ensures
            r == db_call(27_794_000, 1, 1),
    {
        db_call_weight(27_794_000, 1, 1)
    }

    pub fn remove_ticker_pre_approval() -> (r: Weight)
        ensures
            r == db_call(27_958_000, 1, 1),
    {
        db_call_weight(27_958_000, 1, 1)
    }
}

} // verus!
