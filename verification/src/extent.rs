use vstd::prelude::*;

verus! {

/// Number of bytes in one disk sector.
pub const SECTOR_SIZE: u64 = 512;

/// A contiguous block-device range: a starting block number and a length in
/// bytes.  A slot whose block or length is zero is unused.
#[derive(Clone, Copy, PartialEq, Eq, Structural, Debug)]
pub struct Extent {
    pub block: u64,
    pub length: u64,
}

impl Extent {
    /// An extent slot is unused when its block or its byte length is zero.
    pub open spec fn spec_is_empty(self) -> bool {
        self.block == 0 || self.length == 0
    }

    /// Number of whole sectors spanned by `length` bytes.
    pub open spec fn spec_sectors(self) -> int {
        (self.length + SECTOR_SIZE - 1) / (SECTOR_SIZE as int)
    }

    pub fn is_empty(&self) -> (r: bool)
        ensures
            r == self.spec_is_empty(),
    {
        self.block == 0 || self.length == 0
    }

    /// Sectors needed to hold this extent's bytes, rounding the last partial
    /// sector up.
    pub fn sectors(&self) -> (r: u64)
        ensures
            r == self.spec_sectors(),
    {
        let whole: u64 = self.length / SECTOR_SIZE;
        let rest: u64 = self.length % SECTOR_SIZE;
        proof {
            lemma_div_round_up(self.length as int, SECTOR_SIZE as int);
        }
        if rest == 0 {
            whole
        } else {
            whole + 1
        }
    }
}

/// Rounding up a division: `(n + d - 1) / d` equals `n / d`, plus one when
/// the division has a remainder.
proof fn lemma_div_round_up(n: int, d: int)
    by (nonlinear_arith)
    requires
        n >= 0,
        d > 0,
    ensures
        (n + d - 1) / d == n / d + if n % d == 0 { 0int } else { 1int },
{
}

} // verus!
