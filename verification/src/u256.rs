use vstd::prelude::*;

verus! {

/// One more than the largest value a 128-bit limb can hold.
pub open spec fn two_pow_128() -> nat {
    0x1_0000_0000_0000_0000_0000_0000_0000_0000nat
}

/// The largest token amount that the 256-bit representation can hold.
pub open spec fn u256_max() -> nat {
    (two_pow_128() * two_pow_128() - 1) as nat
}

/// An unsigned 256-bit token amount, stored as a low and a high 128-bit
/// limb. Arithmetic on amounts is checked: no operation wraps silently.
#[derive(Clone, Copy, Debug, PartialEq, Eq, Structural)]
pub struct U256 {
    pub lo: u128,
    pub hi: u128,
}

impl U256 {
    /// The amount as a mathematical integer.
    pub open spec fn as_nat(self) -> nat {
        (self.hi * two_pow_128() + self.lo) as nat
    }

    /// The zero amount.
    pub fn zero() -> (r: U256)
        ensures
            r.as_nat() == 0,
    {
        U256 { lo: 0, hi: 0 }
    }

    /// An amount given as a 64-bit value.
    pub fn from_u64(v: u64) -> (r: U256)
        ensures
            r.as_nat() == v,
    {
        U256 { lo: v as u128, hi: 0 }
    }

    /// Checked addition: the sum, unless it would exceed the 256-bit range.
    pub fn checked_add(self, rhs: U256) -> (r: Option<U256>)
        ensures
            self.as_nat() + rhs.as_nat() <= u256_max() <==> r is Some,
            r is Some ==> r->0.as_nat() == self.as_nat() + rhs.as_nat(),
    {
        let max: u128 = 0xffff_ffff_ffff_ffff_ffff_ffff_ffff_ffff;
        let (lo, carry): (u128, u128) = if rhs.lo <= max - self.lo {
            (self.lo + rhs.lo, 0)
        } else {
            (self.lo - (max - rhs.lo) - 1, 1)
        };
        if self.hi <= max - carry && rhs.hi <= max - carry - self.hi {
            let hi = self.hi + rhs.hi + carry;
            let sum = U256 { lo, hi };
            proof {
                let k = two_pow_128();
                assert((self.hi + rhs.hi + carry) * k == self.hi * k + rhs.hi * k + carry * k)
                    by (nonlinear_arith);
                assert(sum.as_nat() == self.as_nat() + rhs.as_nat());
            }
            Some(sum)
        } else {
            proof {
                let k = two_pow_128();
                assert((self.hi + rhs.hi + carry) * k == self.hi * k + rhs.hi * k + carry * k)
                    by (nonlinear_arith);
                assert(self.hi + rhs.hi + carry >= k ==> (self.hi + rhs.hi + carry) * k >= k * k)
                    by (nonlinear_arith);
                assert(self.as_nat() + rhs.as_nat() > u256_max());
            }
            None
        }
    }

    /// Checked subtraction: the difference, unless the subtrahend exceeds
    /// the amount.
    pub fn checked_sub(self, rhs: U256) -> (r: Option<U256>)
        ensures
            rhs.as_nat() <= self.as_nat() <==> r is Some,
            r is Some ==> r->0.as_nat() == self.as_nat() - rhs.as_nat(),
    {
        let max: u128 = 0xffff_ffff_ffff_ffff_ffff_ffff_ffff_ffff;
        if self.hi > rhs.hi || (self.hi == rhs.hi && self.lo >= rhs.lo) {
            let (lo, borrow): (u128, u128) = if self.lo >= rhs.lo {
                (self.lo - rhs.lo, 0)
            } else {
                (self.lo + (max - rhs.lo) + 1, 1)
            };
            let hi = self.hi - rhs.hi - borrow;
            let diff = U256 { lo, hi };
            proof {
                assert(diff.as_nat() == self.as_nat() - rhs.as_nat());
            }
            Some(diff)
        } else {
            None
        }
    }

    /// Every representable amount fits the 256-bit range.
    pub proof fn lemma_as_nat_bound(self)
        ensures
            self.as_nat() <= u256_max(),
    {
        let k = two_pow_128();
        assert(self.hi * k <= (k - 1) * k) by (nonlinear_arith)
            requires
                self.hi <= k - 1,
        ;
        assert((k - 1) * k == k * k - k) by (nonlinear_arith);
    }

    /// Whether this amount is strictly below another.
    pub fn lt(&self, rhs: &U256) -> (r: bool)
        ensures
            r == (self.as_nat() < rhs.as_nat()),
    {
        self.hi < rhs.hi || (self.hi == rhs.hi && self.lo < rhs.lo)
    }

    /// Whether two amounts are equal.
    pub fn eq_value(&self, rhs: &U256) -> (r: bool)
        ensures
            r == (self.as_nat() == rhs.as_nat()),
    {
        self.hi == rhs.hi && self.lo == rhs.lo
    }
}

} // verus!
