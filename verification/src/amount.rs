//! An exact 256-bit unsigned integer, the denomination of token amounts in
//! base units.  All arithmetic is checked: overflow is reported, never
//! wrapped or truncated.

use vstd::prelude::*;
use vstd::arithmetic::div_mod::{
    lemma_fundamental_div_mod, lemma_fundamental_div_mod_converse,
    lemma_mod_division_less_than_divisor,
};

verus! {

/// 2^64, as a mathematical integer.
pub open spec fn p64() -> nat {
    0x1_0000_0000_0000_0000
}

/// 2^128, as a mathematical integer.
pub open spec fn p128() -> nat {
    p64() * p64()
}

/// 2^192, as a mathematical integer.
pub open spec fn p192() -> nat {
    p128() * p64()
}

/// 2^256, as a mathematical integer.  An `Amount` holds exactly the values
/// below this bound.
pub open spec fn p256() -> nat {
    p192() * p64()
}

/// A non-negative integer amount of base units, up to 256 bits wide, held as
/// four 64-bit limbs, least significant first.
#[derive(Clone, Copy, Debug, PartialEq, Eq, Structural)]
pub struct Amount {
    pub l0: u64,
    pub l1: u64,
    pub l2: u64,
    pub l3: u64,
}

impl Amount {
    /// The mathematical value this amount denotes.
    pub open spec fn val(self) -> nat {
        self.l0 as nat + (self.l1 as nat) * p64() + (self.l2 as nat) * p128() + (
        self.l3 as nat) * p192()
    }

    /// Every amount denotes a value below 2^256.
    pub proof fn lemma_val_bound(self)
        ensures
            self.val() < p256(),
    {
        assert((self.l0 as int) + (self.l1 as int) * p64() + (self.l2 as int) * p128() + (
        self.l3 as int) * p192() < p256()) by (nonlinear_arith)
            requires
                self.l0 <= 0xffff_ffff_ffff_ffffu64,
                self.l1 <= 0xffff_ffff_ffff_ffffu64,
                self.l2 <= 0xffff_ffff_ffff_ffffu64,
                self.l3 <= 0xffff_ffff_ffff_ffffu64,
                p64() == 0x1_0000_0000_0000_0000,
                p128() == p64() * p64(),
                p192() == p128() * p64(),
                p256() == p192() * p64(),
        ;
    }

    pub fn zero() -> (r: Amount)
        ensures
            r.val() == 0,
    {
        Amount { l0: 0, l1: 0, l2: 0, l3: 0 }
    }

    pub fn from_u64(x: u64) -> (r: Amount)
        ensures
            r.val() == x,
    {
        Amount { l0: x, l1: 0, l2: 0, l3: 0 }
    }

    pub fn from_u128(x: u128) -> (r: Amount)
        ensures
            r.val() == x,
    {
        let lo = (x % 0x1_0000_0000_0000_0000u128) as u64;
        let hi = (x / 0x1_0000_0000_0000_0000u128) as u64;
        proof {
            lemma_fundamental_div_mod(x as int, p64() as int);
        }
        Amount { l0: lo, l1: hi, l2: 0, l3: 0 }
    }

    /// The value as a `u128`, where it fits.
    pub fn try_to_u128(&self) -> (r: Option<u128>)
        ensures
            r is Some <==> self.val() < p128(),
            (r matches Some(x) ==> x == self.val()),
    {
        if self.l2 == 0 && self.l3 == 0 {
            proof {
                assert((self.l0 as int) + (self.l1 as int) * p64() < p128()) by (nonlinear_arith)
                    requires
                        self.l0 <= 0xffff_ffff_ffff_ffffu64,
                        self.l1 <= 0xffff_ffff_ffff_ffffu64,
                        p64() == 0x1_0000_0000_0000_0000,
                        p128() == p64() * p64(),
                ;
            }
            Some((self.l0 as u128) + (self.l1 as u128) * 0x1_0000_0000_0000_0000u128)
        } else {
            proof {
                assert((self.l2 as int) * p128() + (self.l3 as int) * p192() >= p128())
                    by (nonlinear_arith)
                    requires
                        self.l2 > 0 || self.l3 > 0,
                        p64() == 0x1_0000_0000_0000_0000,
                        p128() == p64() * p64(),
                        p192() == p128() * p64(),
                ;
            }
            None
        }
    }

    pub fn is_zero(&self) -> (b: bool)
        ensures
            b == (self.val() == 0),
    {
        proof {
            assert(self.l1 > 0 ==> (self.l1 as nat) * p64() >= p64()) by (nonlinear_arith);
            assert(self.l2 > 0 ==> (self.l2 as nat) * p128() >= p128()) by (nonlinear_arith)
                requires
                    p128() == p64() * p64(),
                    p64() == 0x1_0000_0000_0000_0000,
            ;
            assert(self.l3 > 0 ==> (self.l3 as nat) * p192() >= p192()) by (nonlinear_arith)
                requires
                    p192() == p128() * p64(),
                    p128() == p64() * p64(),
                    p64() == 0x1_0000_0000_0000_0000,
            ;
        }
        self.l0 == 0 && self.l1 == 0 && self.l2 == 0 && self.l3 == 0
    }

    /// Checked `self * m + add`.  Returns `None` exactly when the result
    /// does not fit in 256 bits.
    pub fn mul_add_small(&self, m: u64, add: u64) -> (r: Option<Amount>)
        ensures
            r is Some <==> self.val() * m + add < p256(),
            (r matches Some(v) ==> v.val() == self.val() * m + add),
    {
        let m128 = m as u128;
        proof {
            assert((self.l0 as int) * (m as int) + (add as int) < p64() as int * p64() as int)
                by (nonlinear_arith)
                requires
                    self.l0 <= 0xffff_ffff_ffff_ffffu64,
                    m <= 0xffff_ffff_ffff_ffffu64,
                    add <= 0xffff_ffff_ffff_ffffu64,
                    p64() == 0x1_0000_0000_0000_0000,
            ;
        }
        let t0: u128 = (self.l0 as u128) * m128 + (add as u128);
        let r0 = (t0 % 0x1_0000_0000_0000_0000u128) as u64;
        let c0 = (t0 / 0x1_0000_0000_0000_0000u128) as u64;
        proof {
            lemma_fundamental_div_mod(t0 as int, p64() as int);
        }
        proof {
            assert((self.l1 as int) * (m as int) + (c0 as int) < p64() as int * p64() as int)
                by (nonlinear_arith)
                requires
                    self.l1 <= 0xffff_ffff_ffff_ffffu64,
                    m <= 0xffff_ffff_ffff_ffffu64,
                    c0 <= 0xffff_ffff_ffff_ffffu64,
                    p64() == 0x1_0000_0000_0000_0000,
            ;
        }
        let t1: u128 = (self.l1 as u128) * m128 + (c0 as u128);
        let r1 = (t1 % 0x1_0000_0000_0000_0000u128) as u64;
        let c1 = (t1 / 0x1_0000_0000_0000_0000u128) as u64;
        proof {
            lemma_fundamental_div_mod(t1 as int, p64() as int);
        }
        proof {
            assert((self.l2 as int) * (m as int) + (c1 as int) < p64() as int * p64() as int)
                by (nonlinear_arith)
                requires
                    self.l2 <= 0xffff_ffff_ffff_ffffu64,
                    m <= 0xffff_ffff_ffff_ffffu64,
                    c1 <= 0xffff_ffff_ffff_ffffu64,
                    p64() == 0x1_0000_0000_0000_0000,
            ;
        }
        let t2: u128 = (self.l2 as u128) * m128 + (c1 as u128);
        let r2 = (t2 % 0x1_0000_0000_0000_0000u128) as u64;
        let c2 = (t2 / 0x1_0000_0000_0000_0000u128) as u64;
        proof {
            lemma_fundamental_div_mod(t2 as int, p64() as int);
        }
        proof {
            assert((self.l3 as int) * (m as int) + (c2 as int) < p64() as int * p64() as int)
                by (nonlinear_arith)
                requires
                    self.l3 <= 0xffff_ffff_ffff_ffffu64,
                    m <= 0xffff_ffff_ffff_ffffu64,
                    c2 <= 0xffff_ffff_ffff_ffffu64,
                    p64() == 0x1_0000_0000_0000_0000,
            ;
        }
        let t3: u128 = (self.l3 as u128) * m128 + (c2 as u128);
        let r3 = (t3 % 0x1_0000_0000_0000_0000u128) as u64;
        let c3 = (t3 / 0x1_0000_0000_0000_0000u128) as u64;
        proof {
            lemma_fundamental_div_mod(t3 as int, p64() as int);
            assert(self.val() * m + add == (r0 as int) + (r1 as int) * p64() + (r2 as int) * p128()
                + (r3 as int) * p192() + (c3 as int) * p256()) by (nonlinear_arith)
                requires
                    t0 == (self.l0 as int) * (m as int) + (add as int),
                    t1 == (self.l1 as int) * (m as int) + (c0 as int),
                    t2 == (self.l2 as int) * (m as int) + (c1 as int),
                    t3 == (self.l3 as int) * (m as int) + (c2 as int),
                    t0 == p64() * (c0 as int) + (r0 as int),
                    t1 == p64() * (c1 as int) + (r1 as int),
                    t2 == p64() * (c2 as int) + (r2 as int),
                    t3 == p64() * (c3 as int) + (r3 as int),
                    self.val() == self.l0 as nat + (self.l1 as nat) * p64() + (self.l2 as nat)
                        * p128() + (self.l3 as nat) * p192(),
                    p128() == p64() * p64(),
                    p192() == p128() * p64(),
                    p256() == p192() * p64(),
            ;
            assert((r0 as int) + (r1 as int) * p64() + (r2 as int) * p128() + (r3 as int) * p192()
                < p256()) by (nonlinear_arith)
                requires
                    r0 <= 0xffff_ffff_ffff_ffffu64,
                    r1 <= 0xffff_ffff_ffff_ffffu64,
                    r2 <= 0xffff_ffff_ffff_ffffu64,
                    r3 <= 0xffff_ffff_ffff_ffffu64,
                    p64() == 0x1_0000_0000_0000_0000,
                    p128() == p64() * p64(),
                    p192() == p128() * p64(),
                    p256() == p192() * p64(),
            ;
            assert(c3 > 0 ==> (r0 as int) + (r1 as int) * p64() + (r2 as int) * p128() + (
            r3 as int) * p192() + (c3 as int) * p256() >= p256()) by (nonlinear_arith)
                requires
                    p256() == p192() * p64(),
                    p192() == p128() * p64(),
                    p128() == p64() * p64(),
                    p64() == 0x1_0000_0000_0000_0000,
            ;
        }
        if c3 != 0 {
            None
        } else {
            proof {
                assert(self.val() * m + add < p256() && self.val() * m + add == (r0 as nat) + (
                r1 as nat) * p64() + (r2 as nat) * p128() + (r3 as nat) * p192())
                    by (nonlinear_arith)
                    requires
                        self.val() * m + add == (r0 as int) + (r1 as int) * p64() + (r2 as int)
                            * p128() + (r3 as int) * p192() + (c3 as int) * p256(),
                        c3 == 0,
                        r0 <= 0xffff_ffff_ffff_ffffu64,
                        r1 <= 0xffff_ffff_ffff_ffffu64,
                        r2 <= 0xffff_ffff_ffff_ffffu64,
                        r3 <= 0xffff_ffff_ffff_ffffu64,
                        p64() == 0x1_0000_0000_0000_0000,
                        p128() == p64() * p64(),
                        p192() == p128() * p64(),
                        p256() == p192() * p64(),
                ;
            }
            Some(Amount { l0: r0, l1: r1, l2: r2, l3: r3 })
        }
    }

    /// Division with remainder by a small (64-bit, nonzero) divisor.
    pub fn divmod_small(&self, d: u64) -> (r: (Amount, u64))
        requires
            d > 0,
        ensures
            r.0.val() == self.val() / d as nat,
            r.1 == self.val() % d as nat,
            r.1 < d,
    {
        let d128 = d as u128;
        let t3: u128 = self.l3 as u128;
        let q3 = (t3 / d128) as u64;
        let r3 = (t3 % d128) as u64;
        proof {
            lemma_fundamental_div_mod(t3 as int, d as int);
            lemma_mod_division_less_than_divisor(t3 as int, d as int);
        }
        proof {
            assert((r3 as int) * p64() + (self.l2 as int) < p64() as int * p64() as int)
                by (nonlinear_arith)
                requires
                    r3 < d,
                    d <= 0xffff_ffff_ffff_ffffu64,
                    self.l2 <= 0xffff_ffff_ffff_ffffu64,
                    p64() == 0x1_0000_0000_0000_0000,
            ;
        }
        let t2: u128 = (r3 as u128) * 0x1_0000_0000_0000_0000u128 + (self.l2 as u128);
        proof {
            lemma_fundamental_div_mod(t2 as int, d as int);
            lemma_mod_division_less_than_divisor(t2 as int, d as int);
            assert((t2 as int) / (d as int) < p64() as int) by (nonlinear_arith)
                requires
                    t2 as int == (d as int) * ((t2 as int) / (d as int)) + (t2 as int) % (d as int),
                    0 <= (t2 as int) % (d as int),
                    t2 == (r3 as int) * p64() + (self.l2 as int),
                    r3 < d,
                    0 < d <= 0xffff_ffff_ffff_ffffu64,
                    self.l2 <= 0xffff_ffff_ffff_ffffu64,
                    p64() == 0x1_0000_0000_0000_0000,
            ;
        }
        let q2 = (t2 / d128) as u64;
        let r2 = (t2 % d128) as u64;
        proof {
            assert((r2 as int) * p64() + (self.l1 as int) < p64() as int * p64() as int)
                by (nonlinear_arith)
                requires
                    r2 < d,
                    d <= 0xffff_ffff_ffff_ffffu64,
                    self.l1 <= 0xffff_ffff_ffff_ffffu64,
                    p64() == 0x1_0000_0000_0000_0000,
            ;
        }
        let t1: u128 = (r2 as u128) * 0x1_0000_0000_0000_0000u128 + (self.l1 as u128);
        proof {
            lemma_fundamental_div_mod(t1 as int, d as int);
            lemma_mod_division_less_than_divisor(t1 as int, d as int);
            assert((t1 as int) / (d as int) < p64() as int) by (nonlinear_arith)
                requires
                    t1 as int == (d as int) * ((t1 as int) / (d as int)) + (t1 as int) % (d as int),
                    0 <= (t1 as int) % (d as int),
                    t1 == (r2 as int) * p64() + (self.l1 as int),
                    r2 < d,
                    0 < d <= 0xffff_ffff_ffff_ffffu64,
                    self.l1 <= 0xffff_ffff_ffff_ffffu64,
                    p64() == 0x1_0000_0000_0000_0000,
            ;
        }
        let q1 = (t1 / d128) as u64;
        let r1 = (t1 % d128) as u64;
        proof {
            assert((r1 as int) * p64() + (self.l0 as int) < p64() as int * p64() as int)
                by (nonlinear_arith)
                requires
                    r1 < d,
                    d <= 0xffff_ffff_ffff_ffffu64,
                    self.l0 <= 0xffff_ffff_ffff_ffffu64,
                    p64() == 0x1_0000_0000_0000_0000,
            ;
        }
        let t0: u128 = (r1 as u128) * 0x1_0000_0000_0000_0000u128 + (self.l0 as u128);
        proof {
            lemma_fundamental_div_mod(t0 as int, d as int);
            lemma_mod_division_less_than_divisor(t0 as int, d as int);
            assert((t0 as int) / (d as int) < p64() as int) by (nonlinear_arith)
                requires
                    t0 as int == (d as int) * ((t0 as int) / (d as int)) + (t0 as int) % (d as int),
                    0 <= (t0 as int) % (d as int),
                    t0 == (r1 as int) * p64() + (self.l0 as int),
                    r1 < d,
                    0 < d <= 0xffff_ffff_ffff_ffffu64,
                    self.l0 <= 0xffff_ffff_ffff_ffffu64,
                    p64() == 0x1_0000_0000_0000_0000,
            ;
        }
        let q0 = (t0 / d128) as u64;
        let r0 = (t0 % d128) as u64;
        let q = Amount { l0: q0, l1: q1, l2: q2, l3: q3 };
        proof {
            assert(self.val() == q.val() * d + r0) by (nonlinear_arith)
                requires
                    t3 == (d as int) * (q3 as int) + (r3 as int),
                    t2 == (d as int) * (q2 as int) + (r2 as int),
                    t1 == (d as int) * (q1 as int) + (r1 as int),
                    t0 == (d as int) * (q0 as int) + (r0 as int),
                    t3 == self.l3 as int,
                    t2 == (r3 as int) * p64() + (self.l2 as int),
                    t1 == (r2 as int) * p64() + (self.l1 as int),
                    t0 == (r1 as int) * p64() + (self.l0 as int),
                    self.val() == self.l0 as nat + (self.l1 as nat) * p64() + (self.l2 as nat)
                        * p128() + (self.l3 as nat) * p192(),
                    q.val() == q0 as nat + (q1 as nat) * p64() + (q2 as nat) * p128() + (q3 as nat)
                        * p192(),
                    p128() == p64() * p64(),
                    p192() == p128() * p64(),
            ;
            lemma_fundamental_div_mod_converse(
                self.val() as int,
                d as int,
                q.val() as int,
                r0 as int,
            );
        }
        (q, r0)
    }
}

} // verus!
