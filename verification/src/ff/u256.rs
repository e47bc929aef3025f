//! Unsigned 256-bit integers as four 64-bit limbs, least significant first.
use vstd::prelude::*;

verus! {

/// A 256-bit unsigned integer, limbs least significant first.
#[derive(Clone, Copy, Debug, PartialEq, Eq, Structural)]
pub struct U256 {
    pub l0: u64,
    pub l1: u64,
    pub l2: u64,
    pub l3: u64,
}

/// `2^256`.
pub open spec fn two_256() -> int {
    0x1_0000_0000_0000_0000_0000_0000_0000_0000_0000_0000_0000_0000_0000_0000_0000_0000int
}

impl U256 {
    /// The integer the limbs stand for.
    pub open spec fn value(self) -> int {
        self.l0 as int + self.l1 as int * 0x1_0000_0000_0000_0000int + self.l2 as int
            * 0x1_0000_0000_0000_0000_0000_0000_0000_0000int + self.l3 as int
            * 0x1_0000_0000_0000_0000_0000_0000_0000_0000_0000_0000_0000_0000int
    }

    pub proof fn lemma_value_range(self)
        ensures
            0 <= self.value() < two_256(),
    {
    }

    /// Equal values have equal limbs.
    pub proof fn lemma_value_injective(self, other: U256)
        requires
            self.value() == other.value(),
        ensures
            self == other,
    {
        let b: int = 0x1_0000_0000_0000_0000int;
        let k = self.l1 as int + self.l2 as int * b + self.l3 as int * (b * b);
        let k2 = other.l1 as int + other.l2 as int * b + other.l3 as int * (b * b);
        assert(self.value() == self.l0 + b * k);
        assert(other.value() == other.l0 + b * k2);
        assert(self.l0 == other.l0 && k == k2);
        let j = self.l2 as int + self.l3 as int * b;
        let j2 = other.l2 as int + other.l3 as int * b;
        assert(k == self.l1 + b * j);
        assert(k2 == other.l1 + b * j2);
        assert(self.l1 == other.l1 && j == j2);
    }

    pub fn from_u64(x: u64) -> (r: U256)
        ensures
            r.value() == x,
    {
        U256 { l0: x, l1: 0, l2: 0, l3: 0 }
    }

    pub fn is_zero(&self) -> (r: bool)
        ensures
            r == (self.value() == 0),
    {
        self.l0 == 0 && self.l1 == 0 && self.l2 == 0 && self.l3 == 0
    }

    pub fn is_one(&self) -> (r: bool)
        ensures
            r == (self.value() == 1),
    {
        self.l0 == 1 && self.l1 == 0 && self.l2 == 0 && self.l3 == 0
    }

    pub fn is_even(&self) -> (r: bool)
        ensures
            r == (self.value() % 2 == 0),
    {
        self.l0 % 2 == 0
    }

    pub fn equals(&self, other: &U256) -> (r: bool)
        ensures
            r == (self.value() == other.value()),
    {
        proof {
            if self.value() == other.value() {
                self.lemma_value_injective(*other);
            }
        }
        self.l0 == other.l0 && self.l1 == other.l1 && self.l2 == other.l2 && self.l3 == other.l3
    }
}

/// `a + b = r + carry * 2^256`.
pub fn add_carry(a: U256, b: U256) -> (res: (U256, u64))
    ensures
        a.value() + b.value() == res.0.value() + res.1 * two_256(),
        res.1 <= 1,
{
    let s0: u128 = a.l0 as u128 + b.l0 as u128;
    let r0 = (s0 % 0x1_0000_0000_0000_0000) as u64;
    let c0 = s0 / 0x1_0000_0000_0000_0000;
    let s1: u128 = a.l1 as u128 + b.l1 as u128 + c0;
    let r1 = (s1 % 0x1_0000_0000_0000_0000) as u64;
    let c1 = s1 / 0x1_0000_0000_0000_0000;
    let s2: u128 = a.l2 as u128 + b.l2 as u128 + c1;
    let r2 = (s2 % 0x1_0000_0000_0000_0000) as u64;
    let c2 = s2 / 0x1_0000_0000_0000_0000;
    let s3: u128 = a.l3 as u128 + b.l3 as u128 + c2;
    let r3 = (s3 % 0x1_0000_0000_0000_0000) as u64;
    let c3 = s3 / 0x1_0000_0000_0000_0000;
    (U256 { l0: r0, l1: r1, l2: r2, l3: r3 }, c3 as u64)
}

/// `a - b = r - borrow * 2^256`.
pub fn sub_borrow(a: U256, b: U256) -> (res: (U256, u64))
    ensures
        a.value() - b.value() == res.0.value() - res.1 * two_256(),
        res.1 <= 1,
{
    let t0: i128 = a.l0 as i128 - b.l0 as i128;
    let (r0, br0): (u64, i128) = if t0 < 0 {
        ((t0 + 0x1_0000_0000_0000_0000) as u64, 1)
    } else {
        (t0 as u64, 0)
    };
    let t1: i128 = a.l1 as i128 - b.l1 as i128 - br0;
    let (r1, br1): (u64, i128) = if t1 < 0 {
        ((t1 + 0x1_0000_0000_0000_0000) as u64, 1)
    } else {
        (t1 as u64, 0)
    };
    let t2: i128 = a.l2 as i128 - b.l2 as i128 - br1;
    let (r2, br2): (u64, i128) = if t2 < 0 {
        ((t2 + 0x1_0000_0000_0000_0000) as u64, 1)
    } else {
        (t2 as u64, 0)
    };
    let t3: i128 = a.l3 as i128 - b.l3 as i128 - br2;
    let (r3, br3): (u64, u64) = if t3 < 0 {
        ((t3 + 0x1_0000_0000_0000_0000) as u64, 1)
    } else {
        (t3 as u64, 0)
    };
    (U256 { l0: r0, l1: r1, l2: r2, l3: r3 }, br3)
}

/// `(a + top * 2^256) / 2`, rounding down.
pub fn shr1(a: U256, top: u64) -> (r: U256)
    requires
        top <= 1,
    ensures
        2 * r.value() + a.value() % 2 == a.value() + top * two_256(),
{
    let r0 = a.l0 / 2 + (a.l1 % 2) * 0x8000_0000_0000_0000;
    let r1 = a.l1 / 2 + (a.l2 % 2) * 0x8000_0000_0000_0000;
    let r2 = a.l2 / 2 + (a.l3 % 2) * 0x8000_0000_0000_0000;
    let r3 = a.l3 / 2 + top * 0x8000_0000_0000_0000;
    assert(a.value() % 2 == a.l0 % 2);
    U256 { l0: r0, l1: r1, l2: r2, l3: r3 }
}

} // verus!
