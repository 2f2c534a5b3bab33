//! Core scalar types: ids, time, and the local/global wire conversions.

use vstd::prelude::*;

verus! {

pub type Time = i64;

pub type LocalTime = u16;

pub type Duration = u16;

pub type Coord = i32;

pub type StableId = u64;

pub type AnimId = u16;

pub type BlockId = u16;

pub type ItemId = u16;

pub type TemplateId = u32;

pub const NO_STABLE_ID: StableId = 0;

#[derive(Clone, Copy, PartialEq, Eq, Structural, Debug)]
pub struct ClientId(pub u16);

#[derive(Clone, Copy, PartialEq, Eq, Structural, Debug)]
pub struct EntityId(pub u32);

#[derive(Clone, Copy, PartialEq, Eq, Structural, Debug)]
pub struct InventoryId(pub u32);

#[derive(Clone, Copy, PartialEq, Eq, Structural, Debug)]
pub struct PlaneId(pub u32);

#[derive(Clone, Copy, PartialEq, Eq, Structural, Debug)]
pub struct StructureId(pub u32);

impl ClientId {
    pub fn unwrap(self) -> (r: u16)
        ensures
            r == self.0,
    {
        self.0
    }
}

impl EntityId {
    pub fn unwrap(self) -> (r: u32)
        ensures
            r == self.0,
    {
        self.0
    }
}

impl InventoryId {
    pub fn unwrap(self) -> (r: u32)
        ensures
            r == self.0,
    {
        self.0
    }
}

impl PlaneId {
    pub fn unwrap(self) -> (r: u32)
        ensures
            r == self.0,
    {
        self.0
    }
}

impl StructureId {
    pub fn unwrap(self) -> (r: u32)
        ensures
            r == self.0,
    {
        self.0
    }
}

/// Movement-key state sent by the client, kept as a raw bit set.
#[derive(Clone, Copy, PartialEq, Eq, Structural, Debug)]
pub struct InputBits(pub u16);

/// Action-key state sent by the client, kept as a raw bit set.
#[derive(Clone, Copy, PartialEq, Eq, Structural, Debug)]
pub struct ActionBits(pub u32);

impl InputBits {
    pub fn empty() -> (r: InputBits)
        ensures
            r.0 == 0,
    {
        InputBits(0)
    }
}

/// Conversion from a truncated wire-local value back to a global one, by way
/// of a base value known to lie within half the local range of the original.
pub trait ToGlobal where Self: Sized {
    type Global;

    spec fn to_global_req(self, base: Self::Global) -> bool;

    spec fn to_global_ens(self, base: Self::Global, r: Self::Global) -> bool;

    fn to_global(self, base: Self::Global) -> (r: Self::Global)
        requires
            self.to_global_req(base),
        ensures
            self.to_global_ens(base, r),
    ;
}

/// Truncation of a global value to its wire-local form.
pub trait ToLocal where Self: Sized {
    type Local;

    spec fn to_local_ens(self, r: Self::Local) -> bool;

    fn to_local(self) -> (r: Self::Local)
        ensures
            self.to_local_ens(r),
    ;
}

impl ToGlobal for LocalTime {
    type Global = Time;

    open spec fn to_global_req(self, base: Time) -> bool {
        i64::MIN + 32768 <= base <= i64::MAX - 32767
    }

    /// The result is the unique timestamp congruent to `self` mod 2^16 that
    /// lies within [base - 32768, base + 32767].
    open spec fn to_global_ens(self, base: Time, r: Time) -> bool {
        &&& (r as int) % 0x10000 == self as int
        &&& base - 32768 <= r <= base + 32767
    }

    /// Restores the full timestamp nearest `base` whose low 16 bits are
    /// `self`.
    fn to_global(self, base: Time) -> (r: Time) {
        let b16: u16 = base.to_local();
        let d: i32 = self as i32 - b16 as i32;
        let delta: i32 = if d < 0 {
            d + 0x10000
        } else {
            d
        };
        let sdelta: i64 = if delta >= 0x8000 {
            delta as i64 - 0x10000
        } else {
            delta as i64
        };
        let r = base + sdelta;
        proof {
            lemma_to_global(
                self as int,
                base as int,
                b16 as int,
                delta as int,
                sdelta as int,
                r as int,
            );
        }
        r
    }
}

proof fn lemma_to_global(local: int, base: int, b16: int, delta: int, sdelta: int, r: int)
    requires
        0 <= local < 0x10000,
        b16 == base % 0x10000,
        delta == if local - b16 < 0 {
            local - b16 + 0x10000
        } else {
            local - b16
        },
        sdelta == if delta >= 0x8000 {
            delta - 0x10000
        } else {
            delta
        },
        r == base + sdelta,
    ensures
        r % 0x10000 == local,
        base - 32768 <= r <= base + 32767,
{
    let m = 0x10000int;
    vstd::arithmetic::div_mod::lemma_fundamental_div_mod(base, m);
    vstd::arithmetic::div_mod::lemma_mod_bound(base, m);
    let q = base / m;
    let c: int = (if local - b16 < 0 {
        1int
    } else {
        0int
    }) + (if delta >= 0x8000 {
        -1int
    } else {
        0int
    });
    assert(sdelta == local - b16 + c * m);
    assert(m * (q + c) == m * q + m * c) by {
        vstd::arithmetic::mul::lemma_mul_is_distributive_add(m, q, c);
    }
    assert(m * c == c * m) by {
        vstd::arithmetic::mul::lemma_mul_is_commutative(m, c);
    }
    assert(r == local + m * (q + c));
    assert((m * (q + c) + local) % m == local % m) by {
        vstd::arithmetic::div_mod::lemma_mod_multiples_vanish(q + c, local, m);
    }
    vstd::arithmetic::div_mod::lemma_small_mod(local as nat, m as nat);
}

impl ToLocal for Time {
    type Local = LocalTime;

    open spec fn to_local_ens(self, r: LocalTime) -> bool {
        r as int == (self as int) % 0x10000
    }

    /// Truncates the timestamp to its low 16 bits (as a residue, so the
    /// result is the same for timestamps 2^16 apart).
    fn to_local(self) -> (r: LocalTime) {
        let q = div_floor_i64(self, 0x10000);
        proof {
            vstd::arithmetic::div_mod::lemma_fundamental_div_mod(self as int, 0x10000);
            vstd::arithmetic::div_mod::lemma_mod_bound(self as int, 0x10000);
            assert(0x10000 * q == q * 0x10000) by (nonlinear_arith);
        }
        (self - q * 0x10000) as u16
    }
}

/// Floor division of an `i64` by a positive divisor, matching mathematical
/// integer division.
pub fn div_floor_i64(a: i64, b: i64) -> (r: i64)
    requires
        b > 0,
        i64::MIN as int <= (a as int) / (b as int),
    ensures
        r == (a as int) / (b as int),
{
    if a >= 0 {
        proof {
            vstd::arithmetic::div_mod::lemma_div_nonincreasing(a as int, b as int);
            vstd::arithmetic::div_mod::lemma_div_pos_is_pos(a as int, b as int);
        }
        a / b
    } else {
        let m: i128 = -(a as i128);
        let t: i128 = (m + (b as i128) - 1) / (b as i128);
        proof {
            lemma_neg_floor_div_i64(a as int, b as int, m as int, t as int);
        }
        (-t) as i64
    }
}

proof fn lemma_neg_floor_div_i64(a: int, b: int, m: int, t: int)
    requires
        b > 0,
        a < 0,
        m == -a,
        t == (m + b - 1) / b,
    ensures
        -t == a / b,
        0 < t <= m,
{
    vstd::arithmetic::div_mod::lemma_fundamental_div_mod(m + b - 1, b);
    let s = (m + b - 1) % b;
    assert(m + b - 1 == b * t + s);
    vstd::arithmetic::mul::lemma_mul_is_commutative(b, t);
    assert(t * b == m + b - 1 - s);
    assert(m <= t * b <= m + b - 1);
    let r = t * b - m;
    assert(a == (-t) * b + r) by {
        vstd::arithmetic::mul::lemma_mul_unary_negation(t, b);
    }
    vstd::arithmetic::div_mod::lemma_fundamental_div_mod_converse(a, b, -t, r);
    assert(t > 0 && t <= m) by (nonlinear_arith)
        requires
            t * b >= m,
            t * b <= m + b - 1,
            m >= 1,
            b > 0,
    ;
}

} // verus!
