//! The prime field that every protocol value lives in.
//!
//! Elements are kept in canonical reduced form (a representative in
//! `[0, MODULUS)`), so equality of elements is equality of representatives.
//! The modulus is `2^64 - 2^32 + 1`, a prime small enough that sums fit in
//! a `u128` and products of two reduced elements fit in a `u128`, which lets
//! every operation be computed exactly and then reduced.

use vstd::prelude::*;
use vstd::arithmetic::div_mod::{
    lemma_small_mod, lemma_mod_add_multiples_vanish, lemma_add_mod_noop, lemma_add_mod_noop_right,
    lemma_sub_mod_noop, lemma_mul_mod_noop_right, lemma_mod_bound,
};
use vstd::arithmetic::mul::lemma_mul_upper_bound;

verus! {

/// The field modulus: the prime `2^64 - 2^32 + 1`.
pub const MODULUS: u64 = 0xffff_ffff_0000_0001;

/// The modulus as a spec-level integer.
pub open spec fn p() -> int {
    MODULUS as int
}

/// A spec value is a canonical field representative when it lies in `[0, p)`.
pub open spec fn in_field(a: int) -> bool {
    0 <= a < p()
}

/// Field addition on representatives.
pub open spec fn f_add(a: int, b: int) -> int {
    (a + b) % p()
}

/// Field subtraction on representatives.
pub open spec fn f_sub(a: int, b: int) -> int {
    (a - b) % p()
}

/// Field multiplication on representatives.
pub open spec fn f_mul(a: int, b: int) -> int {
    (a * b) % p()
}

/// The canonical 8-byte big-endian encoding of a representative.
#[verifier::opaque]
pub open spec fn fp_bytes(x: int) -> Seq<u8> {
    seq![
        ((x / 0x100000000000000) % 256) as u8,
        ((x / 0x1000000000000) % 256) as u8,
        ((x / 0x10000000000) % 256) as u8,
        ((x / 0x100000000) % 256) as u8,
        ((x / 0x1000000) % 256) as u8,
        ((x / 0x10000) % 256) as u8,
        ((x / 0x100) % 256) as u8,
        (x % 256) as u8,
    ]
}

/// The value of a big-endian byte string, reduced modulo `p`.
pub open spec fn bytes_mod(s: Seq<u8>) -> int
    decreases s.len(),
{
    if s.len() == 0 {
        0
    } else {
        f_add(f_mul(bytes_mod(s.drop_last()), 256), s.last() as int)
    }
}

/// An element of the prime field, kept in canonical reduced form.
#[derive(Clone, Copy, PartialEq, Eq, Structural, Debug)]
pub struct Fp {
    v: u64,
}

impl View for Fp {
    type V = int;

    closed spec fn view(&self) -> int {
        self.v as int
    }
}

impl Fp {
    /// Build an element from an integer, reducing it modulo `p`.
    pub fn new(x: u64) -> (r: Fp)
        ensures
            r@ == (x as int) % p(),
            in_field(r@),
    {
        Fp { v: x % MODULUS }
    }

    /// The additive identity.
    pub fn zero() -> (r: Fp)
        ensures
            r@ == 0,
            in_field(r@),
    {
        Fp { v: 0 }
    }

    /// The multiplicative identity.
    pub fn one() -> (r: Fp)
        ensures
            r@ == 1,
            in_field(r@),
    {
        Fp { v: 1 }
    }

    /// Field addition.
    pub fn add(self, rhs: Fp) -> (r: Fp)
        requires
            in_field(self@),
            in_field(rhs@),
        ensures
            r@ == f_add(self@, rhs@),
            in_field(r@),
    {
        let s: u128 = self.v as u128 + rhs.v as u128;
        let m: u128 = s % (MODULUS as u128);
        Fp { v: m as u64 }
    }

    /// Field subtraction.
    pub fn sub(self, rhs: Fp) -> (r: Fp)
        requires
            in_field(self@),
            in_field(rhs@),
        ensures
            r@ == f_sub(self@, rhs@),
            in_field(r@),
    {
        if self.v >= rhs.v {
            proof {
                lemma_small_mod((self@ - rhs@) as nat, MODULUS as nat);
            }
            Fp { v: self.v - rhs.v }
        } else {
            proof {
                lemma_mod_add_multiples_vanish(self@ - rhs@, p());
                lemma_small_mod((self@ - rhs@ + p()) as nat, MODULUS as nat);
            }
            Fp { v: MODULUS - (rhs.v - self.v) }
        }
    }

    /// Field multiplication.
    pub fn mul(self, rhs: Fp) -> (r: Fp)
        requires
            in_field(self@),
            in_field(rhs@),
        ensures
            r@ == f_mul(self@, rhs@),
            in_field(r@),
    {
        proof {
            lemma_mul_upper_bound(self@, p() - 1, rhs@, p() - 1);
            assert((p() - 1) * (p() - 1) <= u128::MAX as int) by (nonlinear_arith);
        }
        let prod: u128 = (self.v as u128) * (rhs.v as u128);
        let m: u128 = prod % (MODULUS as u128);
        Fp { v: m as u64 }
    }

    /// The canonical big-endian encoding, 8 bytes wide.
    pub fn to_be_bytes(&self) -> (r: Vec<u8>)
        ensures
            r@ == fp_bytes(self@),
    {
        let mut out: Vec<u8> = Vec::new();
        out.push((self.v / 0x100000000000000 % 256) as u8);
        out.push((self.v / 0x1000000000000 % 256) as u8);
        out.push((self.v / 0x10000000000 % 256) as u8);
        out.push((self.v / 0x100000000 % 256) as u8);
        out.push((self.v / 0x1000000 % 256) as u8);
        out.push((self.v / 0x10000 % 256) as u8);
        out.push((self.v / 0x100 % 256) as u8);
        out.push((self.v % 256) as u8);
        proof {
            reveal(fp_bytes);
            assert(out@ =~= fp_bytes(self@));
        }
        out
    }

    /// Interpret a big-endian byte string as an integer and reduce it
    /// modulo `p`.
    pub fn from_be_bytes_mod_order(bytes: &Vec<u8>) -> (r: Fp)
        ensures
            r@ == bytes_mod(bytes@),
            in_field(r@),
    {
        let mut acc: u64 = 0;
        let mut i: usize = 0;
        while i < bytes.len()
            invariant
                i <= bytes@.len(),
                acc < MODULUS,
                acc as int == bytes_mod(bytes@.take(i as int)),
            decreases bytes@.len() - i,
        {
            let b = bytes[i];
            let t: u128 = (acc as u128) * 256 + (b as u128);
            let m: u128 = t % (MODULUS as u128);
            proof {
                assert(bytes@.take(i as int + 1).drop_last() =~= bytes@.take(i as int));
                assert(bytes@.take(i as int + 1).last() == bytes@[i as int]);
                lemma_small_mod(b as nat, MODULUS as nat);
                lemma_add_mod_noop(acc as int * 256, b as int, p());
            }
            acc = m as u64;
            i = i + 1;
        }
        proof {
            assert(bytes@.take(bytes@.len() as int) =~= bytes@);
            if bytes@.len() > 0 {
                lemma_mod_bound(
                    f_mul(bytes_mod(bytes@.drop_last()), 256) + bytes@.last() as int,
                    p(),
                );
            }
        }
        Fp { v: acc }
    }
}

/// Two elements are equal exactly when their representatives are.
pub proof fn lemma_fp_eq(a: Fp, b: Fp)
    ensures
        (a == b) <==> (a@ == b@),
{
}

/// Field addition is associative.
pub proof fn lemma_f_add_assoc(x: int, y: int, z: int)
    ensures
        f_add(f_add(x, y), z) == f_add(x, f_add(y, z)),
{
    lemma_add_mod_noop(x + y, z, p());
    lemma_small_mod((z % p()) as nat, MODULUS as nat);
    assert(f_add(f_add(x, y), z) == (x + y + z) % p());
    lemma_add_mod_noop_right(x, y + z, p());
    assert(f_add(x, f_add(y, z)) == (x + y + z) % p());
}

/// Combining two affine interpolations through a common scalar `c` is the
/// affine interpolation of the combined endpoints: the pointwise identity
/// behind round-polynomial folding.
pub proof fn lemma_interp_add(x1: int, y1: int, x2: int, y2: int, c: int)
    ensures
        f_add(
            f_add(x1, f_mul(c, f_sub(y1, x1))),
            f_add(x2, f_mul(c, f_sub(y2, x2))),
        ) == f_add(f_add(x1, x2), f_mul(c, f_sub(f_add(y1, y2), f_add(x1, x2)))),
{
    let m = p();
    // Left side: reduce each interpolation to a single residue.
    lemma_mul_mod_noop_right(c, y1 - x1, m);
    assert(f_mul(c, f_sub(y1, x1)) == (c * (y1 - x1)) % m);
    lemma_add_mod_noop_right(x1, c * (y1 - x1), m);
    assert(f_add(x1, f_mul(c, f_sub(y1, x1))) == (x1 + c * (y1 - x1)) % m);
    lemma_mul_mod_noop_right(c, y2 - x2, m);
    lemma_add_mod_noop_right(x2, c * (y2 - x2), m);
    assert(f_add(x2, f_mul(c, f_sub(y2, x2))) == (x2 + c * (y2 - x2)) % m);
    lemma_add_mod_noop(x1 + c * (y1 - x1), x2 + c * (y2 - x2), m);
    assert(f_add(
        f_add(x1, f_mul(c, f_sub(y1, x1))),
        f_add(x2, f_mul(c, f_sub(y2, x2))),
    ) == (x1 + c * (y1 - x1) + (x2 + c * (y2 - x2))) % m);
    // Right side: the same residue.
    lemma_sub_mod_noop(y1 + y2, x1 + x2, m);
    assert(f_sub(f_add(y1, y2), f_add(x1, x2)) == ((y1 + y2) - (x1 + x2)) % m);
    lemma_mul_mod_noop_right(c, (y1 + y2) - (x1 + x2), m);
    assert(f_mul(c, f_sub(f_add(y1, y2), f_add(x1, x2))) == (c * ((y1 + y2) - (x1 + x2))) % m);
    lemma_add_mod_noop(x1 + x2, c * ((y1 + y2) - (x1 + x2)), m);
    assert(f_add(f_add(x1, x2), f_mul(c, f_sub(f_add(y1, y2), f_add(x1, x2))))
        == ((x1 + x2) + c * ((y1 + y2) - (x1 + x2))) % m);
    // The two integers agree before reduction.
    assert(x1 + c * (y1 - x1) + (x2 + c * (y2 - x2)) == (x1 + x2) + c * ((y1 + y2) - (x1 + x2)))
        by (nonlinear_arith);
}

/// The reduced value of a byte string is a canonical representative.
pub proof fn lemma_bytes_mod_in_field(s: Seq<u8>)
    ensures
        in_field(bytes_mod(s)),
{
    if s.len() == 0 {
    } else {
        lemma_mod_bound(f_mul(bytes_mod(s.drop_last()), 256) + s.last() as int, p());
    }
}

} // verus!
