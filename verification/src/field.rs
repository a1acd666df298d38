//! Elements of the scalar field Fr of BLS12-377.
//!
//! An element is held as four little-endian 64-bit limbs of its canonical
//! representative; the arithmetic itself is done by `snarkvm-fields`.
use vstd::arithmetic::div_mod::{lemma_div_denominator, lemma_fundamental_div_mod_converse};
use vstd::arithmetic::power2::{lemma_pow2_unfold, pow2};
use vstd::prelude::*;

use snarkvm_fields::PrimeField;
use snarkvm_utilities::biginteger::BigInteger256;

verus! {

/// Little-endian 64-bit limbs of a non-negative integer below 2^256.
pub type Limbs = (u64, u64, u64, u64);

/// The integer that four little-endian limbs stand for.
pub open spec fn limbs_value(l: Limbs) -> nat {
    l.0 as nat + l.1 as nat * 0x1_0000_0000_0000_0000nat + l.2 as nat
        * 0x1_0000_0000_0000_0000_0000_0000_0000_0000nat + l.3 as nat
        * 0x1_0000_0000_0000_0000_0000_0000_0000_0000_0000_0000_0000_0000nat
}

/// The order of the scalar field of BLS12-377.
pub open spec fn modulus() -> nat {
    8444461749428370424248824938781546531375899335154063827935233455917409239041nat
}

/// Bit `i` (little-endian) of the non-negative integer `v`.
pub open spec fn bit_of(v: nat, i: nat) -> bool {
    (v / pow2(i)) % 2 == 1
}

/// `Fp256::add` of snarkvm-fields on BLS12-377's Fr, on canonical limbs.
/// Claimed: the canonical limbs of the sum modulo the field order.
#[verifier::external_body]
fn limbs_add(a: Limbs, b: Limbs) -> (r: Limbs)
    requires
        limbs_value(a) < modulus(),
        limbs_value(b) < modulus(),
    ensures
        limbs_value(r) == (limbs_value(a) + limbs_value(b)) % modulus(),
{
    let x = snarkvm_curves::bls12_377::Fr::from_bigint(BigInteger256([a.0, a.1, a.2, a.3])).unwrap();
    let y = snarkvm_curves::bls12_377::Fr::from_bigint(BigInteger256([b.0, b.1, b.2, b.3])).unwrap();
    let r = (x + &y).to_bigint().0;
    (r[0], r[1], r[2], r[3])
}

/// `Fp256::sub` of snarkvm-fields on BLS12-377's Fr, on canonical limbs.
/// Claimed: the canonical limbs of the difference modulo the field order.
#[verifier::external_body]
fn limbs_sub(a: Limbs, b: Limbs) -> (r: Limbs)
    requires
        limbs_value(a) < modulus(),
        limbs_value(b) < modulus(),
    ensures
        limbs_value(r) == (limbs_value(a) - limbs_value(b)) % (modulus() as int),
{
    let x = snarkvm_curves::bls12_377::Fr::from_bigint(BigInteger256([a.0, a.1, a.2, a.3])).unwrap();
    let y = snarkvm_curves::bls12_377::Fr::from_bigint(BigInteger256([b.0, b.1, b.2, b.3])).unwrap();
    let r = (x - &y).to_bigint().0;
    (r[0], r[1], r[2], r[3])
}

/// `Fp256::mul` of snarkvm-fields on BLS12-377's Fr, on canonical limbs.
/// Claimed: the canonical limbs of the product modulo the field order.
#[verifier::external_body]
fn limbs_mul(a: Limbs, b: Limbs) -> (r: Limbs)
    requires
        limbs_value(a) < modulus(),
        limbs_value(b) < modulus(),
    ensures
        limbs_value(r) == (limbs_value(a) * limbs_value(b)) % modulus(),
{
    let x = snarkvm_curves::bls12_377::Fr::from_bigint(BigInteger256([a.0, a.1, a.2, a.3])).unwrap();
    let y = snarkvm_curves::bls12_377::Fr::from_bigint(BigInteger256([b.0, b.1, b.2, b.3])).unwrap();
    let r = (x * &y).to_bigint().0;
    (r[0], r[1], r[2], r[3])
}

/// Equal values have equal limbs.
pub proof fn lemma_limbs_injective(x: Limbs, y: Limbs)
    requires
        limbs_value(x) == limbs_value(y),
    ensures
        x == y,
{
    let b: int = 0x1_0000_0000_0000_0000;
    let v = limbs_value(x) as int;
    let qx = x.1 as int + x.2 as int * b + x.3 as int * b * b;
    let qy = y.1 as int + y.2 as int * b + y.3 as int * b * b;
    assert(v == qx * b + x.0 as int) by (nonlinear_arith)
        requires
            v == x.0 as nat + x.1 as nat * 0x1_0000_0000_0000_0000nat + x.2 as nat
                * 0x1_0000_0000_0000_0000_0000_0000_0000_0000nat + x.3 as nat
                * 0x1_0000_0000_0000_0000_0000_0000_0000_0000_0000_0000_0000_0000nat,
            b == 0x1_0000_0000_0000_0000,
            qx == x.1 as int + x.2 as int * b + x.3 as int * b * b,
    ;
    assert(v == qy * b + y.0 as int) by (nonlinear_arith)
        requires
            v == y.0 as nat + y.1 as nat * 0x1_0000_0000_0000_0000nat + y.2 as nat
                * 0x1_0000_0000_0000_0000_0000_0000_0000_0000nat + y.3 as nat
                * 0x1_0000_0000_0000_0000_0000_0000_0000_0000_0000_0000_0000_0000nat,
            b == 0x1_0000_0000_0000_0000,
            qy == y.1 as int + y.2 as int * b + y.3 as int * b * b,
    ;
    lemma_fundamental_div_mod_converse(v, b, qx, x.0 as int);
    lemma_fundamental_div_mod_converse(v, b, qy, y.0 as int);
    let rx = x.2 as int + x.3 as int * b;
    let ry = y.2 as int + y.3 as int * b;
    assert(qx == rx * b + x.1 as int) by (nonlinear_arith)
        requires
            qx == x.1 as int + x.2 as int * b + x.3 as int * b * b,
            rx == x.2 as int + x.3 as int * b,
    ;
    assert(qy == ry * b + y.1 as int) by (nonlinear_arith)
        requires
            qy == y.1 as int + y.2 as int * b + y.3 as int * b * b,
            ry == y.2 as int + y.3 as int * b,
    ;
    lemma_fundamental_div_mod_converse(qx, b, rx, x.1 as int);
    lemma_fundamental_div_mod_converse(qy, b, ry, y.1 as int);
    lemma_fundamental_div_mod_converse(rx, b, x.3 as int, x.2 as int);
    lemma_fundamental_div_mod_converse(ry, b, y.3 as int, y.2 as int);
}

/// An element of the scalar field Fr of BLS12-377.
#[derive(Clone, Copy, Debug, PartialEq, Eq, Structural)]
pub struct Fr {
    l0: u64,
    l1: u64,
    l2: u64,
    l3: u64,
}

impl Fr {
    #[verifier::type_invariant]
    spec fn canonical(self) -> bool {
        limbs_value(self.spec_limbs()) < modulus()
    }

    /// The limbs of the canonical representative.
    pub closed spec fn spec_limbs(self) -> Limbs {
        (self.l0, self.l1, self.l2, self.l3)
    }

    fn with_limbs(l: Limbs) -> (r: Fr)
        requires
            limbs_value(l) < modulus(),
        ensures
            r.spec_limbs() == l,
    {
        Fr { l0: l.0, l1: l.1, l2: l.2, l3: l.3 }
    }
}

impl View for Fr {
    type V = nat;

    /// The canonical representative, an integer below the field order.
    closed spec fn view(&self) -> nat {
        limbs_value(self.spec_limbs())
    }
}

/// The value of an element is the integer its limbs stand for.
pub proof fn lemma_value_is_limbs_value(x: Fr)
    ensures
        x@ == limbs_value(x.spec_limbs()),
{
}

/// Two elements are equal exactly when their values are.
pub proof fn lemma_fr_eq_iff_value_eq(x: Fr, y: Fr)
    ensures
        (x == y) <==> (x@ == y@),
{
    if x@ == y@ {
        lemma_limbs_injective(x.spec_limbs(), y.spec_limbs());
    }
}

/// Shifting a limb right by one and filling its top bit from the next limb.
proof fn lemma_limb_shift(x: u64, y: u64)
    by (bit_vector)
    ensures
        ((x >> 1u64) | ((y & 1u64) << 63u64)) == (x >> 1u64) + (y & 1u64) * 0x8000_0000_0000_0000,
        x == 2 * (x >> 1u64) + (x & 1u64),
        (x & 1u64) == 0 || (x & 1u64) == 1,
        (y & 1u64) == 0 || (y & 1u64) == 1,
{
}

/// Shifts the limbs right by one bit, giving the bit that falls out.
fn limbs_halve(l: Limbs) -> (r: (Limbs, bool))
    ensures
        limbs_value(l) == 2 * limbs_value(r.0) + (if r.1 { 1int } else { 0int }),
{
    proof {
        lemma_limb_shift(l.0, l.1);
        lemma_limb_shift(l.1, l.2);
        lemma_limb_shift(l.2, l.3);
        lemma_limb_shift(l.3, 0);
    }
    let n0 = (l.0 >> 1u64) | ((l.1 & 1) << 63u64);
    let n1 = (l.1 >> 1u64) | ((l.2 & 1) << 63u64);
    let n2 = (l.2 >> 1u64) | ((l.3 & 1) << 63u64);
    let n3 = l.3 >> 1u64;
    let b = (l.0 & 1) == 1;
    ((n0, n1, n2, n3), b)
}

impl Fr {
    /// The additive identity.
    pub fn zero() -> (r: Fr)
        ensures
            r@ == 0,
            r.spec_limbs() == (0u64, 0u64, 0u64, 0u64),
    {
        Fr::with_limbs((0, 0, 0, 0))
    }

    /// The multiplicative identity.
    pub fn one() -> (r: Fr)
        ensures
            r@ == 1,
            r.spec_limbs() == (1u64, 0u64, 0u64, 0u64),
    {
        Fr::with_limbs((1, 0, 0, 0))
    }

    /// The element whose value is `v`.
    pub fn from_u64(v: u64) -> (r: Fr)
        ensures
            r@ == v,
    {
        Fr::with_limbs((v, 0, 0, 0))
    }

    /// The element whose value is `v`.
    pub fn from_u128(v: u128) -> (r: Fr)
        ensures
            r@ == v,
    {
        let lo = (v % 0x1_0000_0000_0000_0000) as u64;
        let hi = (v / 0x1_0000_0000_0000_0000) as u64;
        assert(v == hi * 0x1_0000_0000_0000_0000 + lo);
        Fr::with_limbs((lo, hi, 0, 0))
    }

    /// The element with the given little-endian limbs, if they stand for an
    /// integer below the field order.
    pub fn from_limbs(l: Limbs) -> (r: Option<Fr>)
        ensures
            r is Some <==> limbs_value(l) < modulus(),
            r matches Some(x) ==> x@ == limbs_value(l) && x.spec_limbs() == l,
    {
        // compare from the most significant limb down
        let m: Limbs = (
            725501752471715841u64,
            6461107452199829505u64,
            6968279316240510977u64,
            1345280370688173398u64,
        );
        assert(limbs_value(m) == modulus());
        let below = if l.3 != m.3 {
            l.3 < m.3
        } else if l.2 != m.2 {
            l.2 < m.2
        } else if l.1 != m.1 {
            l.1 < m.1
        } else {
            l.0 < m.0
        };
        if below {
            Some(Fr::with_limbs(l))
        } else {
            None
        }
    }

    /// The little-endian limbs of the canonical representative.
    pub fn limbs(&self) -> (r: Limbs)
        ensures
            r == self.spec_limbs(),
            limbs_value(r) == self@,
            limbs_value(r) < modulus(),
    {
        proof {
            use_type_invariant(self);
        }
        (self.l0, self.l1, self.l2, self.l3)
    }

    /// `self += other` in the field.
    pub fn add_assign(&mut self, other: &Fr)
        ensures
            final(self)@ == (old(self)@ + other@) % modulus(),
    {
        proof {
            use_type_invariant(&*self);
            use_type_invariant(other);
        }
        let r = limbs_add(self.limbs(), other.limbs());
        *self = Fr::with_limbs(r);
    }

    /// `self -= other` in the field.
    pub fn sub_assign(&mut self, other: &Fr)
        ensures
            final(self)@ == (old(self)@ - other@) % (modulus() as int),
    {
        proof {
            use_type_invariant(&*self);
            use_type_invariant(other);
        }
        let r = limbs_sub(self.limbs(), other.limbs());
        *self = Fr::with_limbs(r);
    }

    /// `self *= other` in the field.
    pub fn mul_assign(&mut self, other: &Fr)
        ensures
            final(self)@ == (old(self)@ * other@) % modulus(),
    {
        proof {
            use_type_invariant(&*self);
            use_type_invariant(other);
        }
        let r = limbs_mul(self.limbs(), other.limbs());
        *self = Fr::with_limbs(r);
    }

    /// The `k` lowest bits of the value, least significant first.
    pub fn to_lower_bits_le(&self, k: usize) -> (bits: Vec<bool>)
        ensures
            bits.len() == k,
            forall|i: int| 0 <= i < k ==> bits[i] == bit_of(self@, i as nat),
    {
        let mut cur = self.limbs();
        let mut bits: Vec<bool> = Vec::new();
        let mut i: usize = 0;
        proof {
            lemma2_pow2_zero();
        }
        while i < k
            invariant
                i <= k,
                bits.len() == i,
                limbs_value(cur) == self@ / pow2(i as nat),
                forall|j: int| 0 <= j < i ==> bits[j] == bit_of(self@, j as nat),
            decreases k - i,
        {
            let (next, b) = limbs_halve(cur);
            proof {
                let c = limbs_value(cur) as int;
                let n = limbs_value(next) as int;
                let r: int = if b { 1 } else { 0 };
                lemma_fundamental_div_mod_converse(c, 2, n, r);
                lemma_pow2_unfold((i + 1) as nat);
                vstd::arithmetic::power2::lemma_pow2_pos(i as nat);
                lemma_div_denominator(self@ as int, pow2(i as nat) as int, 2);
                assert(pow2((i + 1) as nat) == pow2(i as nat) * 2);
            }
            bits.push(b);
            cur = next;
            i = i + 1;
        }
        bits
    }
}

proof fn lemma2_pow2_zero()
    ensures
        pow2(0) == 1,
{
    vstd::arithmetic::power2::lemma2_to64();
}

} // verus!
