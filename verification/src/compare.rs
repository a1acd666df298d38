//! Comparison of integer circuit values, and the counts and output types that
//! the comparison declares.
use vstd::arithmetic::div_mod::lemma_fundamental_div_mod_converse;
use vstd::arithmetic::power2::{lemma2_to64, lemma_pow2_adds, pow2};
use vstd::prelude::*;

use crate::circuit::{
    spec_boolean_type, Boolean, CircuitType, Count, Integer, IntegerType, Mode, boolean_type,
};
use crate::field::{bit_of, modulus, Fr};

verus! {

/// 2^bits is the span of the type.
proof fn lemma_span_is_pow2(kind: IntegerType)
    ensures
        pow2(kind.spec_bits()) == kind.spec_span(),
{
    lemma2_to64();
    lemma_pow2_adds(64, 64);
}

/// Below 2^(n+1), bit `n` is set exactly from 2^n up.
proof fn lemma_top_bit(v: nat, n: nat)
    requires
        v < 2 * pow2(n),
    ensures
        bit_of(v, n) <==> v >= pow2(n),
{
    vstd::arithmetic::power2::lemma_pow2_pos(n);
    if v >= pow2(n) {
        lemma_fundamental_div_mod_converse(v as int, pow2(n) as int, 1, v - pow2(n));
    } else {
        lemma_fundamental_div_mod_converse(v as int, pow2(n) as int, 0, v as int);
    }
}

/// Whether `a` is below `b`, the comparison the gadget computes.
pub open spec fn spec_less_than(a: Integer, b: Integer) -> bool {
    a.spec_value() < b.spec_value()
}

/// The mode of the comparison's result: constant for two constants, else private.
pub open spec fn spec_compare_mode(a: Integer, b: Integer) -> Mode {
    if a.spec_mode() == Mode::Constant && b.spec_mode() == Mode::Constant {
        Mode::Constant
    } else {
        Mode::Private
    }
}

/// Bit `bits` of `(2^bits - 1) + ua - ub + 1`, computed in the field: set
/// exactly when `ua >= ub`.
fn carry_bit(kind: IntegerType, a: &Integer, b: &Integer) -> (r: bool)
    requires
        a.spec_kind() == kind,
        b.spec_kind() == kind,
    ensures
        r == (a.spec_raw() >= b.spec_raw()),
{
    let ua = a.raw();
    let ub = b.raw();
    let n = kind.bits();
    // (2^bits - 1) + a - b + 1
    let mut v = Fr::from_u128(kind.all_ones());
    v.add_assign(&a.to_field());
    proof {
        assert(kind.spec_span() - 1 + ua < modulus());
        vstd::arithmetic::div_mod::lemma_small_mod(
            (kind.spec_span() - 1 + ua) as nat,
            modulus(),
        );
    }
    v.sub_assign(&b.to_field());
    proof {
        assert(0 <= kind.spec_span() - 1 + ua - ub < modulus());
        vstd::arithmetic::div_mod::lemma_small_mod(
            (kind.spec_span() - 1 + ua - ub) as nat,
            modulus(),
        );
    }
    v.add_assign(&Fr::one());
    proof {
        vstd::arithmetic::div_mod::lemma_small_mod(
            (kind.spec_span() + ua - ub) as nat,
            modulus(),
        );
        assert(v@ == kind.spec_span() + ua - ub);
    }
    let bits = v.to_lower_bits_le((n + 1) as usize);
    let bit = bits[n as usize];
    proof {
        lemma_span_is_pow2(kind);
        lemma_top_bit(v@, n as nat);
    }
    bit
}

impl Integer {
    /// `self < other`: for two constants a constant, otherwise computed through an
    /// overflow check and held privately.
    pub fn is_less_than(&self, other: &Integer) -> (r: Boolean)
        requires
            self.spec_kind() == other.spec_kind(),
        ensures
            r.value == spec_less_than(*self, *other),
            r.mode == spec_compare_mode(*self, *other),
    {
        let kind = self.kind();
        if self.is_constant() && other.is_constant() {
            // compare the values directly
            let lt = if kind.is_signed() {
                self.eject_signed() < other.eject_signed()
            } else {
                self.eject_unsigned() < other.eject_unsigned()
            };
            Boolean::new(Mode::Constant, lt)
        } else if kind.is_signed() {
            // Different signs: self < other exactly when self is negative and other is not.
            // Same signs: self < other exactly when 2^bits - 1 + self - other + 1 has
            // no carry out of the low `bits` bits.
            let self_msb = self.msb();
            let other_msb = other.msb();
            let same_sign = self_msb == other_msb;
            let self_is_negative_and_other_is_positive = self_msb && !other_msb;
            let bit = carry_bit(kind, self, other);
            let lt = if same_sign {
                !bit
            } else {
                self_is_negative_and_other_is_positive
            };
            Boolean::new(Mode::Private, lt)
        } else {
            // self < other exactly when MAX + self - other + 1 does not overflow.
            let bit = carry_bit(kind, self, other);
            Boolean::new(Mode::Private, !bit)
        }
    }

    /// `self > other`.
    pub fn is_greater_than(&self, other: &Integer) -> (r: Boolean)
        requires
            self.spec_kind() == other.spec_kind(),
        ensures
            r.value == (self.spec_value() > other.spec_value()),
            r.mode == spec_compare_mode(*self, *other),
    {
        other.is_less_than(self)
    }

    /// `self <= other`.
    pub fn is_less_than_or_equal(&self, other: &Integer) -> (r: Boolean)
        requires
            self.spec_kind() == other.spec_kind(),
        ensures
            r.value == (self.spec_value() <= other.spec_value()),
            r.mode == spec_compare_mode(*self, *other),
    {
        other.is_greater_than_or_equal(self)
    }

    /// `self >= other`.
    pub fn is_greater_than_or_equal(&self, other: &Integer) -> (r: Boolean)
        requires
            self.spec_kind() == other.spec_kind(),
        ensures
            r.value == (self.spec_value() >= other.spec_value()),
            r.mode == spec_compare_mode(*self, *other),
    {
        self.is_less_than(other).not()
    }
}

/// The count the comparison declares for operands of type `kind` and the given types.
pub open spec fn spec_count(
    kind: IntegerType,
    case: (CircuitType<Integer>, CircuitType<Integer>),
) -> Count {
    let n = kind.spec_bits() as u64;
    let both_constant = case.0.spec_mode() == Mode::Constant && case.1.spec_mode()
        == Mode::Constant;
    let one_constant = case.0.spec_mode() == Mode::Constant || case.1.spec_mode()
        == Mode::Constant;
    if both_constant {
        Count { num_constants: 1, num_public: 0, num_private: 0, num_constraints: 0 }
    } else if kind.spec_is_signed() && one_constant {
        Count {
            num_constants: n,
            num_public: 0,
            num_private: (n + 2) as u64,
            num_constraints: (n + 3) as u64,
        }
    } else if kind.spec_is_signed() {
        Count {
            num_constants: n,
            num_public: 0,
            num_private: (n + 4) as u64,
            num_constraints: (n + 5) as u64,
        }
    } else {
        Count {
            num_constants: n,
            num_public: 0,
            num_private: (n + 1) as u64,
            num_constraints: (n + 2) as u64,
        }
    }
}

/// The numbers of constants, public and private variables and constraints that
/// a comparison of two integers of type `kind` with the given types adds.
pub fn count(kind: IntegerType, case: &(CircuitType<Integer>, CircuitType<Integer>)) -> (r: Count)
    ensures
        r == spec_count(kind, *case),
{
    let n = kind.bits() as u64;
    let m0 = case.0.eject_mode();
    let m1 = case.1.eject_mode();
    if kind.is_signed() {
        match (m0, m1) {
            (Mode::Constant, Mode::Constant) => Count::is(1, 0, 0, 0),
            (Mode::Constant, _) | (_, Mode::Constant) => Count::is(n, 0, n + 2, n + 3),
            (_, _) => Count::is(n, 0, n + 4, n + 5),
        }
    } else {
        match (m0, m1) {
            (Mode::Constant, Mode::Constant) => Count::is(1, 0, 0, 0),
            (_, _) => Count::is(n, 0, n + 1, n + 2),
        }
    }
}

/// The type of the comparison's result: for two constants the constant `a < b`,
/// otherwise a private variable.
pub open spec fn spec_output_type(case: (CircuitType<Integer>, CircuitType<Integer>)) -> CircuitType<
    Boolean,
> {
    match (case.0, case.1) {
        (CircuitType::Constant(a), CircuitType::Constant(b)) => spec_boolean_type(
            Boolean { mode: spec_compare_mode(a, b), value: spec_less_than(a, b) },
        ),
        (_, _) => CircuitType::Private,
    }
}

/// The type of the comparison's result for operands of the given types.
pub fn output_type(case: (CircuitType<Integer>, CircuitType<Integer>)) -> (r: CircuitType<Boolean>)
    requires
        match (case.0, case.1) {
            (CircuitType::Constant(a), CircuitType::Constant(b)) => a.spec_kind() == b.spec_kind(),
            (_, _) => true,
        },
    ensures
        r == spec_output_type(case),
{
    match (case.0, case.1) {
        (CircuitType::Constant(a), CircuitType::Constant(b)) => boolean_type(&a.is_less_than(&b)),
        (_, _) => CircuitType::Private,
    }
}

} // verus!
