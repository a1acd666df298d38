//! Circuit values: the variable mode of a value, booleans and fixed-width
//! integers, and the constraint counts and output types that gadgets declare.
use vstd::prelude::*;

use crate::field::Fr;

verus! {

/// How a circuit value is held: as a constant, or as a public or private variable.
#[derive(Clone, Copy, Debug, PartialEq, Eq, Structural)]
pub enum Mode {
    Constant,
    Public,
    Private,
}

/// The fixed-width integer types of the circuit language.
#[derive(Clone, Copy, Debug, PartialEq, Eq, Structural)]
pub enum IntegerType {
    I8,
    I16,
    I32,
    I64,
    I128,
    U8,
    U16,
    U32,
    U64,
    U128,
}

impl IntegerType {
    /// The width in bits.
    pub open spec fn spec_bits(self) -> nat {
        match self {
            IntegerType::I8 | IntegerType::U8 => 8,
            IntegerType::I16 | IntegerType::U16 => 16,
            IntegerType::I32 | IntegerType::U32 => 32,
            IntegerType::I64 | IntegerType::U64 => 64,
            IntegerType::I128 | IntegerType::U128 => 128,
        }
    }

    /// Whether values are read in two's complement.
    pub open spec fn spec_is_signed(self) -> bool {
        match self {
            IntegerType::I8 | IntegerType::I16 | IntegerType::I32 | IntegerType::I64
            | IntegerType::I128 => true,
            _ => false,
        }
    }

    /// 2^bits: the number of bit patterns of the type.
    pub open spec fn spec_span(self) -> nat {
        match self {
            IntegerType::I8 | IntegerType::U8 => 0x100,
            IntegerType::I16 | IntegerType::U16 => 0x1_0000,
            IntegerType::I32 | IntegerType::U32 => 0x1_0000_0000,
            IntegerType::I64 | IntegerType::U64 => 0x1_0000_0000_0000_0000,
            IntegerType::I128 | IntegerType::U128 => 0x1_0000_0000_0000_0000_0000_0000_0000_0000nat,
        }
    }

    /// 2^(bits - 1): the weight of the most significant bit.
    pub open spec fn spec_half(self) -> nat {
        self.spec_span() / 2
    }

    /// The integer a bit pattern stands for in this type.
    pub open spec fn spec_value_of(self, raw: nat) -> int {
        if self.spec_is_signed() && raw >= self.spec_half() {
            raw - self.spec_span()
        } else {
            raw as int
        }
    }

    /// The width in bits.
    pub fn bits(&self) -> (r: u32)
        ensures
            r == self.spec_bits(),
    {
        match self {
            IntegerType::I8 | IntegerType::U8 => 8,
            IntegerType::I16 | IntegerType::U16 => 16,
            IntegerType::I32 | IntegerType::U32 => 32,
            IntegerType::I64 | IntegerType::U64 => 64,
            IntegerType::I128 | IntegerType::U128 => 128,
        }
    }

    /// Whether values are read in two's complement.
    pub fn is_signed(&self) -> (r: bool)
        ensures
            r == self.spec_is_signed(),
    {
        match self {
            IntegerType::I8 | IntegerType::I16 | IntegerType::I32 | IntegerType::I64
            | IntegerType::I128 => true,
            _ => false,
        }
    }

    /// The bit pattern with every bit set: `MAX` of an unsigned type, `-1` of a signed one.
    pub fn all_ones(&self) -> (r: u128)
        ensures
            r == self.spec_span() - 1,
    {
        match self {
            IntegerType::I8 | IntegerType::U8 => 0xff,
            IntegerType::I16 | IntegerType::U16 => 0xffff,
            IntegerType::I32 | IntegerType::U32 => 0xffff_ffff,
            IntegerType::I64 | IntegerType::U64 => 0xffff_ffff_ffff_ffff,
            IntegerType::I128 | IntegerType::U128 => 0xffff_ffff_ffff_ffff_ffff_ffff_ffff_ffff,
        }
    }

    /// The bit pattern with only the most significant bit set.
    pub fn top_bit(&self) -> (r: u128)
        ensures
            r == self.spec_half(),
    {
        match self {
            IntegerType::I8 | IntegerType::U8 => 0x80,
            IntegerType::I16 | IntegerType::U16 => 0x8000,
            IntegerType::I32 | IntegerType::U32 => 0x8000_0000,
            IntegerType::I64 | IntegerType::U64 => 0x8000_0000_0000_0000,
            IntegerType::I128 | IntegerType::U128 => 0x8000_0000_0000_0000_0000_0000_0000_0000,
        }
    }
}

/// A boolean circuit value.
#[derive(Clone, Copy, Debug, PartialEq, Eq, Structural)]
pub struct Boolean {
    pub mode: Mode,
    pub value: bool,
}

impl Boolean {
    /// A boolean of the given mode and value.
    pub fn new(mode: Mode, value: bool) -> (r: Boolean)
        ensures
            r == (Boolean { mode, value }),
    {
        Boolean { mode, value }
    }

    /// The value the boolean holds.
    pub fn eject_value(&self) -> (r: bool)
        ensures
            r == self.value,
    {
        self.value
    }

    /// The mode the boolean is held in.
    pub fn eject_mode(&self) -> (r: Mode)
        ensures
            r == self.mode,
    {
        self.mode
    }

    /// The negation: a constant stays constant, a variable becomes private.
    pub fn not(&self) -> (r: Boolean)
        ensures
            r.value == !self.value,
            r.mode == (if self.mode == Mode::Constant { Mode::Constant } else { Mode::Private }),
    {
        let mode = match self.mode {
            Mode::Constant => Mode::Constant,
            _ => Mode::Private,
        };
        Boolean { mode, value: !self.value }
    }
}

/// A fixed-width integer circuit value, held as its bit pattern.
#[derive(Clone, Copy, Debug, PartialEq, Eq, Structural)]
pub struct Integer {
    mode: Mode,
    kind: IntegerType,
    raw: u128,
}

impl Integer {
    #[verifier::type_invariant]
    spec fn fits(self) -> bool {
        self.raw < self.kind.spec_span()
    }

    /// The mode the integer is held in.
    pub closed spec fn spec_mode(self) -> Mode {
        self.mode
    }

    /// The type of the integer.
    pub closed spec fn spec_kind(self) -> IntegerType {
        self.kind
    }

    /// The bit pattern, read as an unsigned number.
    pub closed spec fn spec_raw(self) -> nat {
        self.raw as nat
    }

    /// The integer the value stands for.
    pub open spec fn spec_value(self) -> int {
        self.spec_kind().spec_value_of(self.spec_raw())
    }

    /// An unsigned integer of type `kind` with value `v`.
    pub fn new_unsigned(mode: Mode, kind: IntegerType, v: u128) -> (r: Integer)
        requires
            !kind.spec_is_signed(),
            v < kind.spec_span(),
        ensures
            r.spec_mode() == mode,
            r.spec_kind() == kind,
            r.spec_value() == v,
    {
        Integer { mode, kind, raw: v }
    }

    /// A signed integer of type `kind` with value `v`.
    pub fn new_signed(mode: Mode, kind: IntegerType, v: i128) -> (r: Integer)
        requires
            kind.spec_is_signed(),
            -(kind.spec_half() as int) <= v < kind.spec_half(),
        ensures
            r.spec_mode() == mode,
            r.spec_kind() == kind,
            r.spec_value() == v,
    {
        let raw = if v >= 0 {
            v as u128
        } else {
            // v + 2^bits, computed as (2^bits - 1) - (-(v + 1))
            kind.all_ones() - ((-(v + 1)) as u128)
        };
        Integer { mode, kind, raw }
    }

    /// The mode the integer is held in.
    pub fn eject_mode(&self) -> (r: Mode)
        ensures
            r == self.spec_mode(),
    {
        self.mode
    }

    /// The type of the integer.
    pub fn kind(&self) -> (r: IntegerType)
        ensures
            r == self.spec_kind(),
    {
        self.kind
    }

    /// Whether the integer is a constant.
    pub fn is_constant(&self) -> (r: bool)
        ensures
            r == (self.spec_mode() == Mode::Constant),
    {
        self.mode == Mode::Constant
    }

    /// The bit pattern, read as an unsigned number.
    pub fn raw(&self) -> (r: u128)
        ensures
            r == self.spec_raw(),
            r < self.spec_kind().spec_span(),
    {
        proof {
            use_type_invariant(self);
        }
        self.raw
    }

    /// The value of an unsigned integer.
    pub fn eject_unsigned(&self) -> (r: u128)
        requires
            !self.spec_kind().spec_is_signed(),
        ensures
            r == self.spec_value(),
    {
        self.raw
    }

    /// The value of a signed integer.
    pub fn eject_signed(&self) -> (r: i128)
        requires
            self.spec_kind().spec_is_signed(),
        ensures
            r == self.spec_value(),
    {
        proof {
            use_type_invariant(self);
        }
        if self.raw >= self.kind.top_bit() {
            // raw - 2^bits, computed as -((2^bits - 1) - raw) - 1
            -((self.kind.all_ones() - self.raw) as i128) - 1
        } else {
            self.raw as i128
        }
    }

    /// The most significant bit of the bit pattern (which is below 2^bits).
    pub fn msb(&self) -> (r: bool)
        ensures
            r == (self.spec_raw() >= self.spec_kind().spec_half()),
            self.spec_raw() < self.spec_kind().spec_span(),
    {
        proof {
            use_type_invariant(self);
        }
        self.raw >= self.kind.top_bit()
    }

    /// The field element whose little-endian bits are the integer's bit pattern.
    pub fn to_field(&self) -> (r: Fr)
        ensures
            r@ == self.spec_raw(),
    {
        Fr::from_u128(self.raw)
    }
}

/// What a gadget declares of a value's type: a constant (with its value), or a
/// public or private variable.
#[derive(Clone, Copy, Debug, PartialEq, Eq)]
pub enum CircuitType<T> {
    Constant(T),
    Public,
    Private,
}

impl<T> CircuitType<T> {
    /// The mode of values of this type.
    pub open spec fn spec_mode(self) -> Mode {
        match self {
            CircuitType::Constant(_) => Mode::Constant,
            CircuitType::Public => Mode::Public,
            CircuitType::Private => Mode::Private,
        }
    }

    /// The mode of values of this type.
    pub fn eject_mode(&self) -> (r: Mode)
        ensures
            r == self.spec_mode(),
    {
        match self {
            CircuitType::Constant(_) => Mode::Constant,
            CircuitType::Public => Mode::Public,
            CircuitType::Private => Mode::Private,
        }
    }
}

/// The circuit type of a boolean: its value if it is a constant, else its mode.
pub open spec fn spec_boolean_type(b: Boolean) -> CircuitType<Boolean> {
    match b.mode {
        Mode::Constant => CircuitType::Constant(b),
        Mode::Public => CircuitType::Public,
        Mode::Private => CircuitType::Private,
    }
}

/// The circuit type of an integer: its value if it is a constant, else its mode.
pub open spec fn spec_integer_type(x: Integer) -> CircuitType<Integer> {
    match x.spec_mode() {
        Mode::Constant => CircuitType::Constant(x),
        Mode::Public => CircuitType::Public,
        Mode::Private => CircuitType::Private,
    }
}

/// The circuit type of a boolean.
pub fn boolean_type(b: &Boolean) -> (r: CircuitType<Boolean>)
    ensures
        r == spec_boolean_type(*b),
{
    match b.mode {
        Mode::Constant => CircuitType::Constant(*b),
        Mode::Public => CircuitType::Public,
        Mode::Private => CircuitType::Private,
    }
}

/// The circuit type of an integer.
pub fn integer_type(x: &Integer) -> (r: CircuitType<Integer>)
    ensures
        r == spec_integer_type(*x),
{
    match x.eject_mode() {
        Mode::Constant => CircuitType::Constant(*x),
        Mode::Public => CircuitType::Public,
        Mode::Private => CircuitType::Private,
    }
}

/// The numbers of constants, public variables, private variables and
/// constraints that a gadget adds to a circuit.
#[derive(Clone, Copy, Debug, PartialEq, Eq, Structural)]
pub struct Count {
    pub num_constants: u64,
    pub num_public: u64,
    pub num_private: u64,
    pub num_constraints: u64,
}

impl Count {
    /// An exact count.
    pub fn is(num_constants: u64, num_public: u64, num_private: u64, num_constraints: u64) -> (r: Count)
        ensures
            r == (Count { num_constants, num_public, num_private, num_constraints }),
    {
        Count { num_constants, num_public, num_private, num_constraints }
    }
}

} // verus!
