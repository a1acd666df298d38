use snark_testcs::circuit::{
    boolean_type, integer_type, Boolean, CircuitType, Count, Integer, IntegerType, Mode,
};
use snark_testcs::compare::{count, output_type};

const MODES: [Mode; 3] = [Mode::Constant, Mode::Public, Mode::Private];

fn check_compare_unsigned(kind: IntegerType, first: u128, second: u128, mode_a: Mode, mode_b: Mode) {
    let a = Integer::new_unsigned(mode_a, kind, first);
    let b = Integer::new_unsigned(mode_b, kind, second);
    check_all(&a, &b, first < second, first <= second, first > second, first >= second);
}

fn check_compare_signed(kind: IntegerType, first: i128, second: i128, mode_a: Mode, mode_b: Mode) {
    let a = Integer::new_signed(mode_a, kind, first);
    let b = Integer::new_signed(mode_b, kind, second);
    check_all(&a, &b, first < second, first <= second, first > second, first >= second);
}

fn check_all(a: &Integer, b: &Integer, lt: bool, le: bool, gt: bool, ge: bool) {
    let case = (integer_type(a), integer_type(b));
    let expected_mode = if a.is_constant() && b.is_constant() { Mode::Constant } else { Mode::Private };

    let candidate = a.is_less_than(b);
    assert_eq!(lt, candidate.eject_value());
    assert_eq!(expected_mode, candidate.eject_mode());
    assert_eq!(boolean_type(&candidate), output_type(case));

    let candidate = a.is_less_than_or_equal(b);
    assert_eq!(le, candidate.eject_value());
    assert_eq!(output_type(case).eject_mode(), candidate.eject_mode());

    let candidate = a.is_greater_than(b);
    assert_eq!(gt, candidate.eject_value());
    assert_eq!(output_type(case).eject_mode(), candidate.eject_mode());

    let candidate = a.is_greater_than_or_equal(b);
    assert_eq!(ge, candidate.eject_value());
    assert_eq!(output_type(case).eject_mode(), candidate.eject_mode());
}

#[test]
fn compare_u8_exhaustive() {
    for mode_a in MODES {
        for mode_b in MODES {
            for first in 0..=255u128 {
                for second in (0..=255u128).step_by(3) {
                    check_compare_unsigned(IntegerType::U8, first, second, mode_a, mode_b);
                }
            }
        }
    }
}

#[test]
fn compare_i8_exhaustive() {
    for mode_a in MODES {
        for mode_b in MODES {
            for first in -128..=127i128 {
                for second in (-128..=127i128).step_by(3) {
                    check_compare_signed(IntegerType::I8, first, second, mode_a, mode_b);
                }
            }
        }
    }
}

#[test]
fn compare_wide_types_at_the_edges() {
    let unsigned = [
        (IntegerType::U16, u16::MAX as u128),
        (IntegerType::U32, u32::MAX as u128),
        (IntegerType::U64, u64::MAX as u128),
        (IntegerType::U128, u128::MAX),
    ];
    for (kind, max) in unsigned {
        let values = [0, 1, max / 2, max / 2 + 1, max - 1, max];
        for mode_a in MODES {
            for mode_b in MODES {
                for &x in values.iter() {
                    for &y in values.iter() {
                        check_compare_unsigned(kind, x, y, mode_a, mode_b);
                    }
                }
            }
        }
    }
    let signed = [
        (IntegerType::I16, i16::MIN as i128, i16::MAX as i128),
        (IntegerType::I32, i32::MIN as i128, i32::MAX as i128),
        (IntegerType::I64, i64::MIN as i128, i64::MAX as i128),
        (IntegerType::I128, i128::MIN, i128::MAX),
    ];
    for (kind, min, max) in signed {
        let values = [min, min + 1, -1, 0, 1, max - 1, max];
        for mode_a in MODES {
            for mode_b in MODES {
                for &x in values.iter() {
                    for &y in values.iter() {
                        check_compare_signed(kind, x, y, mode_a, mode_b);
                    }
                }
            }
        }
    }
}

#[test]
fn compare_count_unsigned() {
    let c = Integer::new_unsigned(Mode::Constant, IntegerType::U8, 3);
    let p = Integer::new_unsigned(Mode::Public, IntegerType::U8, 3);
    let s = Integer::new_unsigned(Mode::Private, IntegerType::U8, 3);
    assert_eq!(count(IntegerType::U8, &(integer_type(&c), integer_type(&c))), Count::is(1, 0, 0, 0));
    assert_eq!(count(IntegerType::U8, &(integer_type(&c), integer_type(&p))), Count::is(8, 0, 9, 10));
    assert_eq!(count(IntegerType::U8, &(integer_type(&s), integer_type(&p))), Count::is(8, 0, 9, 10));
    assert_eq!(
        count(IntegerType::U128, &(CircuitType::Private, CircuitType::Public)),
        Count::is(128, 0, 129, 130)
    );
}

#[test]
fn compare_count_signed() {
    let c = Integer::new_signed(Mode::Constant, IntegerType::I16, -3);
    assert_eq!(count(IntegerType::I16, &(integer_type(&c), integer_type(&c))), Count::is(1, 0, 0, 0));
    assert_eq!(count(IntegerType::I16, &(integer_type(&c), CircuitType::Private)), Count::is(16, 0, 18, 19));
    assert_eq!(count(IntegerType::I16, &(CircuitType::Public, integer_type(&c))), Count::is(16, 0, 18, 19));
    assert_eq!(count(IntegerType::I16, &(CircuitType::Public, CircuitType::Private)), Count::is(16, 0, 20, 21));
}

#[test]
fn compare_output_type_of_constants() {
    let a = Integer::new_signed(Mode::Constant, IntegerType::I32, -5);
    let b = Integer::new_signed(Mode::Constant, IntegerType::I32, 7);
    assert_eq!(
        output_type((integer_type(&a), integer_type(&b))),
        CircuitType::Constant(Boolean::new(Mode::Constant, true))
    );
    assert_eq!(
        output_type((integer_type(&b), integer_type(&a))),
        CircuitType::Constant(Boolean::new(Mode::Constant, false))
    );
    assert_eq!(output_type((integer_type(&a), CircuitType::Public)), CircuitType::Private);
}

#[test]
fn compare_output_type_of_variables() {
    let c = Integer::new_unsigned(Mode::Constant, IntegerType::U8, 3);
    assert_eq!(output_type((CircuitType::Public, CircuitType::Public)), CircuitType::Private);
    assert_eq!(output_type((CircuitType::Public, CircuitType::Private)), CircuitType::Private);
    assert_eq!(output_type((CircuitType::Private, integer_type(&c))), CircuitType::Private);
}

#[test]
fn integer_values_round_trip() {
    let x = Integer::new_signed(Mode::Public, IntegerType::I64, -2);
    assert_eq!(x.eject_signed(), -2);
    assert_eq!(x.raw(), u64::MAX as u128 - 1);
    assert!(x.msb());
    let y = Integer::new_unsigned(Mode::Private, IntegerType::U16, 0x8000);
    assert_eq!(y.eject_unsigned(), 0x8000);
    assert!(y.msb());
    assert_eq!(y.to_field(), snark_testcs::field::Fr::from_u64(0x8000));
}
