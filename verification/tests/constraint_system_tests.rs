use snark_testcs::field::Fr;
use snark_testcs::r1cs::{Index, LinearCombination, LookupTable, SynthesisError, Variable};
use snark_testcs::test_constraint_system::{ConstraintSide, TestConstraintSystem};

fn lc(terms: &[(Variable, u64)]) -> LinearCombination {
    LinearCombination(terms.iter().map(|(v, c)| (*v, Fr::from_u64(*c))).collect())
}

/// x * y = z, with x, y private and z public, inside namespace "mul".
fn multiplication(x: u64, y: u64, z: u64) -> (TestConstraintSystem, Variable, Variable, Variable) {
    let mut cs = TestConstraintSystem::new();
    cs.push_namespace("mul");
    let a = cs.alloc_private("x", Ok(Fr::from_u64(x))).unwrap();
    let b = cs.alloc_private("y", Ok(Fr::from_u64(y))).unwrap();
    let c = cs.alloc_input("z", Ok(Fr::from_u64(z))).unwrap();
    cs.enforce("product", lc(&[(a, 1)]), lc(&[(b, 1)]), lc(&[(c, 1)]));
    cs.pop_namespace();
    (cs, a, b, c)
}

#[test]
fn new_system_holds_the_constant_one() {
    let mut cs = TestConstraintSystem::new();
    assert_eq!(cs.num_public_variables(), 1);
    assert_eq!(cs.num_private_variables(), 0);
    assert_eq!(cs.num_constraints(), 0);
    assert_eq!(cs.get("ONE"), Fr::one());
    assert_eq!(cs.variable_at("ONE"), Some(TestConstraintSystem::one()));
    assert!(cs.is_satisfied());
    assert!(!cs.is_in_setup_mode());
    let d = TestConstraintSystem::default();
    assert_eq!(d.num_public_variables(), 1);
}

#[test]
fn allocated_variables_are_numbered_and_read_back() {
    let (mut cs, a, b, c) = multiplication(3, 4, 12);
    assert_eq!(a.get_unchecked(), Index::Private(0));
    assert_eq!(b.get_unchecked(), Index::Private(1));
    assert_eq!(c.get_unchecked(), Index::Public(1));
    assert_eq!(cs.num_private_variables(), 2);
    assert_eq!(cs.num_public_variables(), 2);
    assert_eq!(cs.get("mul/x"), Fr::from_u64(3));
    assert_eq!(cs.get("mul/y"), Fr::from_u64(4));
    assert_eq!(cs.get("mul/z"), Fr::from_u64(12));
    assert_eq!(cs.variable_at("mul/z"), Some(c));
    assert_eq!(cs.variable_at("x"), None);
    assert_eq!(cs.variable_at("mul/product"), None);
    assert_eq!(cs.variable_at("mul"), None);
}

#[test]
fn satisfied_product_constraint() {
    let (cs, _, _, _) = multiplication(3, 4, 12);
    assert_eq!(cs.num_constraints(), 1);
    assert!(cs.is_satisfied());
    assert_eq!(cs.which_is_unsatisfied(), None);
    assert_eq!(cs.get_constraint_path(0), "mul/product");
    assert_eq!(cs.constraint_paths(), vec!["mul/product".to_string()]);
    assert_eq!(cs.num_non_zero(), (1, 1, 1));
}

#[test]
fn unsatisfied_product_constraint_is_named() {
    let (cs, _, _, _) = multiplication(3, 4, 13);
    assert!(!cs.is_satisfied());
    assert_eq!(cs.which_is_unsatisfied(), Some("mul/product".to_string()));
}

#[test]
fn get_after_set_gives_the_new_value() {
    let (mut cs, _, _, _) = multiplication(3, 4, 13);
    cs.set("mul/z", Fr::from_u64(12));
    assert_eq!(cs.get("mul/z"), Fr::from_u64(12));
    assert_eq!(cs.get("mul/x"), Fr::from_u64(3));
    assert!(cs.is_satisfied());
    cs.set("mul/x", Fr::from_u64(5));
    assert_eq!(cs.which_is_unsatisfied(), Some("mul/product".to_string()));
}

#[test]
fn constraint_arithmetic_is_in_the_field() {
    // (p - 1) * (p - 1) = 1
    let mut cs = TestConstraintSystem::new();
    let mut minus_one = Fr::zero();
    minus_one.sub_assign(&Fr::one());
    let a = cs.alloc_private("a", Ok(minus_one)).unwrap();
    let one = TestConstraintSystem::one();
    cs.enforce("square", lc(&[(a, 1)]), lc(&[(a, 1)]), lc(&[(one, 1)]));
    assert!(cs.is_satisfied());
    // 2 * a + 3 * ONE with a = p - 1 is 1, and 1 * 1 = 1
    let mut cs2 = TestConstraintSystem::new();
    let a2 = cs2.alloc_private("a", Ok(minus_one)).unwrap();
    cs2.enforce("sum", lc(&[(a2, 2), (one, 3)]), lc(&[(one, 1)]), lc(&[(one, 1)]));
    assert!(cs2.is_satisfied());
    assert_eq!(cs2.num_non_zero(), (2, 1, 1));
}

#[test]
fn nested_namespaces_build_paths() {
    let mut cs = TestConstraintSystem::new();
    cs.push_namespace("outer");
    cs.push_namespace("inner");
    assert_eq!(cs.namespace_depth(), 2);
    let v = cs.alloc_private("v", Ok(Fr::from_u64(9))).unwrap();
    cs.enforce("c", lc(&[(v, 1)]), lc(&[(TestConstraintSystem::one(), 1)]), lc(&[(v, 1)]));
    cs.pop_namespace();
    let w = cs.alloc_private("w", Ok(Fr::from_u64(1))).unwrap();
    cs.pop_namespace();
    assert_eq!(cs.namespace_depth(), 0);
    cs.alloc_input("v", Ok(Fr::from_u64(2))).unwrap();
    assert_eq!(cs.get("outer/inner/v"), Fr::from_u64(9));
    assert_eq!(cs.get("outer/w"), Fr::from_u64(1));
    assert_eq!(cs.get("v"), Fr::from_u64(2));
    assert_eq!(cs.variable_at("outer/w"), Some(w));
    assert_eq!(cs.get_constraint_path(0), "outer/inner/c");
    assert!(cs.is_satisfied());
}

#[test]
fn failed_assignment_returns_the_error() {
    let mut cs = TestConstraintSystem::new();
    let r = cs.alloc_private("missing", Err(SynthesisError::AssignmentMissing));
    assert_eq!(r, Err(SynthesisError::AssignmentMissing));
    assert_eq!(cs.num_private_variables(), 0);
    let r = cs.alloc_input("missing", Err(SynthesisError::AssignmentMissing));
    assert_eq!(r, Err(SynthesisError::AssignmentMissing));
    assert_eq!(cs.num_public_variables(), 1);
    // the name was interned, but no object took it
    assert!(cs.path_is_free("missing"));
    assert_eq!(cs.variable_at("missing"), None);
    let v = cs.alloc_private("missing", Ok(Fr::from_u64(1))).unwrap();
    assert_eq!(cs.variable_at("missing"), Some(v));
}

#[test]
fn names_that_may_be_used() {
    let mut cs = TestConstraintSystem::new();
    assert!(cs.name_allowed("x"));
    assert!(!cs.name_allowed("a/b"));
    assert!(!cs.path_is_free("ONE"));
    assert!(cs.path_is_free("x"));
    cs.alloc_private("x", Ok(Fr::one())).unwrap();
    assert!(!cs.path_is_free("x"));
    cs.push_namespace("ns");
    assert!(cs.path_is_free("x"));
}

#[test]
fn lookup_without_a_table() {
    let mut cs = TestConstraintSystem::new();
    let one = TestConstraintSystem::one();
    let r = cs.enforce_lookup("l", lc(&[(one, 1)]), lc(&[(one, 2)]), lc(&[(one, 3)]), 0);
    assert_eq!(r, Err(SynthesisError::LookupTableMissing));
    assert_eq!(cs.num_constraints(), 0);
}

#[test]
fn lookup_with_and_without_the_row() {
    let mut cs = TestConstraintSystem::new();
    let one = TestConstraintSystem::one();
    cs.add_lookup_table(LookupTable {
        table: vec![
            (Fr::from_u64(1), Fr::from_u64(2), Fr::from_u64(3)),
            (Fr::from_u64(4), Fr::from_u64(5), Fr::from_u64(6)),
        ],
    });
    let r = cs.enforce_lookup("missing", lc(&[(one, 1)]), lc(&[(one, 2)]), lc(&[(one, 4)]), 0);
    assert_eq!(r, Err(SynthesisError::LookupValueMissing));
    assert_eq!(cs.num_constraints(), 0);
    let r = cs.enforce_lookup("row", lc(&[(one, 4)]), lc(&[(one, 5)]), lc(&[(one, 6)]), 0);
    assert_eq!(r, Ok(()));
    assert_eq!(cs.num_constraints(), 1);
    assert_eq!(cs.get_constraint_path(0), "row");
    // the row is recorded as an ordinary constraint: 4 * 5 != 6
    assert_eq!(cs.which_is_unsatisfied(), Some("row".to_string()));
}

#[test]
fn first_difference_between_systems() {
    let (cs1, _, _, _) = multiplication(3, 4, 12);
    let (cs2, _, _, _) = multiplication(3, 4, 12);
    assert!(cs1.first_difference(&cs2).is_none());

    let mut cs3 = TestConstraintSystem::new();
    cs3.push_namespace("other");
    let a = cs3.alloc_private("x", Ok(Fr::from_u64(3))).unwrap();
    let b = cs3.alloc_private("y", Ok(Fr::from_u64(4))).unwrap();
    let c = cs3.alloc_input("z", Ok(Fr::from_u64(12))).unwrap();
    cs3.enforce("product", lc(&[(a, 1)]), lc(&[(b, 1)]), lc(&[(c, 2)]));
    let d = cs1.first_difference(&cs3).unwrap();
    assert_eq!(d.row, 0);
    assert_eq!(d.side, ConstraintSide::C);
    assert_eq!(d.self_path, "mul/product");
    assert_eq!(d.other_path, "other/product");

    let mut cs4 = TestConstraintSystem::new();
    let a4 = cs4.alloc_private("x", Ok(Fr::from_u64(3))).unwrap();
    cs4.enforce("p", lc(&[(a4, 1)]), lc(&[(a4, 1)]), lc(&[(a4, 1)]));
    let d = cs1.first_difference(&cs4).unwrap();
    assert_eq!(d.side, ConstraintSide::B);
}

#[test]
fn variables_in_constraints_are_checked() {
    let mut cs = TestConstraintSystem::new();
    let ghost_var = Variable::new_unchecked(Index::Private(7));
    assert!(!cs.has_variable(ghost_var));
    assert!(!cs.has_variables(&lc(&[(ghost_var, 1)])));
    assert!(cs.has_variables(&lc(&[(TestConstraintSystem::one(), 1)])));
    cs.enforce("bad", lc(&[(ghost_var, 1)]), lc(&[]), lc(&[]));
    assert!(!cs.constraint_variables_allocated());
}

#[test]
fn get_root_is_the_system() {
    let mut cs = TestConstraintSystem::new();
    let root = cs.get_root();
    root.alloc_private("r", Ok(Fr::from_u64(5))).unwrap();
    assert_eq!(cs.get("r"), Fr::from_u64(5));
}

#[test]
fn default_is_the_empty_system() {
    let mut cs = TestConstraintSystem::default();
    assert_eq!(cs.num_public_variables(), 1);
    assert_eq!(cs.num_private_variables(), 0);
    assert_eq!(cs.num_constraints(), 0);
    assert_eq!(cs.get("ONE"), Fr::one());
    assert_eq!(cs.num_non_zero(), (0, 0, 0));
    assert_eq!(cs.which_is_unsatisfied(), None);
    assert!(cs.is_satisfied());
    assert!(!cs.is_in_setup_mode());
    let lookup = cs.enforce_lookup("row", LinearCombination::zero(), LinearCombination::zero(), LinearCombination::zero(), 0);
    assert_eq!(lookup, Err(SynthesisError::LookupTableMissing));
}

#[test]
fn occupied_path_names_the_existing_object() {
    let mut cs = TestConstraintSystem::new();
    cs.push_namespace("outer");
    assert_eq!(cs.occupied_path("x"), None);
    cs.alloc_private("x", Ok(Fr::from_u64(3))).unwrap();
    assert_eq!(cs.occupied_path("x"), Some("outer/x".to_string()));
    cs.pop_namespace();
    assert_eq!(cs.occupied_path("x"), None);
    assert_eq!(cs.occupied_path("outer"), Some("outer".to_string()));
    assert_eq!(cs.occupied_path("ONE"), Some("ONE".to_string()));
}
