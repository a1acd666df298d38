//! A test constraint system for rank-one constraints over the scalar field
//! of BLS12-377, with the comparison gadget of the integer circuit types.
pub mod algebraic_sponge;
pub mod circuit;
pub mod compare;
pub mod field;
pub mod indexed;
pub mod r1cs;
pub mod test_constraint_system;
pub mod laws;
