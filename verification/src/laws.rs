//! Properties that relate several operations of the library.
use vstd::prelude::*;

use crate::circuit::{spec_boolean_type, spec_integer_type, Boolean, CircuitType, Integer};
use crate::circuit::{Count, IntegerType, Mode};
use crate::compare::{spec_compare_mode, spec_count, spec_less_than, spec_output_type};
use vstd::arithmetic::div_mod::{lemma_add_mod_noop_right, lemma_mod_bound};
use crate::field::{limbs_value, modulus, Fr};
use crate::r1cs::Variable;
use crate::r1cs::SynthesisError;
use crate::test_constraint_system::{
    total_terms, ConstraintDifference, ConstraintSide,
    lemma_prefix_extend, namespace_prefix, recorded, InternedPath, NamedObject, TestConstraint,
    TestConstraintSystem,
};

verus! {

/// Reading a variable back after setting it gives the value it was set to:
/// the path still names the same variable, and that variable holds `to`.
pub proof fn lemma_get_after_set(
    before: TestConstraintSystem,
    after: TestConstraintSystem,
    path: Seq<char>,
    to: Fr,
)
    requires
        before.wf(),
        before.var_at(path) is Some,
        TestConstraintSystem::set_post(before, after, path, to),
    ensures
        after.wf(),
        after.var_at(path) is Some,
        after.var_value(after.var_at(path).unwrap()) == to@,
{
}

/// Setting one variable leaves every other variable, read through any path
/// that names it, as it was.
pub proof fn lemma_set_keeps_others(
    before: TestConstraintSystem,
    after: TestConstraintSystem,
    path: Seq<char>,
    to: Fr,
    other: Seq<char>,
)
    requires
        before.wf(),
        before.var_at(path) is Some,
        before.var_at(other) is Some,
        before.var_at(other) != before.var_at(path),
        TestConstraintSystem::set_post(before, after, path, to),
    ensures
        after.var_at(other) == before.var_at(other),
        after.var_value(after.var_at(other).unwrap()) == before.var_value(before.var_at(other).unwrap()),
{
    assert(before.var_at(other).unwrap() != before.var_at(path).unwrap());
}

/// Terms keep their value while the variables they read and their
/// coefficients keep theirs.
pub proof fn lemma_eval_terms_same(
    a: TestConstraintSystem,
    b: TestConstraintSystem,
    t: Seq<(Variable, usize)>,
)
    requires
        forall|k: int|
            0 <= k < t.len() ==> a.has_var(#[trigger] t[k].0) && b.has_var(t[k].0) && b.var_value(
                t[k].0,
            ) == a.var_value(t[k].0) && t[k].1 < a.fields().len() && t[k].1 < b.fields().len()
                && b.fields()[t[k].1 as int] == a.fields()[t[k].1 as int],
    ensures
        b.eval_terms(t) == a.eval_terms(t),
    decreases t.len(),
{
    if t.len() > 0 {
        let n = t.len() - 1;
        assert forall|k: int| 0 <= k < n implies a.has_var(#[trigger] t.drop_last()[k].0) && b.has_var(
            t.drop_last()[k].0,
        ) && b.var_value(t.drop_last()[k].0) == a.var_value(t.drop_last()[k].0) && t.drop_last()[k].1
            < a.fields().len() && t.drop_last()[k].1 < b.fields().len() && b.fields()[t.drop_last()[k].1 as int]
            == a.fields()[t.drop_last()[k].1 as int] by {
            assert(t.drop_last()[k] == t[k]);
        }
        lemma_eval_terms_same(a, b, t.drop_last());
        assert(t[n] == t.last());
    }
}

/// Terms keep their value when the system only gains field elements and
/// variables.
proof fn lemma_terms_kept(a: TestConstraintSystem, b: TestConstraintSystem, t: Seq<(Variable, usize)>)
    requires
        a.terms_vars_ok(t),
        forall|k: int| 0 <= k < t.len() ==> (#[trigger] t[k]).1 < a.fields().len(),
        TestConstraintSystem::fields_extend(a, b),
        TestConstraintSystem::vars_kept(a, b),
    ensures
        b.eval_terms(t) == a.eval_terms(t),
{
    assert forall|k: int| 0 <= k < t.len() implies a.has_var(#[trigger] t[k].0) && b.has_var(t[k].0)
        && b.var_value(t[k].0) == a.var_value(t[k].0) && t[k].1 < a.fields().len() && t[k].1
        < b.fields().len() && b.fields()[t[k].1 as int] == a.fields()[t[k].1 as int] by {
        assert(a.has_var(t[k].0));
        TestConstraintSystem::lemma_vars_kept(a, b, t[k].0);
    }
    lemma_eval_terms_same(a, b, t);
}

/// A constraint keeps holding, or failing, while its variables and
/// coefficients keep their values.
pub proof fn lemma_constraint_same(a: TestConstraintSystem, b: TestConstraintSystem, c: TestConstraint)
    requires
        a.wf(),
        a.terms_vars_ok(c.spec_a()),
        a.terms_vars_ok(c.spec_b()),
        a.terms_vars_ok(c.spec_c()),
        forall|k: int| 0 <= k < c.spec_a().len() ==> (#[trigger] c.spec_a()[k]).1 < a.fields().len(),
        forall|k: int| 0 <= k < c.spec_b().len() ==> (#[trigger] c.spec_b()[k]).1 < a.fields().len(),
        forall|k: int| 0 <= k < c.spec_c().len() ==> (#[trigger] c.spec_c()[k]).1 < a.fields().len(),
        TestConstraintSystem::fields_extend(a, b),
        TestConstraintSystem::vars_kept(a, b),
    ensures
        b.constraint_satisfied(c) == a.constraint_satisfied(c),
{
    lemma_terms_kept(a, b, c.spec_a());
    lemma_terms_kept(a, b, c.spec_b());
    lemma_terms_kept(a, b, c.spec_c());
}

/// After `enforce`, the system is satisfied exactly when it was before and
/// `a * b = c` holds of the given linear combinations.
pub proof fn lemma_enforce_satisfaction(
    before: TestConstraintSystem,
    after: TestConstraintSystem,
    name: Seq<char>,
    a: Seq<(Variable, Fr)>,
    b: Seq<(Variable, Fr)>,
    c: Seq<(Variable, Fr)>,
)
    requires
        before.wf(),
        before.constraint_vars_ok(),
        before.lc_vars_ok(a),
        before.lc_vars_ok(b),
        before.lc_vars_ok(c),
        TestConstraintSystem::enforce_post(before, after, name, a, b, c),
    ensures
        after.constraint_vars_ok(),
        after.constraint_seq().len() == before.constraint_seq().len() + 1,
        after.constraint_satisfied(after.constraint_seq().last()) == ((before.lc_eval(a) * before.lc_eval(b))
            % modulus() == before.lc_eval(c)),
        after.all_satisfied() == (before.all_satisfied() && (before.lc_eval(a) * before.lc_eval(b))
            % modulus() == before.lc_eval(c)),
{
    lemma_enforce_keeps(before, after, name, a, b, c);
    lemma_appended_satisfaction(before, after, a, b, c);
}

/// What `enforce` keeps: field elements, variables with their values, and
/// the constraints before the new one.
proof fn lemma_enforce_keeps(
    before: TestConstraintSystem,
    after: TestConstraintSystem,
    name: Seq<char>,
    a: Seq<(Variable, Fr)>,
    b: Seq<(Variable, Fr)>,
    c: Seq<(Variable, Fr)>,
)
    requires
        before.wf(),
        TestConstraintSystem::enforce_post(before, after, name, a, b, c),
    ensures
        TestConstraintSystem::fields_extend(before, after),
        TestConstraintSystem::vars_kept(before, after),
        after.constraint_seq().len() == before.constraint_seq().len() + 1,
        after.constraint_seq().drop_last() == before.constraint_seq(),
        after.terms_match(after.constraint_seq().last().spec_a(), a),
        after.terms_match(after.constraint_seq().last().spec_b(), b),
        after.terms_match(after.constraint_seq().last().spec_c(), c),
{
    assert forall|w: Variable| before.has_var(w) implies after.has_var(w) && #[trigger] after.var_value(w)
        == before.var_value(w) by {
        assert(after.slot_of(w) == before.slot_of(w));
        let sl = before.slot_of(w).unwrap();
        match w.spec_index() {
            crate::r1cs::Index::Public(i) => assert(before.public_slots()[i as int] < before.fields().len()),
            crate::r1cs::Index::Private(i) => assert(before.private_slots()[i as int] < before.fields().len()),
        }
        assert(after.fields()[sl as int] == before.fields()[sl as int]);
    }
}

/// A system that keeps the field elements, variables and constraints of
/// another and appends a constraint interned from `a`, `b` and `c` is
/// satisfied exactly when the other is and `a * b = c` holds.
proof fn lemma_appended_satisfaction(
    before: TestConstraintSystem,
    after: TestConstraintSystem,
    a: Seq<(Variable, Fr)>,
    b: Seq<(Variable, Fr)>,
    c: Seq<(Variable, Fr)>,
)
    requires
        before.wf(),
        before.constraint_vars_ok(),
        before.lc_vars_ok(a),
        before.lc_vars_ok(b),
        before.lc_vars_ok(c),
        TestConstraintSystem::fields_extend(before, after),
        TestConstraintSystem::vars_kept(before, after),
        after.constraint_seq().len() == before.constraint_seq().len() + 1,
        after.constraint_seq().drop_last() == before.constraint_seq(),
        after.terms_match(after.constraint_seq().last().spec_a(), a),
        after.terms_match(after.constraint_seq().last().spec_b(), b),
        after.terms_match(after.constraint_seq().last().spec_c(), c),
    ensures
        after.constraint_vars_ok(),
        after.constraint_satisfied(after.constraint_seq().last()) == ((before.lc_eval(a) * before.lc_eval(b))
            % modulus() == before.lc_eval(c)),
        after.all_satisfied() == (before.all_satisfied() && (before.lc_eval(a) * before.lc_eval(b))
            % modulus() == before.lc_eval(c)),
{
    let n = before.constraint_seq().len();
    let last = after.constraint_seq().last();
    after.lemma_terms_eval(last.spec_a(), a);
    after.lemma_terms_eval(last.spec_b(), b);
    after.lemma_terms_eval(last.spec_c(), c);
    assert forall|k: int| 0 <= k < a.len() implies before.has_var(#[trigger] a[k].0) && after.has_var(a[k].0)
        && after.var_value(a[k].0) == before.var_value(a[k].0) by {
        TestConstraintSystem::lemma_vars_kept(before, after, a[k].0);
    }
    assert forall|k: int| 0 <= k < b.len() implies before.has_var(#[trigger] b[k].0) && after.has_var(b[k].0)
        && after.var_value(b[k].0) == before.var_value(b[k].0) by {
        TestConstraintSystem::lemma_vars_kept(before, after, b[k].0);
    }
    assert forall|k: int| 0 <= k < c.len() implies before.has_var(#[trigger] c[k].0) && after.has_var(c[k].0)
        && after.var_value(c[k].0) == before.var_value(c[k].0) by {
        TestConstraintSystem::lemma_vars_kept(before, after, c[k].0);
    }
    TestConstraintSystem::lemma_lc_eval_same(before, after, a);
    TestConstraintSystem::lemma_lc_eval_same(before, after, b);
    TestConstraintSystem::lemma_lc_eval_same(before, after, c);
    assert forall|k: int| 0 <= k < n implies #[trigger] after.constraint_seq()[k] == before.constraint_seq()[k] by {
        assert(after.constraint_seq().drop_last()[k] == after.constraint_seq()[k]);
    }
    assert forall|k: int| 0 <= k < n implies after.constraint_satisfied(#[trigger] after.constraint_seq()[k])
        == before.constraint_satisfied(before.constraint_seq()[k]) by {
        let ck = before.constraint_seq()[k];
        assert(after.constraint_seq()[k] == ck);
        assert(before.terms_vars_ok(ck.spec_a()) && before.terms_vars_ok(ck.spec_b()) && before.terms_vars_ok(ck.spec_c()));
        lemma_constraint_same(before, after, ck);
    }
    assert forall|k: int| 0 <= k < after.constraint_seq().len() implies {
        let ck = #[trigger] after.constraint_seq()[k];
        &&& after.terms_vars_ok(ck.spec_a())
        &&& after.terms_vars_ok(ck.spec_b())
        &&& after.terms_vars_ok(ck.spec_c())
    } by {
        if k < n {
            let ck = before.constraint_seq()[k];
            assert(after.constraint_seq()[k] == ck);
            assert(before.terms_vars_ok(ck.spec_a()) && before.terms_vars_ok(ck.spec_b()) && before.terms_vars_ok(ck.spec_c()));
            assert forall|j: int| 0 <= j < ck.spec_a().len() implies after.has_var(#[trigger] ck.spec_a()[j].0) by {
                TestConstraintSystem::lemma_vars_kept(before, after, ck.spec_a()[j].0);
            }
            assert forall|j: int| 0 <= j < ck.spec_b().len() implies after.has_var(#[trigger] ck.spec_b()[j].0) by {
                TestConstraintSystem::lemma_vars_kept(before, after, ck.spec_b()[j].0);
            }
            assert forall|j: int| 0 <= j < ck.spec_c().len() implies after.has_var(#[trigger] ck.spec_c()[j].0) by {
                TestConstraintSystem::lemma_vars_kept(before, after, ck.spec_c()[j].0);
            }
        } else {
            assert(after.constraint_seq()[k] == last);
            assert forall|j: int| 0 <= j < last.spec_a().len() implies after.has_var(#[trigger] last.spec_a()[j].0) by {
                assert(last.spec_a()[j].0 == a[j].0);
            }
            assert forall|j: int| 0 <= j < last.spec_b().len() implies after.has_var(#[trigger] last.spec_b()[j].0) by {
                assert(last.spec_b()[j].0 == b[j].0);
            }
            assert forall|j: int| 0 <= j < last.spec_c().len() implies after.has_var(#[trigger] last.spec_c()[j].0) by {
                assert(last.spec_c()[j].0 == c[j].0);
            }
        }
    }
    if after.all_satisfied() {
        assert forall|k: int| 0 <= k < n implies before.constraint_satisfied(#[trigger] before.constraint_seq()[k]) by {
            assert(after.constraint_satisfied(after.constraint_seq()[k]));
        }
        assert(after.constraint_satisfied(after.constraint_seq()[n as int]));
    }
    if before.all_satisfied() && (before.lc_eval(a) * before.lc_eval(b)) % modulus() == before.lc_eval(c) {
        assert forall|k: int| 0 <= k < after.constraint_seq().len() implies after.constraint_satisfied(
            #[trigger] after.constraint_seq()[k]) by {
            if k < n {
                assert(before.constraint_satisfied(before.constraint_seq()[k]));
            }
        }
    }
}

/// Allocating keeps the field elements and the variables, with their values.
proof fn lemma_alloc_keeps_vars(
    before: TestConstraintSystem,
    after: TestConstraintSystem,
    public: bool,
    name: Seq<char>,
    value: Result<Fr, crate::r1cs::SynthesisError>,
    r: Result<Variable, crate::r1cs::SynthesisError>,
)
    requires
        TestConstraintSystem::alloc_post(before, after, public, name, value, r),
    ensures
        TestConstraintSystem::fields_extend(before, after),
        TestConstraintSystem::vars_kept(before, after),
        after.constraint_seq() == before.constraint_seq(),
{
}

/// Allocating a variable leaves every constraint holding or failing as before.
pub proof fn lemma_alloc_keeps_satisfaction(
    before: TestConstraintSystem,
    after: TestConstraintSystem,
    public: bool,
    name: Seq<char>,
    value: Result<Fr, crate::r1cs::SynthesisError>,
    r: Result<Variable, crate::r1cs::SynthesisError>,
)
    requires
        before.wf(),
        before.constraint_vars_ok(),
        TestConstraintSystem::alloc_post(before, after, public, name, value, r),
    ensures
        after.constraint_vars_ok(),
        after.all_satisfied() == before.all_satisfied(),
{
    lemma_alloc_keeps_vars(before, after, public, name, value, r);
    lemma_kept_satisfaction(before, after);
}

/// When a system only gains field elements and variables, and keeps its
/// constraints, every constraint holds or fails as before.
proof fn lemma_kept_satisfaction(before: TestConstraintSystem, after: TestConstraintSystem)
    requires
        before.wf(),
        before.constraint_vars_ok(),
        TestConstraintSystem::fields_extend(before, after),
        TestConstraintSystem::vars_kept(before, after),
        after.constraint_seq() == before.constraint_seq(),
    ensures
        after.constraint_vars_ok(),
        after.all_satisfied() == before.all_satisfied(),
{
    let n = before.constraint_seq().len();
    assert forall|k: int| 0 <= k < n implies after.constraint_satisfied(#[trigger] after.constraint_seq()[k])
        == before.constraint_satisfied(before.constraint_seq()[k]) by {
        let ck = before.constraint_seq()[k];
        assert(before.terms_vars_ok(ck.spec_a()) && before.terms_vars_ok(ck.spec_b()) && before.terms_vars_ok(ck.spec_c()));
        lemma_constraint_same(before, after, ck);
    }
    assert forall|k: int| 0 <= k < n implies {
        let ck = #[trigger] after.constraint_seq()[k];
        &&& after.terms_vars_ok(ck.spec_a())
        &&& after.terms_vars_ok(ck.spec_b())
        &&& after.terms_vars_ok(ck.spec_c())
    } by {
        let ck = before.constraint_seq()[k];
        assert(before.terms_vars_ok(ck.spec_a()) && before.terms_vars_ok(ck.spec_b()) && before.terms_vars_ok(ck.spec_c()));
        assert forall|j: int| 0 <= j < ck.spec_a().len() implies after.has_var(#[trigger] ck.spec_a()[j].0) by {
            TestConstraintSystem::lemma_vars_kept(before, after, ck.spec_a()[j].0);
        }
        assert forall|j: int| 0 <= j < ck.spec_b().len() implies after.has_var(#[trigger] ck.spec_b()[j].0) by {
            TestConstraintSystem::lemma_vars_kept(before, after, ck.spec_b()[j].0);
        }
        assert forall|j: int| 0 <= j < ck.spec_c().len() implies after.has_var(#[trigger] ck.spec_c()[j].0) by {
            TestConstraintSystem::lemma_vars_kept(before, after, ck.spec_c()[j].0);
        }
    }
    if after.all_satisfied() {
        assert forall|k: int| 0 <= k < n implies before.constraint_satisfied(#[trigger] before.constraint_seq()[k]) by {
            assert(after.constraint_satisfied(after.constraint_seq()[k]));
        }
    }
    if before.all_satisfied() {
        assert forall|k: int| 0 <= k < n implies after.constraint_satisfied(#[trigger] after.constraint_seq()[k]) by {
            assert(before.constraint_satisfied(before.constraint_seq()[k]));
        }
    }
}

/// Every named object is found again under its full path: the path names
/// its interned form, and a variable is what that path names.
pub proof fn lemma_object_path(cs: TestConstraintSystem, i: int)
    requires
        cs.wf(),
        0 <= i < cs.objects().len(),
    ensures
        cs.resolve(cs.path_string(InternedPath::spec_from_key(cs.objects()[i].0))) == Some(
            InternedPath::spec_from_key(cs.objects()[i].0),
        ),
        cs.objects()[i].1 matches NamedObject::Var(v) ==> cs.var_at(
            cs.path_string(InternedPath::spec_from_key(cs.objects()[i].0)),
        ) == Some(v),
{
    reveal(crate::test_constraint_system::objects_recorded);
    let ip = InternedPath::spec_from_key(cs.objects()[i].0);
    assert(recorded(cs.full_path_entries(), ip));
    cs.lemma_path_string_resolves(ip);
    InternedPath::lemma_from_key(ip);
    crate::test_constraint_system::lemma_object_with_key(cs.objects(), i);
}

/// Turning the interned path of any named object into its full path and
/// resolving that full path again gives back the interned path: resolving
/// undoes rendering, for every object that was created.
pub proof fn lemma_unintern_then_intern(cs: TestConstraintSystem, p: InternedPath)
    requires
        cs.wf(),
        cs.has_key(p.spec_key()),
    ensures
        cs.resolve(cs.path_string(p)) == Some(p),
{
    let i = choose|i: int| 0 <= i < cs.objects().len() && (#[trigger] cs.objects()[i]).0 == p.spec_key();
    InternedPath::lemma_from_key(p);
    lemma_object_path(cs, i);
}

/// The full path reported for a constraint names that constraint's path.
pub proof fn lemma_constraint_path(cs: TestConstraintSystem, k: int)
    requires
        cs.wf(),
        0 <= k < cs.constraint_seq().len(),
    ensures
        cs.resolve(cs.path_string(cs.constraint_seq()[k].spec_path())) == Some(cs.constraint_seq()[k].spec_path()),
{
    reveal(crate::test_constraint_system::constraints_recorded);
    assert(recorded(cs.full_path_entries(), cs.constraint_seq()[k].spec_path()));
    cs.lemma_path_string_resolves(cs.constraint_seq()[k].spec_path());
}

/// The full path of a new object called `name` is the path of the current
/// namespace followed by `name`.
proof fn lemma_new_object_path(before: TestConstraintSystem, after: TestConstraintSystem, name: Seq<char>)
    requires
        before.wf(),
        after.wf(),
        TestConstraintSystem::path_computed(before, after, name),
        after.objects().len() >= before.objects().len(),
        forall|i: int| 0 <= i < before.objects().len() ==> #[trigger] after.objects()[i].0 == before.objects()[i].0,
    ensures
        after.path_string(InternedPath::spec_from_key(before.new_path(name))) == before.current_prefix() + name,
{
    let k = before.new_path(name);
    InternedPath::lemma_from_key(InternedPath::spec_from_key(k));
    assert(InternedPath::spec_from_key(k).spec_key() == k);
    if before.namespace_indices().len() > 0 {
        assert(before.namespace_indices()[before.namespace_indices().len() - 1] < before.objects().len());
    }
    assert forall|i: int| 0 <= i < before.segments().len() implies #[trigger] after.segments()[i] == before.segments()[i] by {
    }
    lemma_prefix_extend(before.objects(), after.objects(), before.segments(), after.segments(), before.current_idx());
    if before.segments().contains(name) {
        assert(before.segments()[before.segments().index_of(name)] == name);
    }
}

/// A variable allocated under `name` is found again, with its value, under
/// the path of the namespace it was created in followed by `name`.
pub proof fn lemma_alloc_then_get(
    before: TestConstraintSystem,
    after: TestConstraintSystem,
    public: bool,
    name: Seq<char>,
    value: Result<Fr, crate::r1cs::SynthesisError>,
    r: Result<Variable, crate::r1cs::SynthesisError>,
)
    requires
        before.wf(),
        value is Ok,
        TestConstraintSystem::alloc_post(before, after, public, name, value, r),
    ensures
        r is Ok,
        after.var_at(before.current_prefix() + name) == Some(r->Ok_0),
        after.var_value(r->Ok_0) == value->Ok_0@,
{
    let n = after.objects().len() - 1;
    assert forall|i: int| 0 <= i < before.objects().len() implies #[trigger] after.objects()[i].0 == before.objects()[i].0 by {
        assert(after.objects().drop_last()[i] == after.objects()[i]);
    }
    lemma_new_object_path(before, after, name);
    lemma_object_path(after, n);
    assert(after.objects()[n] == after.objects().last());
}

/// A constraint enforced under `name` is reported, and found again, under the
/// path of the namespace it was created in followed by `name`.
pub proof fn lemma_enforce_path(
    before: TestConstraintSystem,
    after: TestConstraintSystem,
    name: Seq<char>,
    a: Seq<(Variable, Fr)>,
    b: Seq<(Variable, Fr)>,
    c: Seq<(Variable, Fr)>,
)
    requires
        before.wf(),
        TestConstraintSystem::enforce_post(before, after, name, a, b, c),
    ensures
        after.path_string(after.constraint_seq().last().spec_path()) == before.current_prefix() + name,
        after.resolve(before.current_prefix() + name) == Some(after.constraint_seq().last().spec_path()),
{
    assert forall|i: int| 0 <= i < before.objects().len() implies #[trigger] after.objects()[i].0 == before.objects()[i].0 by {
        assert(after.objects().drop_last()[i] == after.objects()[i]);
    }
    lemma_new_object_path(before, after, name);
    let k = after.constraint_seq().len() - 1;
    lemma_constraint_path(after, k);
    assert(after.constraint_seq()[k] == after.constraint_seq().last());
}

/// Entering a namespace appends its name and a `/` to the current path, and
/// keeps the path of the namespace it was entered from.
pub proof fn lemma_push_prefix(before: TestConstraintSystem, pushed: TestConstraintSystem, name: Seq<char>)
    requires
        before.wf(),
        TestConstraintSystem::push_namespace_post(before, pushed, name),
    ensures
        pushed.current_prefix() == before.current_prefix() + name + seq!['/'],
        namespace_prefix(pushed.objects(), pushed.segments(), before.current_idx()) == before.current_prefix(),
{
    let n = before.objects().len();
    assert forall|i: int| 0 <= i < n implies #[trigger] pushed.objects()[i].0 == before.objects()[i].0 by {
        assert(pushed.objects().drop_last()[i] == pushed.objects()[i]);
    }
    assert forall|i: int| 0 <= i < before.segments().len() implies #[trigger] pushed.segments()[i] == before.segments()[i] by {
    }
    if before.namespace_indices().len() > 0 {
        assert(before.namespace_indices()[before.namespace_indices().len() - 1] < n);
    }
    lemma_prefix_extend(before.objects(), pushed.objects(), before.segments(), pushed.segments(), before.current_idx());
    assert(pushed.objects()[n as int] == pushed.objects().last());
    assert(pushed.current_idx() == n);
    let k = before.new_path(name);
    if before.segments().contains(name) {
        assert(before.segments()[before.segments().index_of(name)] == name);
    }
    assert(pushed.segments()[k.1 as int] == name);
}

/// Entering a namespace appends its name and a `/` to the current path, and
/// leaving it again restores the current namespace.
pub proof fn lemma_push_then_pop(
    before: TestConstraintSystem,
    pushed: TestConstraintSystem,
    popped: TestConstraintSystem,
    name: Seq<char>,
)
    requires
        before.wf(),
        TestConstraintSystem::push_namespace_post(before, pushed, name),
        popped.namespace_segments() == pushed.namespace_segments().drop_last(),
        popped.namespace_indices() == pushed.namespace_indices().drop_last(),
        popped.objects() == pushed.objects(),
        popped.segments() == pushed.segments(),
    ensures
        pushed.current_prefix() == before.current_prefix() + name + seq!['/'],
        popped.namespace_segments() == before.namespace_segments(),
        popped.namespace_indices() == before.namespace_indices(),
        popped.current_prefix() == before.current_prefix(),
{
    lemma_push_prefix(before, pushed, name);
    assert(pushed.namespace_segments().drop_last() =~= before.namespace_segments());
    assert(pushed.namespace_indices().drop_last() =~= before.namespace_indices());
}

/// The names, each followed by `/`, in order.
pub open spec fn slash_joined(names: Seq<Seq<char>>) -> Seq<char>
    decreases names.len(),
{
    if names.len() == 0 {
        Seq::empty()
    } else {
        slash_joined(names.drop_last()) + names.last() + seq!['/']
    }
}

/// Entering the namespaces `names[0]`, ..., `names[k-1]` in turn, with no
/// namespace left in between, makes the current path the old one followed by
/// each name and a `/`; it adds no constraint and no variable. (So the next
/// object named `n` gets the path `p/names[0]/.../names[k-1]/n`, by
/// `lemma_alloc_then_get` and `lemma_enforce_path`.)
pub proof fn lemma_pushes(states: Seq<TestConstraintSystem>, names: Seq<Seq<char>>)
    requires
        states.len() == names.len() + 1,
        states[0].wf(),
        forall|i: int|
            0 <= i < names.len() ==> TestConstraintSystem::push_namespace_post(
                #[trigger] states[i],
                states[i + 1],
                names[i],
            ),
    ensures
        states.last().wf(),
        states.last().current_prefix() == states[0].current_prefix() + slash_joined(names),
        states.last().namespace_indices().len() == states[0].namespace_indices().len() + names.len(),
        states.last().constraint_seq() == states[0].constraint_seq(),
        states.last().public_slots() == states[0].public_slots(),
        states.last().private_slots() == states[0].private_slots(),
        states.last().fields() == states[0].fields(),
    decreases names.len(),
{
    if names.len() > 0 {
        let k = names.len() - 1;
        let s2 = states.drop_last();
        let n2 = names.drop_last();
        assert forall|i: int| 0 <= i < n2.len() implies TestConstraintSystem::push_namespace_post(
            #[trigger] s2[i],
            s2[i + 1],
            n2[i],
        ) by {
            assert(TestConstraintSystem::push_namespace_post(states[i], states[i + 1], names[i]));
        }
        lemma_pushes(s2, n2);
        assert(s2.last() == states[k]);
        assert(TestConstraintSystem::push_namespace_post(states[k], states[k + 1], names[k]));
        lemma_push_prefix(states[k], states[k + 1], names[k]);
        assert(states.last() == states[k + 1]);
        assert(names.last() == names[k]);
        assert(states[0].current_prefix() + slash_joined(names) =~= states[0].current_prefix() + slash_joined(n2) + names[k] + seq!['/']);
    } else {
        assert(states[0].current_prefix() + slash_joined(names) =~= states[0].current_prefix());
    }
}

/// The type that the comparison declares for its result is the type of what
/// `is_less_than` gives, for every pair of operands; the other comparisons give
/// a result of the declared mode.
pub proof fn lemma_compare_output_type(a: Integer, b: Integer)
    requires
        a.spec_kind() == b.spec_kind(),
    ensures
        spec_boolean_type(Boolean { mode: spec_compare_mode(a, b), value: spec_less_than(a, b) })
            == spec_output_type((spec_integer_type(a), spec_integer_type(b))),
        spec_output_type((spec_integer_type(a), spec_integer_type(b))).spec_mode() == spec_compare_mode(a, b),
        spec_compare_mode(b, a) == spec_compare_mode(a, b),
{
}

/// Any two empty systems, such as the results of `new` and of `default`, are
/// the same in every view: names, field elements, objects, full paths,
/// variables, constraints, current namespace and lookup table.
pub proof fn lemma_fresh_systems_agree(a: TestConstraintSystem, b: TestConstraintSystem)
    requires
        a.is_fresh(),
        b.is_fresh(),
    ensures
        a.segments() == b.segments(),
        a.fields() == b.fields(),
        a.objects() == b.objects(),
        a.full_paths() == b.full_paths(),
        a.public_slots() == b.public_slots(),
        a.private_slots() == b.private_slots(),
        a.constraint_seq() == b.constraint_seq(),
        a.namespace_segments() == b.namespace_segments(),
        a.namespace_indices() == b.namespace_indices(),
        a.lookup() == b.lookup(),
{
    assert(a.full_paths() =~= b.full_paths());
}

/// Adding in the field associates: `((x + y) mod p + z) mod p` is
/// `(x + (y + z) mod p) mod p`.
proof fn lemma_mod_add_assoc(x: int, y: int, z: int)
    ensures
        ((x + y) % (modulus() as int) + z) % (modulus() as int) == (x + (y + z) % (modulus() as int)) % (modulus() as int),
{
    let p = modulus() as int;
    lemma_add_mod_noop_right(z, x + y, p);
    lemma_add_mod_noop_right(x, y + z, p);
    assert(z + (x + y) == x + (y + z));
}

/// The value of a linear combination is the field sum of its terms: the empty
/// one is 0, one term `(v, k)` is `value(v) * k`, and appending a term adds its
/// product, whatever the length.
pub proof fn lemma_lc_eval_terms(cs: TestConstraintSystem, lc: Seq<(Variable, Fr)>, v: Variable, k: Fr)
    ensures
        cs.lc_eval(Seq::empty()) == 0,
        cs.lc_eval(seq![(v, k)]) == (cs.var_value(v) * k@) % modulus(),
        cs.lc_eval(lc.push((v, k))) == (cs.lc_eval(lc) + cs.var_value(v) * k@) % modulus(),
        cs.lc_eval(lc) < modulus(),
{
    let p = modulus() as int;
    let x = (cs.var_value(v) * k@) as int;
    let one = seq![(v, k)];
    assert(one.drop_last() =~= Seq::<(Variable, Fr)>::empty());
    assert(one.last() == (v, k));
    assert(cs.lc_eval(one) == (cs.lc_eval(Seq::empty()) + x % p) % p);
    lemma_add_mod_noop_right(0, x, p);
    assert(cs.lc_eval(one) == x % p);
    assert(lc.push((v, k)).drop_last() =~= lc);
    assert(lc.push((v, k)).last() == (v, k));
    lemma_add_mod_noop_right(cs.lc_eval(lc) as int, x, p);
    if lc.len() > 0 {
        lemma_mod_bound((cs.lc_eval(lc.drop_last()) + (cs.var_value(lc.last().0) * lc.last().1@) % modulus()) as int, p);
    }
}

/// The value of the concatenation of two linear combinations is the field sum
/// of their values.
pub proof fn lemma_lc_eval_concat(cs: TestConstraintSystem, l1: Seq<(Variable, Fr)>, l2: Seq<(Variable, Fr)>)
    ensures
        cs.lc_eval(l1 + l2) == (cs.lc_eval(l1) + cs.lc_eval(l2)) % modulus(),
    decreases l2.len(),
{
    let p = modulus() as int;
    if l2.len() == 0 {
        assert(l1 + l2 =~= l1);
        if l1.len() > 0 {
            lemma_mod_bound((cs.lc_eval(l1.drop_last()) + (cs.var_value(l1.last().0) * l1.last().1@) % modulus()) as int, p);
        }
        vstd::arithmetic::div_mod::lemma_small_mod(cs.lc_eval(l1), modulus());
    } else {
        let l2s = l2.drop_last();
        let t = l2.last();
        assert((l1 + l2).drop_last() =~= l1 + l2s);
        assert((l1 + l2).last() == t);
        lemma_lc_eval_concat(cs, l1, l2s);
        let x = (cs.var_value(t.0) * t.1@) % modulus();
        lemma_mod_add_assoc(cs.lc_eval(l1) as int, cs.lc_eval(l2s) as int, x as int);
    }
}

/// Interned terms evaluate as the field sum of their products: the empty list
/// is 0, and appending a term adds `value(v) * coefficient`, whatever the length.
pub proof fn lemma_eval_terms_push(cs: TestConstraintSystem, t: Seq<(Variable, usize)>, v: Variable, k: usize)
    ensures
        cs.eval_terms(Seq::empty()) == 0,
        cs.eval_terms(t.push((v, k))) == (cs.eval_terms(t) + cs.var_value(v) * limbs_value(cs.fields()[k as int]))
            % modulus(),
{
    let p = modulus() as int;
    assert(t.push((v, k)).drop_last() =~= t);
    lemma_add_mod_noop_right(cs.eval_terms(t) as int, (cs.var_value(v) * limbs_value(cs.fields()[k as int])) as int, p);
}

/// Interned terms split into two lists evaluate as the field sum of the two.
pub proof fn lemma_eval_terms_concat(cs: TestConstraintSystem, t1: Seq<(Variable, usize)>, t2: Seq<(Variable, usize)>)
    ensures
        cs.eval_terms(t1 + t2) == (cs.eval_terms(t1) + cs.eval_terms(t2)) % modulus(),
    decreases t2.len(),
{
    if t2.len() == 0 {
        assert(t1 + t2 =~= t1);
        if t1.len() > 0 {
            lemma_mod_bound(
                (cs.eval_terms(t1.drop_last()) + (cs.var_value(t1.last().0) * limbs_value(cs.fields()[t1.last().1 as int]))
                    % modulus()) as int,
                modulus() as int,
            );
        }
        vstd::arithmetic::div_mod::lemma_small_mod(cs.eval_terms(t1), modulus());
    } else {
        let t2s = t2.drop_last();
        let t = t2.last();
        assert((t1 + t2).drop_last() =~= t1 + t2s);
        assert((t1 + t2).last() == t);
        lemma_eval_terms_concat(cs, t1, t2s);
        let x = (cs.var_value(t.0) * limbs_value(cs.fields()[t.1 as int])) % modulus();
        lemma_mod_add_assoc(cs.eval_terms(t1) as int, cs.eval_terms(t2s) as int, x as int);
    }
}

/// A lookup constraint succeeds exactly when a lookup table was added and one
/// of its rows equals the values of `a`, `b` and `c` in all three positions;
/// only then is a constraint recorded. With no table the error is
/// `LookupTableMissing`; when no row has the value of `b` second, or of `a`
/// first, or of `c` third, it is `LookupValueMissing`.
pub proof fn lemma_lookup_result(
    before: TestConstraintSystem,
    after: TestConstraintSystem,
    name: Seq<char>,
    a: Seq<(Variable, Fr)>,
    b: Seq<(Variable, Fr)>,
    c: Seq<(Variable, Fr)>,
    r: Result<(), SynthesisError>,
)
    requires
        TestConstraintSystem::enforce_lookup_post(before, after, name, a, b, c, r),
    ensures
        r is Ok <==> (before.lookup() is Some && exists|k: int|
            0 <= k < before.lookup()->Some_0.table@.len()
                && (#[trigger] before.lookup()->Some_0.table@[k]).0@ == before.lc_eval(a)
                && before.lookup()->Some_0.table@[k].1@ == before.lc_eval(b)
                && before.lookup()->Some_0.table@[k].2@ == before.lc_eval(c)),
        r is Ok ==> after.constraint_seq().len() == before.constraint_seq().len() + 1
            && after.constraint_seq().drop_last() == before.constraint_seq(),
        r is Err ==> after.constraint_seq() == before.constraint_seq(),
        before.lookup() is None ==> r == Err::<(), SynthesisError>(SynthesisError::LookupTableMissing),
        before.lookup() is Some && (forall|k: int|
            0 <= k < before.lookup()->Some_0.table@.len()
                ==> (#[trigger] before.lookup()->Some_0.table@[k]).1@ != before.lc_eval(b))
            ==> r == Err::<(), SynthesisError>(SynthesisError::LookupValueMissing),
        before.lookup() is Some && (forall|k: int|
            0 <= k < before.lookup()->Some_0.table@.len()
                ==> (#[trigger] before.lookup()->Some_0.table@[k]).0@ != before.lc_eval(a))
            ==> r == Err::<(), SynthesisError>(SynthesisError::LookupValueMissing),
        before.lookup() is Some && (forall|k: int|
            0 <= k < before.lookup()->Some_0.table@.len()
                ==> (#[trigger] before.lookup()->Some_0.table@[k]).2@ != before.lc_eval(c))
            ==> r == Err::<(), SynthesisError>(SynthesisError::LookupValueMissing),
{
}

/// Whether two constraints have the same terms on all three sides.
pub open spec fn same_sides(x: TestConstraint, y: TestConstraint) -> bool {
    x.spec_a() == y.spec_a() && x.spec_b() == y.spec_b() && x.spec_c() == y.spec_c()
}

/// `first_difference` reports a difference exactly when the constraints at
/// some position both systems have differ on some side; it reports the first
/// such position, and there the side `A` when the `a` sides differ, `B` when
/// only later sides differ and the `b` sides do, and `C` when only the `c`
/// sides differ.
pub proof fn lemma_first_difference(self_: TestConstraintSystem, other: TestConstraintSystem, r: Option<ConstraintDifference>)
    requires
        self_.first_difference_post(other, r),
    ensures
        r is Some <==> exists|i: int|
            0 <= i < self_.constraint_seq().len() && i < other.constraint_seq().len()
                && !same_sides(#[trigger] self_.constraint_seq()[i], other.constraint_seq()[i]),
        r matches Some(d) ==> {
            let x = self_.constraint_seq()[d.row as int];
            let y = other.constraint_seq()[d.row as int];
            &&& d.row < self_.constraint_seq().len() && d.row < other.constraint_seq().len()
            &&& !same_sides(x, y)
            &&& (d.side == ConstraintSide::A <==> x.spec_a() != y.spec_a())
            &&& (d.side == ConstraintSide::B <==> x.spec_a() == y.spec_a() && x.spec_b() != y.spec_b())
            &&& (d.side == ConstraintSide::C <==> x.spec_a() == y.spec_a() && x.spec_b() == y.spec_b())
            &&& forall|j: int| 0 <= j < d.row ==> same_sides(#[trigger] self_.constraint_seq()[j], other.constraint_seq()[j])
        },
{
    match r {
        None => {
            assert forall|i: int|
                0 <= i < self_.constraint_seq().len() && i < other.constraint_seq().len()
                    implies same_sides(#[trigger] self_.constraint_seq()[i], other.constraint_seq()[i]) by {
                assert(crate::test_constraint_system::constraint_differs(self_.constraint_seq()[i], other.constraint_seq()[i]) is None);
            }
        },
        Some(d) => {
            let i = d.row as int;
            assert(0 <= i < self_.constraint_seq().len() && i < other.constraint_seq().len()
                && !same_sides(self_.constraint_seq()[i], other.constraint_seq()[i]));
            assert forall|j: int| 0 <= j < d.row implies same_sides(#[trigger] self_.constraint_seq()[j], other.constraint_seq()[j]) by {
                assert(crate::test_constraint_system::constraint_differs(self_.constraint_seq()[j], other.constraint_seq()[j]) is None);
            }
        },
    }
}

/// The cost a comparison of two integers of a type of `b` bits declares:
/// `(1, 0, 0, 0)` exactly when both operands are constants; otherwise `b`
/// constants, no public variables, and, for a signed type, `b + 2` private
/// variables and `b + 3` constraints when one operand is a constant and
/// `b + 4` and `b + 5` when neither is; for an unsigned type, `b + 1` and
/// `b + 2`.
pub proof fn lemma_count_table(kind: IntegerType, case: (CircuitType<Integer>, CircuitType<Integer>))
    ensures
        ({
            let b = kind.spec_bits() as u64;
            let r = spec_count(kind, case);
            let c0 = case.0.spec_mode() == Mode::Constant;
            let c1 = case.1.spec_mode() == Mode::Constant;
            &&& (r == Count { num_constants: 1, num_public: 0, num_private: 0, num_constraints: 0 }) <==> (c0 && c1)
            &&& !(c0 && c1) ==> r.num_constants == b && r.num_public == 0
            &&& kind.spec_is_signed() && !c0 && !c1 ==> r.num_private == b + 4 && r.num_constraints == b + 5
            &&& kind.spec_is_signed() && (c0 != c1) ==> r.num_private == b + 2 && r.num_constraints == b + 3
            &&& !kind.spec_is_signed() && !(c0 && c1) ==> r.num_private == b + 1 && r.num_constraints == b + 2
        }),
{
    assert(kind.spec_bits() >= 8);
}

/// The numbers of terms on the three sides, summed over the constraints: 0 for
/// no constraints, and recording a constraint adds the number of terms of its
/// `a` side to the first, of its `b` side to the second and of its `c` side to
/// the third.
pub proof fn lemma_total_terms_push(cs: Seq<TestConstraint>, c: TestConstraint)
    ensures
        total_terms(Seq::empty(), 0) == 0,
        total_terms(Seq::empty(), 1) == 0,
        total_terms(Seq::empty(), 2) == 0,
        total_terms(cs.push(c), 0) == total_terms(cs, 0) + c.spec_a().len(),
        total_terms(cs.push(c), 1) == total_terms(cs, 1) + c.spec_b().len(),
        total_terms(cs.push(c), 2) == total_terms(cs, 2) + c.spec_c().len(),
{
    assert(cs.push(c).drop_last() =~= cs);
}

/// Enforcing `a * b = c` adds the numbers of terms of `a`, `b` and `c` to the
/// three term counts that `num_non_zero` reports.
pub proof fn lemma_enforce_term_counts(
    before: TestConstraintSystem,
    after: TestConstraintSystem,
    name: Seq<char>,
    a: Seq<(Variable, Fr)>,
    b: Seq<(Variable, Fr)>,
    c: Seq<(Variable, Fr)>,
)
    requires
        TestConstraintSystem::enforce_post(before, after, name, a, b, c),
    ensures
        total_terms(after.constraint_seq(), 0) == total_terms(before.constraint_seq(), 0) + a.len(),
        total_terms(after.constraint_seq(), 1) == total_terms(before.constraint_seq(), 1) + b.len(),
        total_terms(after.constraint_seq(), 2) == total_terms(before.constraint_seq(), 2) + c.len(),
{
    let n = after.constraint_seq();
    assert(n =~= before.constraint_seq().push(n.last()));
    lemma_total_terms_push(before.constraint_seq(), n.last());
}

/// A system is satisfied exactly when, for every constraint, the product of
/// the values of its `a` and `b` sides equals the value of its `c` side in the
/// field.
pub proof fn lemma_satisfied_means_products(cs: TestConstraintSystem)
    ensures
        cs.all_satisfied() <==> forall|k: int|
            0 <= k < cs.constraint_seq().len() ==> (cs.eval_terms((#[trigger] cs.constraint_seq()[k]).spec_a())
                * cs.eval_terms(cs.constraint_seq()[k].spec_b())) % modulus() == cs.eval_terms(
                cs.constraint_seq()[k].spec_c(),
            ),
{
}

} // verus!
