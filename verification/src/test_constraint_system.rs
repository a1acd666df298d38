//! A constraint system for testing circuits: it records every variable and
//! constraint under a `/`-separated path of namespaces, keeps the values of
//! all variables, and checks whether the constraints are satisfied.
use vstd::prelude::*;
use vstd::string::{StrSliceExecFns, StringExecFns};

use fxhash::FxBuildHasher;
use indexmap::{IndexMap, IndexSet};

use crate::field::{limbs_value, modulus, Fr, Limbs};
use crate::indexed::{
    field_items, fields_get_index, fields_insert_full, fields_new, object_entries, objects_get,
    objects_get_index, objects_index_mut, objects_insert_full, objects_new, segment_items,
    segments_get_index, segments_get_index_of, segments_insert_full, segments_new,
};
use crate::r1cs::{Index, LinearCombination, LookupTable, SynthesisError, Variable};

verus! {

/// An object with a name: a constraint (by its position), a variable, or a
/// namespace with the objects created in it.
#[derive(Debug)]
pub enum NamedObject {
    Constraint(usize),
    Var(Variable),
    Namespace(Namespace),
}

/// A namespace: the objects created in it, and its own position among the
/// named objects.
#[derive(Debug)]
pub struct Namespace {
    children: Vec<NamedObject>,
    idx: usize,
}

impl Namespace {
    /// The objects created in the namespace, oldest first.
    pub closed spec fn spec_children(self) -> Seq<NamedObject> {
        self.children@
    }

    /// The namespace's position among the named objects.
    pub closed spec fn spec_idx(self) -> usize {
        self.idx
    }

    /// An empty namespace.
    pub fn new() -> (r: Namespace)
        ensures
            r.spec_children() == Seq::<NamedObject>::empty(),
            r.spec_idx() == 0,
    {
        Namespace { children: Vec::new(), idx: 0 }
    }

    /// Records `child` as created in the namespace.
    pub fn push(&mut self, child: NamedObject)
        ensures
            final(self).spec_children() == old(self).spec_children().push(child),
            final(self).spec_idx() == old(self).spec_idx(),
    {
        self.children.push(child);
    }
}

/// The interned form of a path: the position of the namespace the object was
/// created in (0 at the root) and the interned last segment.
#[derive(Clone, Copy, Debug, PartialEq, Eq, Hash, Structural)]
pub struct InternedPath {
    parent_namespace: usize,
    last_segment: usize,
}

impl InternedPath {
    /// The position of the namespace the path ends in (0 at the root).
    pub closed spec fn spec_parent(self) -> usize {
        self.parent_namespace
    }

    /// The interned last segment.
    pub closed spec fn spec_last(self) -> usize {
        self.last_segment
    }

    /// The key the path has among the named objects.
    pub closed spec fn spec_key(self) -> (usize, usize) {
        (self.parent_namespace, self.last_segment)
    }

    /// The interned path with the given key.
    pub closed spec fn spec_from_key(key: (usize, usize)) -> InternedPath {
        InternedPath { parent_namespace: key.0, last_segment: key.1 }
    }

    /// An interned path is the one with its key.
    pub proof fn lemma_from_key(p: InternedPath)
        ensures
            InternedPath::spec_from_key(p.spec_key()) == p,
            p.spec_key() == (p.spec_parent(), p.spec_last()),
            forall|k: (usize, usize)| #[trigger] InternedPath::spec_from_key(k).spec_key() == k,
            forall|k: (usize, usize)| #[trigger] InternedPath::spec_from_key(k).spec_parent() == k.0,
            forall|k: (usize, usize)| #[trigger] InternedPath::spec_from_key(k).spec_last() == k.1,
    {
    }

    /// The key the path has among the named objects.
    pub fn key(&self) -> (r: (usize, usize))
        ensures
            r == self.spec_key(),
    {
        (self.parent_namespace, self.last_segment)
    }
}

/// A recorded constraint `a * b = c`, each side a list of (variable, interned
/// coefficient).
#[derive(Debug, PartialEq, Eq, Hash)]
pub struct TestConstraint {
    interned_path: InternedPath,
    a: Vec<(Variable, usize)>,
    b: Vec<(Variable, usize)>,
    c: Vec<(Variable, usize)>,
}

impl TestConstraint {
    /// The path the constraint was created at.
    pub closed spec fn spec_path(self) -> InternedPath {
        self.interned_path
    }

    /// The terms of `a`.
    pub closed spec fn spec_a(self) -> Seq<(Variable, usize)> {
        self.a@
    }

    /// The terms of `b`.
    pub closed spec fn spec_b(self) -> Seq<(Variable, usize)> {
        self.b@
    }

    /// The terms of `c`.
    pub closed spec fn spec_c(self) -> Seq<(Variable, usize)> {
        self.c@
    }
}

/// The namespace that objects are created in: the interned segments of its
/// path and the positions of the namespaces along it.
#[derive(Debug)]
pub struct CurrentNamespace {
    segments: Vec<usize>,
    indices: Vec<usize>,
}

impl CurrentNamespace {
    /// The interned segments of the path, outermost first.
    pub closed spec fn spec_segments(self) -> Seq<usize> {
        self.segments@
    }

    /// The positions of the namespaces along the path, outermost first.
    pub closed spec fn spec_indices(self) -> Seq<usize> {
        self.indices@
    }

    /// The position of the innermost namespace, 0 at the root.
    pub open spec fn spec_idx(self) -> usize {
        if self.spec_indices().len() == 0 {
            0
        } else {
            self.spec_indices().last()
        }
    }

    /// The root namespace.
    pub fn new() -> (r: CurrentNamespace)
        ensures
            r.spec_segments() == Seq::<usize>::empty(),
            r.spec_indices() == Seq::<usize>::empty(),
    {
        CurrentNamespace { segments: Vec::new(), indices: Vec::new() }
    }

    /// The position of the innermost namespace, 0 at the root.
    pub fn idx(&self) -> (r: usize)
        ensures
            r == self.spec_idx(),
    {
        if self.indices.len() == 0 {
            0
        } else {
            self.indices[self.indices.len() - 1]
        }
    }

    /// Leaves the innermost namespace.
    pub fn pop(&mut self)
        requires
            old(self).spec_segments().len() > 0,
            old(self).spec_indices().len() > 0,
        ensures
            final(self).spec_segments() == old(self).spec_segments().drop_last(),
            final(self).spec_indices() == old(self).spec_indices().drop_last(),
    {
        self.segments.pop();
        self.indices.pop();
    }

    /// Enters the namespace with interned segment `segment` at position `index`.
    pub fn push(&mut self, segment: usize, index: usize)
        ensures
            final(self).spec_segments() == old(self).spec_segments().push(segment),
            final(self).spec_indices() == old(self).spec_indices().push(index),
    {
        self.segments.push(segment);
        self.indices.push(index);
    }
}

/// A constraint system over Fr that records names and values, for tests.
pub struct TestConstraintSystem {
    // full paths (as interned segments) and their interned form
    interned_full_paths: Vec<(Vec<usize>, InternedPath)>,
    // interned path segments
    interned_path_segments: IndexSet<String, FxBuildHasher>,
    // interned field elements
    interned_fields: IndexSet<Limbs, FxBuildHasher>,
    // named objects under their interned paths; positions are namespace indices
    named_objects: IndexMap<(usize, usize), NamedObject, FxBuildHasher>,
    // the namespace objects are created in
    current_namespace: CurrentNamespace,
    // the lookup table that lookup constraints are checked against
    lookup_table: Option<LookupTable>,
    // the constraints
    constraints: Vec<TestConstraint>,
    // the interned values of the public variables
    public_variables: Vec<usize>,
    // the interned values of the private variables
    private_variables: Vec<usize>,
}

/// The map that a list of (full path, interned path) pairs stands for; a later
/// pair for the same full path wins.
pub open spec fn full_path_map(entries: Seq<(Vec<usize>, InternedPath)>) -> Map<
    Seq<usize>,
    InternedPath,
>
    decreases entries.len(),
{
    if entries.len() == 0 {
        Map::empty()
    } else {
        full_path_map(entries.drop_last()).insert(entries.last().0@, entries.last().1)
    }
}

/// Segments are distinct and hold no `/`.
pub open spec fn segments_wf(segs: Seq<Seq<char>>) -> bool {
    &&& segs.len() <= usize::MAX
    &&& segs.no_duplicates()
    &&& forall|i: int| 0 <= i < segs.len() ==> !(#[trigger] segs[i]).contains('/')
}

/// Field elements are distinct and canonical.
pub open spec fn fields_wf(fields: Seq<Limbs>) -> bool {
    &&& fields.no_duplicates()
    &&& forall|i: int| 0 <= i < fields.len() ==> limbs_value(#[trigger] fields[i]) < modulus()
}

/// The keys of the objects: there is at least one, they are distinct, their
/// segments are interned, and each names a namespace created before it.
pub open spec fn keys_wf(objs: Seq<((usize, usize), NamedObject)>, nsegs: nat) -> bool {
    &&& objs.len() > 0
    &&& objs.len() <= usize::MAX
    &&& forall|i: int, j: int|
        0 <= i < objs.len() && 0 <= j < objs.len() && i != j ==> #[trigger] objs[i].0
            != #[trigger] objs[j].0
    &&& forall|i: int|
        0 <= i < objs.len() ==> (#[trigger] objs[i]).0.1 < nsegs && (objs[i].0.0 == 0
            || objs[i].0.0 < i)
}

/// A variable among `npub` public and `npriv` private ones.
pub open spec fn var_in(v: Variable, npub: nat, npriv: nat) -> bool {
    match v.spec_index() {
        Index::Public(i) => i < npub,
        Index::Private(i) => i < npriv,
    }
}

/// Every variable object is among the variables.
pub open spec fn vars_wf(objs: Seq<((usize, usize), NamedObject)>, npub: nat, npriv: nat) -> bool {
    forall|i: int|
        0 <= i < objs.len() ==> ((#[trigger] objs[i]).1 matches NamedObject::Var(v) ==> var_in(
            v,
            npub,
            npriv,
        ))
}

/// Every slot is an interned field element.
pub open spec fn slots_wf(slots: Seq<usize>, nfields: nat) -> bool {
    forall|k: int| 0 <= k < slots.len() ==> #[trigger] slots[k] < nfields
}

/// The current namespace: as many segments as positions, all held.
pub open spec fn namespace_wf(segs: Seq<usize>, indices: Seq<usize>, nobjs: nat, nsegs: nat) -> bool {
    &&& segs.len() == indices.len()
    &&& forall|k: int| 0 <= k < indices.len() ==> #[trigger] indices[k] < nobjs
    &&& forall|k: int| 0 <= k < segs.len() ==> #[trigger] segs[k] < nsegs
}

/// An interned path whose parts are held.
pub open spec fn path_in(p: InternedPath, nobjs: nat, nsegs: nat) -> bool {
    p.spec_parent() < nobjs && p.spec_last() < nsegs
}

/// Terms whose coefficients are held.
pub open spec fn terms_in(t: Seq<(Variable, usize)>, nfields: nat) -> bool {
    forall|k: int| 0 <= k < t.len() ==> (#[trigger] t[k]).1 < nfields
}

/// Constraints whose paths and coefficients are held.
pub open spec fn constraints_wf(cs: Seq<TestConstraint>, nobjs: nat, nsegs: nat, nfields: nat) -> bool {
    forall|k: int|
        0 <= k < cs.len() ==> {
            let c = #[trigger] cs[k];
            &&& path_in(c.spec_path(), nobjs, nsegs)
            &&& terms_in(c.spec_a(), nfields)
            &&& terms_in(c.spec_b(), nfields)
            &&& terms_in(c.spec_c(), nfields)
        }
}

/// Full paths are distinct and their interned forms are held.
pub open spec fn full_paths_wf(entries: Seq<(Vec<usize>, InternedPath)>, nobjs: nat, nsegs: nat) -> bool {
    &&& forall|i: int, j: int|
        0 <= i < entries.len() && 0 <= j < entries.len() && i != j ==> (#[trigger] entries[i]).0@
            != (#[trigger] entries[j]).0@
    &&& forall|i: int| 0 <= i < entries.len() ==> path_in((#[trigger] entries[i]).1, nobjs, nsegs)
}

/// The interned segments of the namespaces from the root down to the one at
/// position `p` (none for the root).
pub open spec fn ancestor_segments(objs: Seq<((usize, usize), NamedObject)>, p: usize) -> Seq<usize>
    decreases p,
{
    if p == 0 || p >= objs.len() || objs[p as int].0.0 >= p {
        Seq::empty()
    } else {
        ancestor_segments(objs, objs[p as int].0.0).push(objs[p as int].0.1)
    }
}

/// The interned segments of the full path an interned path stands for.
pub open spec fn full_segments(objs: Seq<((usize, usize), NamedObject)>, ip: InternedPath) -> Seq<usize> {
    ancestor_segments(objs, ip.spec_parent()).push(ip.spec_last())
}

/// Whether the interned path was recorded with its full path.
pub open spec fn recorded(entries: Seq<(Vec<usize>, InternedPath)>, ip: InternedPath) -> bool {
    exists|j: int| 0 <= j < entries.len() && (#[trigger] entries[j]).1 == ip
}

/// The namespace that the one at depth `k` of the current path sits in.
pub open spec fn ns_parent(ns_idx: Seq<usize>, k: int) -> usize {
    if k == 0 {
        0usize
    } else {
        ns_idx[k - 1]
    }
}

/// Each namespace on the current path is an object that sits in the one
/// before it, under the segment of the path.
#[verifier::opaque]
pub open spec fn ns_chain_wf(objs: Seq<((usize, usize), NamedObject)>, ns_segs: Seq<usize>, ns_idx: Seq<usize>) -> bool {
    forall|k: int|
        0 <= k < ns_idx.len() ==> #[trigger] ns_idx[k] > 0 && objs[ns_idx[k] as int].0 == (
            ns_parent(ns_idx, k),
            ns_segs[k],
        )
}

/// Each recorded full path is the path of its interned form.
#[verifier::opaque]
pub open spec fn entries_match(objs: Seq<((usize, usize), NamedObject)>, entries: Seq<(Vec<usize>, InternedPath)>) -> bool {
    forall|j: int| 0 <= j < entries.len() ==> (#[trigger] entries[j]).0@ == full_segments(objs, entries[j].1)
}

/// Every object has its full path recorded.
#[verifier::opaque]
pub open spec fn objects_recorded(objs: Seq<((usize, usize), NamedObject)>, entries: Seq<(Vec<usize>, InternedPath)>) -> bool {
    forall|i: int| 0 <= i < objs.len() ==> recorded(entries, InternedPath::spec_from_key(#[trigger] objs[i].0))
}

/// Every constraint has its full path recorded.
#[verifier::opaque]
pub open spec fn constraints_recorded(entries: Seq<(Vec<usize>, InternedPath)>, cs: Seq<TestConstraint>) -> bool {
    forall|k: int| 0 <= k < cs.len() ==> recorded(entries, (#[trigger] cs[k]).spec_path())
}

/// How names hang together: each namespace on the current path sits in the
/// one before it; each recorded full path is the path of its interned form;
/// and every object and constraint has its full path recorded.
pub open spec fn naming_wf(
    objs: Seq<((usize, usize), NamedObject)>,
    ns_segs: Seq<usize>,
    ns_idx: Seq<usize>,
    entries: Seq<(Vec<usize>, InternedPath)>,
    cs: Seq<TestConstraint>,
) -> bool {
    &&& ns_chain_wf(objs, ns_segs, ns_idx)
    &&& entries_match(objs, entries)
    &&& objects_recorded(objs, entries)
    &&& constraints_recorded(entries, cs)
}

/// Ancestors of a position stay as they were when objects are added after it
/// or their values change.
pub proof fn lemma_ancestors_extend(
    objs: Seq<((usize, usize), NamedObject)>,
    objs2: Seq<((usize, usize), NamedObject)>,
    p: usize,
)
    requires
        objs.len() <= objs2.len(),
        forall|i: int| 0 <= i < objs.len() ==> #[trigger] objs2[i].0 == objs[i].0,
        p < objs.len(),
    ensures
        ancestor_segments(objs2, p) == ancestor_segments(objs, p),
    decreases p,
{
    if p != 0 && objs[p as int].0.0 < p {
        assert(objs2[p as int].0 == objs[p as int].0);
        lemma_ancestors_extend(objs, objs2, objs[p as int].0.0);
    } else if p != 0 {
        assert(objs2[p as int].0 == objs[p as int].0);
    }
}

/// Positions with the same ancestors are the same position.
pub proof fn lemma_ancestors_injective(objs: Seq<((usize, usize), NamedObject)>, nsegs: nat, p1: usize, p2: usize)
    requires
        keys_wf(objs, nsegs),
        p1 < objs.len(),
        p2 < objs.len(),
        ancestor_segments(objs, p1) == ancestor_segments(objs, p2),
    ensures
        p1 == p2,
    decreases p1 + p2,
{
    if p1 != 0 && p2 != 0 {
        let q1 = objs[p1 as int].0.0;
        let q2 = objs[p2 as int].0.0;
        assert(q1 < p1 && q2 < p2);
        let a1 = ancestor_segments(objs, p1);
        assert(a1.drop_last() =~= ancestor_segments(objs, q1));
        assert(ancestor_segments(objs, p2).drop_last() =~= ancestor_segments(objs, q2));
        lemma_ancestors_injective(objs, nsegs, q1, q2);
        assert(a1.last() == objs[p1 as int].0.1);
        assert(ancestor_segments(objs, p2).last() == objs[p2 as int].0.1);
        assert(objs[p1 as int].0 == objs[p2 as int].0);
    } else if p1 != 0 {
        assert(objs[p1 as int].0.0 < p1);
        assert(ancestor_segments(objs, p1).len() > 0);
    } else if p2 != 0 {
        assert(objs[p2 as int].0.0 < p2);
        assert(ancestor_segments(objs, p2).len() > 0);
    }
}

/// Interned paths held by the system with the same full path are equal.
pub proof fn lemma_full_segments_injective(
    objs: Seq<((usize, usize), NamedObject)>,
    nsegs: nat,
    ip1: InternedPath,
    ip2: InternedPath,
)
    requires
        keys_wf(objs, nsegs),
        path_in(ip1, objs.len(), nsegs),
        path_in(ip2, objs.len(), nsegs),
        full_segments(objs, ip1) == full_segments(objs, ip2),
    ensures
        ip1 == ip2,
{
    let f1 = full_segments(objs, ip1);
    assert(f1.drop_last() =~= ancestor_segments(objs, ip1.spec_parent()));
    assert(full_segments(objs, ip2).drop_last() =~= ancestor_segments(objs, ip2.spec_parent()));
    lemma_ancestors_injective(objs, nsegs, ip1.spec_parent(), ip2.spec_parent());
    assert(f1.last() == ip1.spec_last());
    assert(full_segments(objs, ip2).last() == ip2.spec_last());
    assert(ip1.spec_key() == ip2.spec_key());
    InternedPath::lemma_from_key(ip1);
    InternedPath::lemma_from_key(ip2);
}

/// The ancestors of the current namespace are the segments of the current path.
pub proof fn lemma_ancestors_current(
    objs: Seq<((usize, usize), NamedObject)>,
    nsegs: nat,
    ns_segs: Seq<usize>,
    ns_idx: Seq<usize>,
)
    requires
        keys_wf(objs, nsegs),
        namespace_wf(ns_segs, ns_idx, objs.len(), nsegs),
        ns_chain_wf(objs, ns_segs, ns_idx),
    ensures
        ancestor_segments(objs, if ns_idx.len() == 0 { 0usize } else { ns_idx.last() }) == ns_segs,
    decreases ns_idx.len(),
{
    reveal(ns_chain_wf);
    if ns_idx.len() > 0 {
        let n = ns_idx.len() - 1;
        let segs2 = ns_segs.drop_last();
        let idx2 = ns_idx.drop_last();
        assert forall|k: int| 0 <= k < idx2.len() implies #[trigger] idx2[k] > 0 && objs[idx2[k] as int].0 == (
            ns_parent(idx2, k),
            segs2[k],
        ) by {
            assert(idx2[k] == ns_idx[k] && segs2[k] == ns_segs[k]);
            assert(ns_idx[k] > 0);
            if k > 0 {
                assert(idx2[k - 1] == ns_idx[k - 1]);
            }
        }
        assert(ns_chain_wf(objs, segs2, idx2));
        assert forall|k: int| 0 <= k < idx2.len() implies #[trigger] idx2[k] < objs.len() by {
            assert(idx2[k] == ns_idx[k]);
        }
        assert forall|k: int| 0 <= k < segs2.len() implies #[trigger] segs2[k] < nsegs by {
            assert(segs2[k] == ns_segs[k]);
        }
        lemma_ancestors_current(objs, nsegs, segs2, idx2);
        let p = ns_idx.last();
        assert(ns_idx[n] > 0);
        assert(p < objs.len());
        assert(objs[p as int].0.0 < p);
        assert(ns_segs =~= segs2.push(ns_segs[n]));
    }
}

/// Naming stays consistent when an object with a recorded path is added.
pub proof fn lemma_naming_object_push(
    objs: Seq<((usize, usize), NamedObject)>,
    ns_segs: Seq<usize>,
    ns_idx: Seq<usize>,
    entries: Seq<(Vec<usize>, InternedPath)>,
    cs: Seq<TestConstraint>,
    nsegs: nat,
    obj: ((usize, usize), NamedObject),
)
    requires
        naming_wf(objs, ns_segs, ns_idx, entries, cs),
        namespace_wf(ns_segs, ns_idx, objs.len(), nsegs),
        full_paths_wf(entries, objs.len(), nsegs),
        recorded(entries, InternedPath::spec_from_key(obj.0)),
    ensures
        naming_wf(objs.push(obj), ns_segs, ns_idx, entries, cs),
{
    let objs2 = objs.push(obj);
    assert forall|i: int| 0 <= i < objs.len() implies #[trigger] objs2[i].0 == objs[i].0 by {
    }
    lemma_naming_chain_keys(objs, objs2, ns_segs, ns_idx, nsegs);
    lemma_naming_entries_keys(objs, objs2, entries, nsegs);
    reveal(objects_recorded);
    assert forall|i: int| 0 <= i < objs2.len() implies recorded(entries, InternedPath::spec_from_key(#[trigger] objs2[i].0)) by {
        if i < objs.len() {
            assert(recorded(entries, InternedPath::spec_from_key(objs[i].0)));
        }
    }
}

/// The namespace chain only reads keys of positions below the object count.
proof fn lemma_naming_chain_keys(
    objs: Seq<((usize, usize), NamedObject)>,
    objs2: Seq<((usize, usize), NamedObject)>,
    ns_segs: Seq<usize>,
    ns_idx: Seq<usize>,
    nsegs: nat,
)
    requires
        ns_chain_wf(objs, ns_segs, ns_idx),
        namespace_wf(ns_segs, ns_idx, objs.len(), nsegs),
        objs.len() <= objs2.len(),
        forall|i: int| 0 <= i < objs.len() ==> #[trigger] objs2[i].0 == objs[i].0,
    ensures
        ns_chain_wf(objs2, ns_segs, ns_idx),
{
    reveal(ns_chain_wf);
    assert forall|k: int| 0 <= k < ns_idx.len() implies #[trigger] ns_idx[k] > 0 && objs2[ns_idx[k] as int].0 == (
        ns_parent(ns_idx, k),
        ns_segs[k],
    ) by {
        assert(ns_idx[k] < objs.len());
        assert(objs2[ns_idx[k] as int].0 == objs[ns_idx[k] as int].0);
    }
}

/// Recorded full paths only read keys of positions below the object count.
proof fn lemma_naming_entries_keys(
    objs: Seq<((usize, usize), NamedObject)>,
    objs2: Seq<((usize, usize), NamedObject)>,
    entries: Seq<(Vec<usize>, InternedPath)>,
    nsegs: nat,
)
    requires
        entries_match(objs, entries),
        full_paths_wf(entries, objs.len(), nsegs),
        objs.len() <= objs2.len(),
        forall|i: int| 0 <= i < objs.len() ==> #[trigger] objs2[i].0 == objs[i].0,
    ensures
        entries_match(objs2, entries),
{
    reveal(entries_match);
    assert forall|j: int| 0 <= j < entries.len() implies (#[trigger] entries[j]).0@ == full_segments(objs2, entries[j].1) by {
        assert(path_in(entries[j].1, objs.len(), nsegs));
        lemma_ancestors_extend(objs, objs2, entries[j].1.spec_parent());
    }
}

/// Naming stays consistent when object values change but keys do not.
pub proof fn lemma_naming_same_keys(
    objs: Seq<((usize, usize), NamedObject)>,
    objs2: Seq<((usize, usize), NamedObject)>,
    ns_segs: Seq<usize>,
    ns_idx: Seq<usize>,
    entries: Seq<(Vec<usize>, InternedPath)>,
    cs: Seq<TestConstraint>,
    nsegs: nat,
)
    requires
        naming_wf(objs, ns_segs, ns_idx, entries, cs),
        namespace_wf(ns_segs, ns_idx, objs.len(), nsegs),
        full_paths_wf(entries, objs.len(), nsegs),
        objs2.len() == objs.len(),
        forall|i: int| 0 <= i < objs.len() ==> #[trigger] objs2[i].0 == objs[i].0,
    ensures
        naming_wf(objs2, ns_segs, ns_idx, entries, cs),
{
    lemma_naming_chain_keys(objs, objs2, ns_segs, ns_idx, nsegs);
    lemma_naming_entries_keys(objs, objs2, entries, nsegs);
    reveal(objects_recorded);
    assert forall|i: int| 0 <= i < objs2.len() implies recorded(entries, InternedPath::spec_from_key(#[trigger] objs2[i].0)) by {
        assert(recorded(entries, InternedPath::spec_from_key(objs[i].0)));
    }
}

/// Naming stays consistent when a constraint with a recorded path is added.
pub proof fn lemma_naming_constraint_push(
    objs: Seq<((usize, usize), NamedObject)>,
    ns_segs: Seq<usize>,
    ns_idx: Seq<usize>,
    entries: Seq<(Vec<usize>, InternedPath)>,
    cs: Seq<TestConstraint>,
    c: TestConstraint,
)
    requires
        naming_wf(objs, ns_segs, ns_idx, entries, cs),
        recorded(entries, c.spec_path()),
    ensures
        naming_wf(objs, ns_segs, ns_idx, entries, cs.push(c)),
{
    reveal(constraints_recorded);
    assert forall|k: int| 0 <= k < cs.push(c).len() implies recorded(entries, (#[trigger] cs.push(c)[k]).spec_path()) by {
        if k < cs.len() {
            assert(cs.push(c)[k] == cs[k]);
        }
    }
}

/// Naming stays consistent when the namespace at position `idx`, in the
/// current one, is entered.
pub proof fn lemma_naming_namespace_push(
    objs: Seq<((usize, usize), NamedObject)>,
    ns_segs: Seq<usize>,
    ns_idx: Seq<usize>,
    entries: Seq<(Vec<usize>, InternedPath)>,
    cs: Seq<TestConstraint>,
    seg: usize,
    idx: usize,
)
    requires
        naming_wf(objs, ns_segs, ns_idx, entries, cs),
        ns_segs.len() == ns_idx.len(),
        idx > 0,
        idx < objs.len(),
        objs[idx as int].0 == (if ns_idx.len() == 0 { 0usize } else { ns_idx.last() }, seg),
    ensures
        naming_wf(objs, ns_segs.push(seg), ns_idx.push(idx), entries, cs),
{
    reveal(ns_chain_wf);
    let s2 = ns_segs.push(seg);
    let i2 = ns_idx.push(idx);
    assert forall|k: int| 0 <= k < i2.len() implies #[trigger] i2[k] > 0 && objs[i2[k] as int].0 == (
        ns_parent(i2, k),
        s2[k],
    ) by {
        if k < ns_idx.len() {
            assert(i2[k] == ns_idx[k] && s2[k] == ns_segs[k]);
            if k > 0 {
                assert(i2[k - 1] == ns_idx[k - 1]);
            }
        } else if k > 0 {
            assert(i2[k - 1] == ns_idx.last());
        }
    }
}

/// Naming stays consistent when the current namespace is left.
pub proof fn lemma_naming_namespace_pop(
    objs: Seq<((usize, usize), NamedObject)>,
    ns_segs: Seq<usize>,
    ns_idx: Seq<usize>,
    entries: Seq<(Vec<usize>, InternedPath)>,
    cs: Seq<TestConstraint>,
)
    requires
        naming_wf(objs, ns_segs, ns_idx, entries, cs),
        ns_segs.len() == ns_idx.len(),
        ns_idx.len() > 0,
    ensures
        naming_wf(objs, ns_segs.drop_last(), ns_idx.drop_last(), entries, cs),
{
    reveal(ns_chain_wf);
    let s2 = ns_segs.drop_last();
    let i2 = ns_idx.drop_last();
    assert forall|k: int| 0 <= k < i2.len() implies #[trigger] i2[k] > 0 && objs[i2[k] as int].0 == (
        ns_parent(i2, k),
        s2[k],
    ) by {
        assert(i2[k] == ns_idx[k] && s2[k] == ns_segs[k]);
        assert(ns_idx[k] > 0);
        if k > 0 {
            assert(i2[k - 1] == ns_idx[k - 1]);
        }
    }
}

/// Naming stays consistent when the full path of a new object in the current
/// namespace is recorded: a full path recorded before keeps its interned form.
pub proof fn lemma_naming_record(
    objs: Seq<((usize, usize), NamedObject)>,
    ns_segs: Seq<usize>,
    ns_idx: Seq<usize>,
    entries: Seq<(Vec<usize>, InternedPath)>,
    entries2: Seq<(Vec<usize>, InternedPath)>,
    cs: Seq<TestConstraint>,
    nsegs: nat,
    nsegs2: nat,
    full: Seq<usize>,
    ip: InternedPath,
)
    requires
        naming_wf(objs, ns_segs, ns_idx, entries, cs),
        keys_wf(objs, nsegs),
        namespace_wf(ns_segs, ns_idx, objs.len(), nsegs),
        full_paths_wf(entries, objs.len(), nsegs),
        nsegs <= nsegs2,
        path_in(ip, objs.len(), nsegs2),
        full == ns_segs.push(ip.spec_last()),
        ip.spec_parent() == (if ns_idx.len() == 0 { 0usize } else { ns_idx.last() }),
        entries2.len() >= entries.len(),
        forall|i: int|
            0 <= i < entries.len() ==> #[trigger] entries2[i] == entries[i] || (entries2[i].0@ == full
                && entries2[i].1 == ip && entries[i].0@ == full),
        forall|i: int| entries.len() <= i < entries2.len() ==> (#[trigger] entries2[i]).0@ == full && entries2[i].1 == ip,
    ensures
        naming_wf(objs, ns_segs, ns_idx, entries2, cs),
        forall|i: int| 0 <= i < entries.len() ==> (#[trigger] entries2[i]).1 == entries[i].1,
{
    lemma_ancestors_current(objs, nsegs, ns_segs, ns_idx);
    assert(full_segments(objs, ip) == full);
    lemma_keys_grow(objs, nsegs, nsegs2);
    assert forall|i: int| 0 <= i < entries.len() implies (#[trigger] entries2[i]).1 == entries[i].1 by {
        if entries2[i] != entries[i] {
            reveal(entries_match);
            assert(entries[i].0@ == full_segments(objs, entries[i].1));
            assert(path_in(entries[i].1, objs.len(), nsegs));
            lemma_full_segments_injective(objs, nsegs2, entries[i].1, ip);
        }
    }
    lemma_naming_record_entries(objs, entries, entries2, full, ip);
    lemma_naming_record_recorded(objs, entries, entries2, cs);
}

/// Keys stay well formed as segments are added.
proof fn lemma_keys_grow(objs: Seq<((usize, usize), NamedObject)>, nsegs: nat, nsegs2: nat)
    requires
        keys_wf(objs, nsegs),
        nsegs <= nsegs2,
    ensures
        keys_wf(objs, nsegs2),
{
}

proof fn lemma_naming_record_entries(
    objs: Seq<((usize, usize), NamedObject)>,
    entries: Seq<(Vec<usize>, InternedPath)>,
    entries2: Seq<(Vec<usize>, InternedPath)>,
    full: Seq<usize>,
    ip: InternedPath,
)
    requires
        entries_match(objs, entries),
        full_segments(objs, ip) == full,
        entries2.len() >= entries.len(),
        forall|i: int|
            0 <= i < entries.len() ==> #[trigger] entries2[i] == entries[i] || (entries2[i].0@ == full
                && entries2[i].1 == ip && entries[i].0@ == full),
        forall|i: int| entries.len() <= i < entries2.len() ==> (#[trigger] entries2[i]).0@ == full && entries2[i].1 == ip,
    ensures
        entries_match(objs, entries2),
{
    reveal(entries_match);
    assert forall|j: int| 0 <= j < entries2.len() implies (#[trigger] entries2[j]).0@ == full_segments(objs, entries2[j].1) by {
        if j < entries.len() && entries2[j] == entries[j] {
            assert(entries[j].0@ == full_segments(objs, entries[j].1));
        }
    }
}

proof fn lemma_naming_record_recorded(
    objs: Seq<((usize, usize), NamedObject)>,
    entries: Seq<(Vec<usize>, InternedPath)>,
    entries2: Seq<(Vec<usize>, InternedPath)>,
    cs: Seq<TestConstraint>,
)
    requires
        objects_recorded(objs, entries),
        constraints_recorded(entries, cs),
        entries2.len() >= entries.len(),
        forall|i: int| 0 <= i < entries.len() ==> (#[trigger] entries2[i]).1 == entries[i].1,
    ensures
        objects_recorded(objs, entries2),
        constraints_recorded(entries2, cs),
{
    reveal(objects_recorded);
    reveal(constraints_recorded);
    assert forall|i: int| 0 <= i < objs.len() implies recorded(entries2, InternedPath::spec_from_key(#[trigger] objs[i].0)) by {
        assert(recorded(entries, InternedPath::spec_from_key(objs[i].0)));
        let j = choose|j: int| 0 <= j < entries.len() && (#[trigger] entries[j]).1 == InternedPath::spec_from_key(objs[i].0);
        assert(entries2[j].1 == entries[j].1);
    }
    assert forall|k: int| 0 <= k < cs.len() implies recorded(entries2, (#[trigger] cs[k]).spec_path()) by {
        assert(recorded(entries, cs[k].spec_path()));
        let j = choose|j: int| 0 <= j < entries.len() && (#[trigger] entries[j]).1 == cs[k].spec_path();
        assert(entries2[j].1 == entries[j].1);
    }
}

/// The parts of well-formedness that only bound positions stay true as what
/// they bound grows.
pub proof fn lemma_wf_grow(
    objs: Seq<((usize, usize), NamedObject)>,
    cs: Seq<TestConstraint>,
    entries: Seq<(Vec<usize>, InternedPath)>,
    slots: Seq<usize>,
    nsegs: nat,
    nsegs2: nat,
    npub: nat,
    npub2: nat,
    npriv: nat,
    npriv2: nat,
    nobjs: nat,
    nobjs2: nat,
    nfields: nat,
    nfields2: nat,
)
    requires
        nsegs <= nsegs2,
        npub <= npub2,
        npriv <= npriv2,
        nobjs <= nobjs2,
        nfields <= nfields2,
    ensures
        keys_wf(objs, nsegs) ==> keys_wf(objs, nsegs2),
        vars_wf(objs, npub, npriv) ==> vars_wf(objs, npub2, npriv2),
        slots_wf(slots, nfields) ==> slots_wf(slots, nfields2),
        constraints_wf(cs, nobjs, nsegs, nfields) ==> constraints_wf(cs, nobjs2, nsegs2, nfields2),
        full_paths_wf(entries, nobjs, nsegs) ==> full_paths_wf(entries, nobjs2, nsegs2),
        forall|segs: Seq<usize>, indices: Seq<usize>|
            namespace_wf(segs, indices, nobjs, nsegs) ==> #[trigger] namespace_wf(segs, indices, nobjs2, nsegs2),
{
    if constraints_wf(cs, nobjs, nsegs, nfields) {
        assert forall|k: int| 0 <= k < cs.len() implies {
            let c = #[trigger] cs[k];
            &&& path_in(c.spec_path(), nobjs2, nsegs2)
            &&& terms_in(c.spec_a(), nfields2)
            &&& terms_in(c.spec_b(), nfields2)
            &&& terms_in(c.spec_c(), nfields2)
        } by {
            let c = cs[k];
            assert(terms_in(c.spec_a(), nfields) && terms_in(c.spec_b(), nfields) && terms_in(c.spec_c(), nfields));
        }
    }
}

impl TestConstraintSystem {
    /// The interned path segments.
    pub closed spec fn segments(self) -> Seq<Seq<char>> {
        segment_items(self.interned_path_segments)
    }

    /// The interned field elements.
    pub closed spec fn fields(self) -> Seq<Limbs> {
        field_items(self.interned_fields)
    }

    /// The named objects with their keys.
    pub closed spec fn objects(self) -> Seq<((usize, usize), NamedObject)> {
        object_entries(self.named_objects)
    }

    /// The recorded (full path, interned path) pairs.
    pub closed spec fn full_path_entries(self) -> Seq<(Vec<usize>, InternedPath)> {
        self.interned_full_paths@
    }

    /// The full paths that have been created, with their interned form.
    pub open spec fn full_paths(self) -> Map<Seq<usize>, InternedPath> {
        full_path_map(self.full_path_entries())
    }

    /// The recorded constraints.
    pub closed spec fn constraint_seq(self) -> Seq<TestConstraint> {
        self.constraints@
    }

    /// The interned values of the public variables.
    pub closed spec fn public_slots(self) -> Seq<usize> {
        self.public_variables@
    }

    /// The interned values of the private variables.
    pub closed spec fn private_slots(self) -> Seq<usize> {
        self.private_variables@
    }

    /// The namespace objects are created in.
    pub closed spec fn namespace_segments(self) -> Seq<usize> {
        self.current_namespace.spec_segments()
    }

    /// The positions of the namespaces along the current path.
    pub closed spec fn namespace_indices(self) -> Seq<usize> {
        self.current_namespace.spec_indices()
    }

    /// The position of the current namespace, 0 at the root.
    pub open spec fn current_idx(self) -> usize {
        if self.namespace_indices().len() == 0 {
            0
        } else {
            self.namespace_indices().last()
        }
    }

    /// The lookup table, if one was added.
    pub closed spec fn lookup(self) -> Option<LookupTable> {
        self.lookup_table
    }

    /// The interned value of a variable, if the system has it.
    pub open spec fn slot_of(self, v: Variable) -> Option<usize> {
        match v.spec_index() {
            Index::Public(i) => if i < self.public_slots().len() {
                Some(self.public_slots()[i as int])
            } else {
                None
            },
            Index::Private(i) => if i < self.private_slots().len() {
                Some(self.private_slots()[i as int])
            } else {
                None
            },
        }
    }

    /// Every variable of `a` is a variable of `b`, with the same value.
    pub open spec fn vars_kept(a: Self, b: Self) -> bool {
        forall|w: Variable| a.has_var(w) ==> b.has_var(w) && #[trigger] b.var_value(w) == a.var_value(w)
    }

    /// A variable of `a` is one of `b`, with the same value, when the variables are kept.
    pub proof fn lemma_vars_kept(a: Self, b: Self, w: Variable)
        requires
            Self::vars_kept(a, b),
            a.has_var(w),
        ensures
            b.has_var(w),
            b.var_value(w) == a.var_value(w),
    {
        assert(b.var_value(w) == a.var_value(w));
    }

    /// Whether the system has the variable.
    pub open spec fn has_var(self, v: Variable) -> bool {
        self.slot_of(v) is Some
    }

    /// The value of a variable the system has.
    pub open spec fn var_value(self, v: Variable) -> nat {
        limbs_value(self.fields()[self.slot_of(v).unwrap() as int])
    }

    /// An interned path whose parts the system holds.
    pub open spec fn path_ok(self, p: InternedPath) -> bool {
        path_in(p, self.objects().len(), self.segments().len())
    }

    /// Terms whose variables the system has.
    pub open spec fn terms_vars_ok(self, t: Seq<(Variable, usize)>) -> bool {
        forall|k: int| 0 <= k < t.len() ==> self.has_var(#[trigger] t[k].0)
    }

    /// The well-formedness of the system.
    pub open spec fn wf(self) -> bool {
        let nsegs = self.segments().len();
        let nfields = self.fields().len();
        let nobjs = self.objects().len();
        &&& segments_wf(self.segments())
        &&& fields_wf(self.fields())
        &&& keys_wf(self.objects(), nsegs)
        &&& vars_wf(self.objects(), self.public_slots().len(), self.private_slots().len())
        &&& slots_wf(self.public_slots(), nfields)
        &&& slots_wf(self.private_slots(), nfields)
        &&& namespace_wf(self.namespace_segments(), self.namespace_indices(), nobjs, nsegs)
        &&& constraints_wf(self.constraint_seq(), nobjs, nsegs, nfields)
        &&& full_paths_wf(self.full_path_entries(), nobjs, nsegs)
        &&& naming_wf(
            self.objects(),
            self.namespace_segments(),
            self.namespace_indices(),
            self.full_path_entries(),
            self.constraint_seq(),
        )
    }

    /// The variable that stands for the constant one.
    pub fn one() -> (r: Variable)
        ensures
            r == Self::spec_one(),
            r.spec_index() == Index::Public(0),
    {
        Variable::new_unchecked(Index::Public(0))
    }

    /// The views of an empty system: its only name is `ONE`, its only field
    /// element 1, its only object the public variable `ONE` holding it; it has
    /// no constraints, no current namespace and no lookup table.
    pub open spec fn is_fresh(self) -> bool {
        &&& self.segments() == seq![seq!['O', 'N', 'E']]
        &&& self.fields() == seq![(1u64, 0u64, 0u64, 0u64)]
        &&& self.objects() == seq![((0usize, 0usize), NamedObject::Var(Self::spec_one()))]
        &&& self.full_paths().dom() == set![seq![0usize]]
        &&& self.full_paths()[seq![0usize]] == InternedPath::spec_from_key((0usize, 0usize))
        &&& self.public_slots() == seq![0usize]
        &&& self.private_slots() == Seq::<usize>::empty()
        &&& self.constraint_seq() == Seq::<TestConstraint>::empty()
        &&& self.namespace_segments() == Seq::<usize>::empty()
        &&& self.namespace_indices() == Seq::<usize>::empty()
        &&& self.lookup() is None
    }

    /// In an empty system the path `ONE` names the variable for the constant
    /// one, and it holds 1.
    pub proof fn lemma_fresh_one(self)
        requires
            self.is_fresh(),
        ensures
            self.var_at(seq!['O', 'N', 'E']) == Some(Self::spec_one()),
            self.has_var(Self::spec_one()),
            self.var_value(Self::spec_one()) == 1,
    {
        let one = seq!['O', 'N', 'E'];
        Variable::lemma_spec_new(Index::Public(0));
        reveal_with_fuel(split_path, 4);
        assert(one.drop_last() =~= seq!['O', 'N']);
        assert(one.drop_last().drop_last() =~= seq!['O']);
        assert(one.drop_last().drop_last().drop_last() =~= Seq::<char>::empty());
        assert(split_path(seq!['O']) =~= seq![seq!['O']]);
        let on = seq!['O', 'N'];
        assert(on.drop_last() =~= seq!['O']);
        assert(on.last() == 'N');
        assert(seq!['O'].push('N') =~= on);
        assert(split_path(on) == seq![seq!['O']].update(0, seq!['O'].push('N')));
        assert(split_path(on) =~= seq![on]);
        assert(one.drop_last() == on);
        assert(one.last() == 'E');
        assert(on.push('E') =~= one);
        assert(split_path(one) == seq![on].update(0, on.push('E')));
        assert(split_path(one) =~= seq![one]);
        assert(self.segments()[0] == one);
        assert(self.segments().contains(one));
        assert(self.segments().index_of(one) == 0);
        let names = split_path(one);
        assert(names.drop_last() =~= Seq::<Seq<char>>::empty());
        assert(interned_names(self.segments(), names.drop_last()) == Seq::<usize>::empty());
        assert(names.last() == one);
        assert(interned_names(self.segments(), names) =~= seq![0usize]);
        assert(self.path_resolves(one));
        InternedPath::lemma_from_key(InternedPath::spec_from_key((0usize, 0usize)));
        assert(self.objects()[0].0 == (0usize, 0usize));
        assert(object_with_key(self.objects(), (0usize, 0usize)) == Some(NamedObject::Var(Self::spec_one())));
    }

    /// An empty system: its only object is the public variable `ONE` of value 1.
    pub fn new() -> (r: Self)
        ensures
            r.wf(),
            r.is_fresh(),
            r.var_at(seq!['O', 'N', 'E']) == Some(Self::spec_one()),
            r.var_value(Self::spec_one()) == 1,
    {
        let mut interned_path_segments = segments_new();
        let one_name = "ONE";
        proof {
            reveal_strlit("ONE");
            assert(one_name@ =~= seq!['O', 'N', 'E']);
        }
        let (interned_path_segment, _) = segments_insert_full(
            &mut interned_path_segments,
            one_name.to_owned(),
        );
        let interned_path = InternedPath { parent_namespace: 0, last_segment: interned_path_segment };
        let mut interned_full_paths: Vec<(Vec<usize>, InternedPath)> = Vec::new();
        let mut full_path: Vec<usize> = Vec::new();
        full_path.push(interned_path_segment);
        interned_full_paths.push((full_path, interned_path));
        let mut named_objects = objects_new();
        objects_insert_full(
            &mut named_objects,
            interned_path.key(),
            NamedObject::Var(Self::one()),
        );
        let mut interned_fields = fields_new();
        let (interned_field, _) = fields_insert_full(&mut interned_fields, Fr::one().limbs());
        let mut public_variables: Vec<usize> = Vec::new();
        public_variables.push(interned_field);
        let r = TestConstraintSystem {
            interned_full_paths,
            interned_path_segments,
            interned_fields,
            named_objects,
            current_namespace: CurrentNamespace::new(),
            lookup_table: None,
            constraints: Vec::new(),
            public_variables,
            private_variables: Vec::new(),
        };
        proof {
            assert(r.full_path_entries()[0].0@ =~= seq![0usize]);
            assert(full_path_map(r.full_path_entries().drop_last()) =~= Map::empty());
            reveal(ns_chain_wf);
            reveal(entries_match);
            reveal(objects_recorded);
            reveal(constraints_recorded);
            InternedPath::lemma_from_key(interned_path);
            assert(full_segments(r.objects(), interned_path) =~= seq![0usize]);
            assert(r.full_path_entries()[0].1 == InternedPath::spec_from_key(r.objects()[0].0));
            r.lemma_fresh_one();
        }
        r
    }

    /// The variable that stands for the constant one.
    pub open spec fn spec_one() -> Variable {
        Variable::spec_new(Index::Public(0))
    }

    /// The number of constraints.
    pub fn num_constraints(&self) -> (r: usize)
        ensures
            r == self.constraint_seq().len(),
    {
        self.constraints.len()
    }

    /// The number of public variables, the constant one included.
    pub fn num_public_variables(&self) -> (r: usize)
        ensures
            r == self.public_slots().len(),
    {
        self.public_variables.len()
    }

    /// The number of private variables.
    pub fn num_private_variables(&self) -> (r: usize)
        ensures
            r == self.private_slots().len(),
    {
        self.private_variables.len()
    }

    /// A test system is never in setup mode: it always has values.
    pub fn is_in_setup_mode(&self) -> (r: bool)
        ensures
            !r,
    {
        false
    }

    /// Makes `lookup_table` the table that lookup constraints are checked against.
    pub fn add_lookup_table(&mut self, lookup_table: LookupTable)
        requires
            old(self).wf(),
        ensures
            final(self).wf(),
            final(self).lookup() == Some(lookup_table),
            final(self).segments() == old(self).segments(),
            final(self).fields() == old(self).fields(),
            final(self).objects() == old(self).objects(),
            final(self).full_path_entries() == old(self).full_path_entries(),
            final(self).constraint_seq() == old(self).constraint_seq(),
            final(self).public_slots() == old(self).public_slots(),
            final(self).private_slots() == old(self).private_slots(),
            final(self).namespace_segments() == old(self).namespace_segments(),
            final(self).namespace_indices() == old(self).namespace_indices(),
    {
        let ghost before = *old(self);
        self.lookup_table = Some(lookup_table);
    }
}

/// Copies a list of indices.
fn copy_indices(v: &Vec<usize>) -> (r: Vec<usize>)
    ensures
        r@ == v@,
{
    let mut r: Vec<usize> = Vec::new();
    let mut i: usize = 0;
    while i < v.len()
        invariant
            i <= v.len(),
            r@ == v@.take(i as int),
        decreases v.len() - i,
    {
        r.push(v[i]);
        i = i + 1;
        assert(r@ =~= v@.take(i as int));
    }
    assert(v@.take(v.len() as int) =~= v@);
    r
}

/// Whether two lists of indices are equal.
fn indices_eq(a: &Vec<usize>, b: &Vec<usize>) -> (r: bool)
    ensures
        r == (a@ == b@),
{
    if a.len() != b.len() {
        return false;
    }
    let mut i: usize = 0;
    while i < a.len()
        invariant
            i <= a.len(),
            a.len() == b.len(),
            forall|k: int| 0 <= k < i ==> a@[k] == b@[k],
        decreases a.len() - i,
    {
        if a[i] != b[i] {
            return false;
        }
        i = i + 1;
    }
    assert(a@ =~= b@);
    true
}

/// The map of full paths after a pair is recorded under a key no other pair has.
proof fn lemma_full_path_map_push(entries: Seq<(Vec<usize>, InternedPath)>, e: (Vec<usize>, InternedPath))
    ensures
        full_path_map(entries.push(e)) == full_path_map(entries).insert(e.0@, e.1),
{
    assert(entries.push(e).drop_last() =~= entries);
}

/// Replacing the pair at position `i` under its own key replaces the mapped value.
proof fn lemma_full_path_map_update(
    entries: Seq<(Vec<usize>, InternedPath)>,
    i: int,
    e: (Vec<usize>, InternedPath),
)
    requires
        0 <= i < entries.len(),
        entries[i].0@ == e.0@,
        forall|j: int, k: int|
            0 <= j < entries.len() && 0 <= k < entries.len() && j != k ==> (#[trigger] entries[j]).0@
                != (#[trigger] entries[k]).0@,
    ensures
        full_path_map(entries.update(i, e)) == full_path_map(entries).insert(e.0@, e.1),
    decreases entries.len(),
{
    let n = entries.len() - 1;
    if i == n {
        assert(entries.update(i, e).drop_last() =~= entries.drop_last());
    } else {
        let rest = entries.drop_last();
        assert forall|j: int, k: int|
            0 <= j < rest.len() && 0 <= k < rest.len() && j != k implies (#[trigger] rest[j]).0@
                != (#[trigger] rest[k]).0@ by {
            assert(rest[j] == entries[j] && rest[k] == entries[k]);
        }
        lemma_full_path_map_update(rest, i, e);
        assert(entries.update(i, e).drop_last() =~= rest.update(i, e));
        assert(entries[n].0@ != e.0@);
        assert(full_path_map(entries.update(i, e)) =~= full_path_map(entries).insert(e.0@, e.1));
    }
}

/// Whether some pair in the list has the key.
proof fn lemma_full_path_map_dom(entries: Seq<(Vec<usize>, InternedPath)>, key: Seq<usize>)
    ensures
        full_path_map(entries).contains_key(key) <==> exists|i: int|
            0 <= i < entries.len() && (#[trigger] entries[i]).0@ == key,
    decreases entries.len(),
{
    if entries.len() > 0 {
        lemma_full_path_map_dom(entries.drop_last(), key);
        if full_path_map(entries).contains_key(key) && entries.last().0@ != key {
            let i = choose|i: int| 0 <= i < entries.len() - 1 && (#[trigger] entries.drop_last()[i]).0@ == key;
            assert(entries[i] == entries.drop_last()[i]);
        }
        if exists|i: int| 0 <= i < entries.len() && (#[trigger] entries[i]).0@ == key {
            let i = choose|i: int| 0 <= i < entries.len() && (#[trigger] entries[i]).0@ == key;
            if i < entries.len() - 1 {
                assert(entries.drop_last()[i] == entries[i]);
            }
        }
    }
}

/// The value of the object with key `key`, if there is one.
pub open spec fn object_with_key(
    objs: Seq<((usize, usize), NamedObject)>,
    key: (usize, usize),
) -> Option<NamedObject> {
    if exists|i: int| 0 <= i < objs.len() && (#[trigger] objs[i]).0 == key {
        Some(objs[choose|i: int| 0 <= i < objs.len() && (#[trigger] objs[i]).0 == key].1)
    } else {
        None
    }
}

/// `new` is `old` with `child` recorded in the namespace at position `idx`, if
/// the object there is a namespace.
pub open spec fn registered(
    old: Seq<((usize, usize), NamedObject)>,
    new: Seq<((usize, usize), NamedObject)>,
    idx: int,
    child: NamedObject,
) -> bool {
    &&& new.len() == old.len()
    &&& forall|i: int| 0 <= i < old.len() && i != idx ==> #[trigger] new[i] == old[i]
    &&& 0 <= idx < old.len() ==> new[idx].0 == old[idx].0
    &&& 0 <= idx < old.len() ==> match old[idx].1 {
        NamedObject::Namespace(ns) => new[idx].1 matches NamedObject::Namespace(ns2) && ns2.spec_children()
            == ns.spec_children().push(child) && ns2.spec_idx() == ns.spec_idx(),
        _ => new[idx].1 == old[idx].1,
    }
}

impl TestConstraintSystem {
    /// Whether an object has the key.
    pub open spec fn has_key(self, key: (usize, usize)) -> bool {
        exists|i: int| 0 <= i < self.objects().len() && (#[trigger] self.objects()[i]).0 == key
    }

    /// The interned segment that `name` has, or would get.
    pub open spec fn name_segment(self, name: Seq<char>) -> usize {
        if self.segments().contains(name) {
            self.segments().index_of(name) as usize
        } else {
            self.segments().len() as usize
        }
    }

    /// The interned path a new object called `name` gets.
    pub open spec fn new_path(self, name: Seq<char>) -> (usize, usize) {
        (self.current_idx(), self.name_segment(name))
    }

    /// `name` may be a new segment: it is interned already or holds no `/`.
    pub open spec fn name_ok(self, name: Seq<char>) -> bool {
        self.segments().contains(name) || !name.contains('/')
    }

    /// No object has the path that a new object called `name` gets.
    pub open spec fn path_free(self, name: Seq<char>) -> bool {
        !self.has_key(self.new_path(name))
    }

    /// The views after `name` is interned as a path segment in the current
    /// namespace (the effect of computing the path of a new object).
    pub open spec fn path_computed(old: Self, new: Self, name: Seq<char>) -> bool {
        &&& new.segments() == (if old.segments().contains(name) {
            old.segments()
        } else {
            old.segments().push(name)
        })
        &&& new.full_paths() == old.full_paths().insert(
            old.namespace_segments().push(old.name_segment(name)),
            InternedPath::spec_from_key(old.new_path(name)),
        )
    }

    /// The same views, but for the segments, fields, objects, full paths,
    /// constraints and variables that a step may change.
    pub open spec fn same_namespace(a: Self, b: Self) -> bool {
        &&& b.namespace_segments() == a.namespace_segments()
        &&& b.namespace_indices() == a.namespace_indices()
        &&& b.lookup() == a.lookup()
    }

    /// Records the full path `full` under `ip`, replacing any earlier record.
    fn insert_full_path(&mut self, full: Vec<usize>, ip: InternedPath)
        requires
            forall|i: int, j: int|
                0 <= i < old(self).full_path_entries().len() && 0 <= j < old(self).full_path_entries().len() && i != j ==> (#[trigger] old(self).full_path_entries()[i]).0@ != (#[trigger] old(self).full_path_entries()[j]).0@,
        ensures
            final(self).full_paths() == old(self).full_paths().insert(full@, ip),
            forall|i: int|
                0 <= i < final(self).full_path_entries().len() ==> (#[trigger] final(self).full_path_entries()[i]).1 == ip || exists|j: int|
                    0 <= j < old(self).full_path_entries().len() && (#[trigger] old(self).full_path_entries()[j]) == final(self).full_path_entries()[i],
            final(self).full_path_entries().len() >= old(self).full_path_entries().len(),
            forall|i: int|
                0 <= i < old(self).full_path_entries().len() ==> #[trigger] final(self).full_path_entries()[i]
                    == old(self).full_path_entries()[i] || (final(self).full_path_entries()[i].0@ == full@
                    && final(self).full_path_entries()[i].1 == ip && old(self).full_path_entries()[i].0@ == full@),
            forall|i: int|
                old(self).full_path_entries().len() <= i < final(self).full_path_entries().len() ==> (
                #[trigger] final(self).full_path_entries()[i]).0@ == full@ && final(self).full_path_entries()[i].1 == ip,
            recorded(final(self).full_path_entries(), ip),
            forall|i: int, j: int|
                0 <= i < final(self).full_path_entries().len() && 0 <= j < final(self).full_path_entries().len() && i != j ==> (#[trigger] final(self).full_path_entries()[i]).0@ != (#[trigger] final(self).full_path_entries()[j]).0@,
            final(self).segments() == old(self).segments(),
            final(self).fields() == old(self).fields(),
            final(self).objects() == old(self).objects(),
            final(self).constraint_seq() == old(self).constraint_seq(),
            final(self).public_slots() == old(self).public_slots(),
            final(self).private_slots() == old(self).private_slots(),
            final(self).namespace_segments() == old(self).namespace_segments(),
            final(self).namespace_indices() == old(self).namespace_indices(),
            final(self).lookup() == old(self).lookup(),
    {
        let ghost entries = self.interned_full_paths@;
        let mut i: usize = 0;
        let mut found = false;
        while i < self.interned_full_paths.len()
            invariant_except_break
                i <= self.interned_full_paths.len(),
                forall|k: int| 0 <= k < i ==> entries[k].0@ != full@,
                !found,
            invariant
                self.interned_full_paths@ == entries,
            ensures
                found ==> i < entries.len() && entries[i as int].0@ == full@,
                !found ==> forall|k: int| 0 <= k < entries.len() ==> entries[k].0@ != full@,
            decreases self.interned_full_paths.len() - i,
        {
            if indices_eq(&self.interned_full_paths[i].0, &full) {
                found = true;
                break;
            }
            i = i + 1;
        }
        if found {
            let ghost fv = full@;
            self.interned_full_paths.set(i, (full, ip));
            proof {
                let e = self.interned_full_paths@[i as int];
                assert(e.0@ == fv);
                assert(entries == old(self).full_path_entries());
                assert(self.interned_full_paths@ == entries.update(i as int, e));
                lemma_full_path_map_update(entries, i as int, e);
                assert(self.full_path_entries()[i as int] == e);
                assert forall|a: int, b: int|
                    0 <= a < self.full_path_entries().len() && 0 <= b
                        < self.full_path_entries().len() && a != b implies (
                    #[trigger] self.full_path_entries()[a]).0@
                        != (#[trigger] self.full_path_entries()[b]).0@ by {
                    if a == i {
                        assert(entries[b] == self.full_path_entries()[b]);
                    } else if b == i {
                        assert(entries[a] == self.full_path_entries()[a]);
                    } else {
                        assert(entries[a] == self.full_path_entries()[a]);
                        assert(entries[b] == self.full_path_entries()[b]);
                    }
                }
                assert forall|a: int| 0 <= a < self.full_path_entries().len() implies (
                #[trigger] self.full_path_entries()[a]).1 == ip || exists|j: int|
                    0 <= j < entries.len() && (#[trigger] entries[j])
                        == self.full_path_entries()[a] by {
                    if a != i {
                        assert(entries[a] == self.full_path_entries()[a]);
                    }
                }
            }
        } else {
            let ghost fv = full@;
            self.interned_full_paths.push((full, ip));
            proof {
                let e = self.interned_full_paths@.last();
                assert(e.0@ == fv);
                assert(entries == old(self).full_path_entries());
                assert(self.interned_full_paths@ == entries.push(e));
                assert(self.full_path_entries()[entries.len() as int] == e);
                lemma_full_path_map_push(entries, e);
                assert forall|a: int, b: int|
                    0 <= a < self.full_path_entries().len() && 0 <= b
                        < self.full_path_entries().len() && a != b implies (
                    #[trigger] self.full_path_entries()[a]).0@
                        != (#[trigger] self.full_path_entries()[b]).0@ by {
                    if a < entries.len() && b < entries.len() {
                        assert(entries[a] == self.full_path_entries()[a]);
                        assert(entries[b] == self.full_path_entries()[b]);
                        assert(old(self).full_path_entries()[a].0@ != old(self).full_path_entries()[b].0@);
                    } else if a < entries.len() {
                        assert(entries[a] == self.full_path_entries()[a]);
                        assert(entries[a].0@ != fv);
                    } else {
                        assert(entries[b] == self.full_path_entries()[b]);
                        assert(entries[b].0@ != fv);
                    }
                }
                assert forall|a: int| 0 <= a < self.full_path_entries().len() implies (
                #[trigger] self.full_path_entries()[a]).1 == ip || exists|j: int|
                    0 <= j < entries.len() && (#[trigger] entries[j])
                        == self.full_path_entries()[a] by {
                    if a < entries.len() {
                        assert(entries[a] == self.full_path_entries()[a]);
                    }
                }
            }
        }
    }

    /// Interns `new_segment` and gives the interned path of a new object of
    /// that name in the current namespace, recording its full path.
    fn compute_path(&mut self, new_segment: &str) -> (r: InternedPath)
        requires
            old(self).wf(),
            old(self).name_ok(new_segment@),
        ensures
            final(self).wf(),
            Self::path_computed(*old(self), *final(self), new_segment@),
            r == InternedPath::spec_from_key(old(self).new_path(new_segment@)),
            final(self).path_ok(r),
            recorded(final(self).full_path_entries(), r),
            final(self).fields() == old(self).fields(),
            final(self).objects() == old(self).objects(),
            final(self).constraint_seq() == old(self).constraint_seq(),
            final(self).public_slots() == old(self).public_slots(),
            final(self).private_slots() == old(self).private_slots(),
            Self::same_namespace(*old(self), *final(self)),
    {
        let ghost before = *old(self);
        let interned_segment = match segments_get_index_of(&self.interned_path_segments, new_segment) {
            Some(index) => {
                proof {
                    assert(before.segments().contains(new_segment@));
                    assert(before.segments()[before.segments().index_of(new_segment@)] == new_segment@);
                }
                index
            },
            None => {
                let (index, _) = segments_insert_full(&mut self.interned_path_segments, new_segment.to_owned());
                proof {
                    let segs = self.segments();
                    let n = before.segments().len() as int;
                    assert(segs == before.segments().push(new_segment@));
                    assert forall|a: int, b: int|
                        0 <= a < segs.len() && 0 <= b < segs.len() && a != b implies segs[a] != segs[b] by {
                        if a < n && b < n {
                            assert(before.segments()[a] == segs[a] && before.segments()[b] == segs[b]);
                        } else if a < n {
                            assert(before.segments()[a] == segs[a]);
                            assert(before.segments().contains(segs[a]));
                        } else {
                            assert(before.segments()[b] == segs[b]);
                            assert(before.segments().contains(segs[b]));
                        }
                    }
                    assert forall|i: int| 0 <= i < segs.len() implies !(#[trigger] segs[i]).contains('/') by {
                        if i < n {
                            assert(before.segments()[i] == segs[i]);
                        }
                    }
                }
                index
            },
        };
        proof {
            if before.segments().contains(new_segment@) {
                assert(interned_segment == before.segments().index_of(new_segment@));
            }
        }
        let interned_path = InternedPath {
            parent_namespace: self.current_namespace.idx(),
            last_segment: interned_segment,
        };
        assert(self.full_path_entries() == before.full_path_entries());
        let mut full_path = copy_indices(&self.current_namespace.segments);
        full_path.push(interned_segment);
        let ghost fv = full_path@;
        let ghost mid = *self;
        self.insert_full_path(full_path, interned_path);
        proof {
            lemma_naming_record(
                before.objects(), before.namespace_segments(), before.namespace_indices(),
                before.full_path_entries(), self.full_path_entries(), before.constraint_seq(),
                before.segments().len(), self.segments().len(), fv, interned_path,
            );
            let nobjs = self.objects().len();
            let nsegs = self.segments().len();
            lemma_wf_grow(
                before.objects(), before.constraint_seq(), before.full_path_entries(), before.public_slots(),
                before.segments().len(), nsegs, 0, 0, 0, 0,
                nobjs, nobjs, before.fields().len(), before.fields().len(),
            );
            assert(namespace_wf(self.namespace_segments(), self.namespace_indices(), nobjs, nsegs));
            if before.namespace_indices().len() > 0 {
                assert(before.namespace_indices()[before.namespace_indices().len() - 1] < nobjs);
            }
            assert forall|i: int| 0 <= i < self.full_path_entries().len() implies path_in(
                (#[trigger] self.full_path_entries()[i]).1, nobjs, nsegs) by {
                if self.full_path_entries()[i].1 != interned_path {
                    let j = choose|j: int| 0 <= j < mid.full_path_entries().len() && (#[trigger] mid.full_path_entries()[j]) == self.full_path_entries()[i];
                    assert(path_in(mid.full_path_entries()[j].1, nobjs, nsegs));
                }
            }
        }
        interned_path
    }
}

impl TestConstraintSystem {
    /// The recorded terms `t` are the terms of `lc`, with coefficients interned.
    pub open spec fn terms_match(self, t: Seq<(Variable, usize)>, lc: Seq<(Variable, Fr)>) -> bool {
        &&& t.len() == lc.len()
        &&& forall|k: int|
            0 <= k < t.len() ==> (#[trigger] t[k]).0 == lc[k].0 && t[k].1 < self.fields().len()
                && self.fields()[t[k].1 as int] == lc[k].1.spec_limbs()
    }

    /// `new` holds the fields of `old`, in the same positions, and perhaps more.
    pub open spec fn fields_extend(old: Self, new: Self) -> bool {
        &&& old.fields().len() <= new.fields().len()
        &&& forall|i: int| 0 <= i < old.fields().len() ==> #[trigger] new.fields()[i] == old.fields()[i]
    }

    /// Adds `obj` under `interned_path`, which no object has, and gives its position.
    fn set_named_obj(&mut self, interned_path: InternedPath, to: NamedObject) -> (r: usize)
        requires
            old(self).wf(),
            old(self).path_ok(interned_path),
            !old(self).has_key(interned_path.spec_key()),
            recorded(old(self).full_path_entries(), interned_path),
            to matches NamedObject::Var(v) ==> old(self).has_var(v),
        ensures
            final(self).wf(),
            r == old(self).objects().len(),
            final(self).objects() == old(self).objects().push((interned_path.spec_key(), to)),
            final(self).segments() == old(self).segments(),
            final(self).fields() == old(self).fields(),
            final(self).full_path_entries() == old(self).full_path_entries(),
            final(self).full_paths() == old(self).full_paths(),
            final(self).constraint_seq() == old(self).constraint_seq(),
            final(self).public_slots() == old(self).public_slots(),
            final(self).private_slots() == old(self).private_slots(),
            Self::same_namespace(*old(self), *final(self)),
    {
        let ghost before = *old(self);
        let ghost obj = to;
        let (ns_idx, prev) = objects_insert_full(&mut self.named_objects, interned_path.key(), to);
        proof {
            if prev is Some {
                assert(before.objects()[ns_idx as int].0 == interned_path.spec_key());
            }
            let objs = self.objects();
            let n = before.objects().len() as int;
            let nsegs = self.segments().len();
            assert(objs == before.objects().push((interned_path.spec_key(), obj)));
            assert forall|i: int, j: int|
                0 <= i < objs.len() && 0 <= j < objs.len() && i != j implies #[trigger] objs[i].0
                    != #[trigger] objs[j].0 by {
                if i < n && j < n {
                    assert(before.objects()[i] == objs[i] && before.objects()[j] == objs[j]);
                } else if i < n {
                    assert(before.objects()[i] == objs[i]);
                } else {
                    assert(before.objects()[j] == objs[j]);
                }
            }
            assert forall|i: int| 0 <= i < objs.len() implies (#[trigger] objs[i]).0.1 < nsegs
                && (objs[i].0.0 == 0 || objs[i].0.0 < i) by {
                if i < n {
                    assert(before.objects()[i] == objs[i]);
                }
            }
            assert forall|i: int| 0 <= i < objs.len() implies ((#[trigger] objs[i]).1 matches NamedObject::Var(v)
                ==> var_in(v, self.public_slots().len(), self.private_slots().len())) by {
                if i < n {
                    assert(before.objects()[i] == objs[i]);
                }
            }
            lemma_wf_grow(
                before.objects(), before.constraint_seq(), before.full_path_entries(), before.public_slots(),
                nsegs, nsegs, 0, 0, 0, 0,
                n as nat, objs.len(), before.fields().len(), before.fields().len(),
            );
            assert(namespace_wf(self.namespace_segments(), self.namespace_indices(), objs.len(), nsegs));
            InternedPath::lemma_from_key(interned_path);
            lemma_naming_object_push(
                before.objects(), before.namespace_segments(), before.namespace_indices(),
                before.full_path_entries(), before.constraint_seq(), nsegs, (interned_path.spec_key(), obj),
            );
        }
        ns_idx
    }

    /// Records `named_obj` as a child of the current namespace.
    fn register_object_in_namespace(&mut self, named_obj: NamedObject)
        requires
            old(self).wf(),
        ensures
            final(self).wf(),
            registered(old(self).objects(), final(self).objects(), old(self).current_idx() as int, named_obj),
            forall|k: (usize, usize)| #[trigger] final(self).has_key(k) == old(self).has_key(k),
            final(self).segments() == old(self).segments(),
            final(self).fields() == old(self).fields(),
            final(self).full_paths() == old(self).full_paths(),
            final(self).full_path_entries() == old(self).full_path_entries(),
            final(self).constraint_seq() == old(self).constraint_seq(),
            final(self).public_slots() == old(self).public_slots(),
            final(self).private_slots() == old(self).private_slots(),
            Self::same_namespace(*old(self), *final(self)),
    {
        let ghost before = *old(self);
        let idx = self.current_namespace.idx();
        proof {
            if before.namespace_indices().len() > 0 {
                assert(before.namespace_indices()[before.namespace_indices().len() - 1] < before.objects().len());
            }
        }
        let obj = objects_index_mut(&mut self.named_objects, idx);
        match obj {
            NamedObject::Namespace(ns) => {
                ns.push(named_obj);
            },
            _ => {},
        }
        proof {
            let objs = self.objects();
            let nsegs = self.segments().len();
            assert(objs == before.objects().update(idx as int, (before.objects()[idx as int].0, objs[idx as int].1)));
            assert forall|i: int, j: int|
                0 <= i < objs.len() && 0 <= j < objs.len() && i != j implies #[trigger] objs[i].0
                    != #[trigger] objs[j].0 by {
                assert(before.objects()[i].0 == objs[i].0 && before.objects()[j].0 == objs[j].0);
            }
            assert forall|i: int| 0 <= i < objs.len() implies (#[trigger] objs[i]).0.1 < nsegs
                && (objs[i].0.0 == 0 || objs[i].0.0 < i) by {
                assert(before.objects()[i].0 == objs[i].0);
            }
            assert forall|i: int| 0 <= i < objs.len() implies ((#[trigger] objs[i]).1 matches NamedObject::Var(v)
                ==> var_in(v, self.public_slots().len(), self.private_slots().len())) by {
                if i != idx {
                    assert(before.objects()[i] == objs[i]);
                } else {
                    assert(before.objects()[i].1 is Var ==> before.objects()[i].1 == objs[i].1);
                }
            }
            assert forall|i: int| 0 <= i < before.objects().len() implies #[trigger] objs[i].0 == before.objects()[i].0 by {
            }
            lemma_naming_same_keys(
                before.objects(), objs, before.namespace_segments(), before.namespace_indices(),
                before.full_path_entries(), before.constraint_seq(), nsegs,
            );
            assert forall|k: (usize, usize)| #[trigger] self.has_key(k) == before.has_key(k) by {
                if self.has_key(k) {
                    let i = choose|i: int| 0 <= i < objs.len() && (#[trigger] objs[i]).0 == k;
                    assert(before.objects()[i].0 == objs[i].0);
                }
                if before.has_key(k) {
                    let i = choose|i: int| 0 <= i < before.objects().len() && (#[trigger] before.objects()[i]).0 == k;
                    assert(before.objects()[i].0 == objs[i].0);
                }
            }
        }
    }

    /// Interns `value`, giving its position among the interned fields.
    fn intern_value(&mut self, value: &Fr) -> (r: usize)
        requires
            old(self).wf(),
        ensures
            final(self).wf(),
            r < final(self).fields().len(),
            final(self).fields()[r as int] == value.spec_limbs(),
            limbs_value(final(self).fields()[r as int]) == value@,
            Self::fields_extend(*old(self), *final(self)),
            final(self).segments() == old(self).segments(),
            final(self).objects() == old(self).objects(),
            final(self).full_paths() == old(self).full_paths(),
            final(self).full_path_entries() == old(self).full_path_entries(),
            final(self).constraint_seq() == old(self).constraint_seq(),
            final(self).public_slots() == old(self).public_slots(),
            final(self).private_slots() == old(self).private_slots(),
            Self::same_namespace(*old(self), *final(self)),
    {
        let ghost mid = *old(self);
        let limbs = value.limbs();
        let (interned_field, _) = fields_insert_full(&mut self.interned_fields, limbs);
        proof {
            let fs = self.fields();
            let n = mid.fields().len() as int;
            assert forall|a: int, b: int| 0 <= a < fs.len() && 0 <= b < fs.len() && a != b implies fs[a] != fs[b] by {
                if a < n && b < n {
                    assert(mid.fields()[a] == fs[a] && mid.fields()[b] == fs[b]);
                } else if a < n {
                    assert(mid.fields()[a] == fs[a]);
                    assert(mid.fields().contains(fs[a]));
                } else if b < n {
                    assert(mid.fields()[b] == fs[b]);
                    assert(mid.fields().contains(fs[b]));
                }
            }
            assert forall|a: int| 0 <= a < fs.len() implies limbs_value(#[trigger] fs[a]) < modulus() by {
                if a < n {
                    assert(mid.fields()[a] == fs[a]);
                }
            }
            let nsegs = self.segments().len();
            let nobjs = self.objects().len();
            lemma_wf_grow(
                mid.objects(), mid.constraint_seq(), mid.full_path_entries(), mid.public_slots(),
                nsegs, nsegs, 0, 0, 0, 0, nobjs, nobjs, n as nat, fs.len(),
            );
            lemma_wf_grow(
                mid.objects(), mid.constraint_seq(), mid.full_path_entries(), mid.private_slots(),
                nsegs, nsegs, 0, 0, 0, 0, nobjs, nobjs, n as nat, fs.len(),
            );
        }
        interned_field
    }

    /// Adds a variable holding the interned value at `slot`: a public one when
    /// `public`, else a private one.
    fn push_variable(&mut self, public: bool, slot: usize) -> (r: Variable)
        requires
            old(self).wf(),
            slot < old(self).fields().len(),
        ensures
            final(self).wf(),
            public ==> r.spec_index() == Index::Public(old(self).public_slots().len() as usize)
                && final(self).public_slots() == old(self).public_slots().push(slot)
                && final(self).private_slots() == old(self).private_slots(),
            !public ==> r.spec_index() == Index::Private(old(self).private_slots().len() as usize)
                && final(self).private_slots() == old(self).private_slots().push(slot)
                && final(self).public_slots() == old(self).public_slots(),
            final(self).slot_of(r) == Some(slot),
            forall|w: Variable| old(self).has_var(w) ==> final(self).slot_of(w) == old(self).slot_of(w),
            final(self).fields() == old(self).fields(),
            final(self).segments() == old(self).segments(),
            final(self).objects() == old(self).objects(),
            final(self).full_paths() == old(self).full_paths(),
            final(self).full_path_entries() == old(self).full_path_entries(),
            final(self).constraint_seq() == old(self).constraint_seq(),
            Self::same_namespace(*old(self), *final(self)),
    {
        let ghost mid = *old(self);
        let r = if public {
            let index = self.public_variables.len();
            self.public_variables.push(slot);
            Variable::new_unchecked(Index::Public(index))
        } else {
            let index = self.private_variables.len();
            self.private_variables.push(slot);
            Variable::new_unchecked(Index::Private(index))
        };
        proof {
            assert forall|w: Variable| mid.has_var(w) implies self.slot_of(w) == mid.slot_of(w) by {
                match w.spec_index() {
                    Index::Public(i) => {
                        if public {
                            assert(self.public_slots()[i as int] == mid.public_slots()[i as int]);
                        }
                    },
                    Index::Private(i) => {
                        if !public {
                            assert(self.private_slots()[i as int] == mid.private_slots()[i as int]);
                        }
                    },
                }
            }
            let nf = self.fields().len();
            assert forall|k: int| 0 <= k < self.public_slots().len() implies #[trigger] self.public_slots()[k] < nf by {
                if k < mid.public_slots().len() {
                    assert(mid.public_slots()[k] < nf);
                }
            }
            assert forall|k: int| 0 <= k < self.private_slots().len() implies #[trigger] self.private_slots()[k] < nf by {
                if k < mid.private_slots().len() {
                    assert(mid.private_slots()[k] < nf);
                }
            }
            let nsegs = self.segments().len();
            let nobjs = self.objects().len();
            lemma_wf_grow(
                mid.objects(), mid.constraint_seq(), mid.full_path_entries(), mid.public_slots(),
                nsegs, nsegs, mid.public_slots().len(), self.public_slots().len(),
                mid.private_slots().len(), self.private_slots().len(), nobjs, nobjs, nf, nf,
            );
        }
        r
    }

    /// Interns the coefficients of `lc`.
    fn intern_fields(&mut self, lc: &LinearCombination) -> (r: Vec<(Variable, usize)>)
        requires
            old(self).wf(),
        ensures
            final(self).wf(),
            final(self).terms_match(r@, lc.0@),
            Self::fields_extend(*old(self), *final(self)),
            final(self).segments() == old(self).segments(),
            final(self).objects() == old(self).objects(),
            final(self).full_paths() == old(self).full_paths(),
            final(self).full_path_entries() == old(self).full_path_entries(),
            final(self).constraint_seq() == old(self).constraint_seq(),
            final(self).public_slots() == old(self).public_slots(),
            final(self).private_slots() == old(self).private_slots(),
            Self::same_namespace(*old(self), *final(self)),
    {
        let ghost before = *old(self);
        let mut r: Vec<(Variable, usize)> = Vec::new();
        let mut i: usize = 0;
        while i < lc.0.len()
            invariant
                i <= lc.0.len(),
                self.wf(),
                r.len() == i,
                forall|k: int| 0 <= k < i ==> (#[trigger] r@[k]).0 == lc.0@[k].0 && r@[k].1 < self.fields().len()
                    && self.fields()[r@[k].1 as int] == lc.0@[k].1.spec_limbs(),
                Self::fields_extend(before, *self),
                self.segments() == before.segments(),
                self.objects() == before.objects(),
                self.full_path_entries() == before.full_path_entries(),
                self.constraint_seq() == before.constraint_seq(),
                self.public_slots() == before.public_slots(),
                self.private_slots() == before.private_slots(),
                Self::same_namespace(before, *self),
            decreases lc.0.len() - i,
        {
            let (var, field) = lc.0[i];
            let ghost mid = *self;
            let interned_field = self.intern_value(&field);
            proof {
                assert forall|k: int| 0 <= k < i implies (#[trigger] r@[k]).0 == lc.0@[k].0 && r@[k].1 < self.fields().len()
                    && self.fields()[r@[k].1 as int] == lc.0@[k].1.spec_limbs() by {
                    assert(mid.fields()[r@[k].1 as int] == self.fields()[r@[k].1 as int]);
                }
            }
            r.push((var, interned_field));
            i = i + 1;
        }
        r
    }
}

impl TestConstraintSystem {
    /// `new` holds the objects of `old` with `obj` recorded as a child of the
    /// current namespace, and then `obj` itself under the path of a new object
    /// called `name`.
    pub open spec fn object_added(old: Self, new: Self, name: Seq<char>, obj: NamedObject) -> bool {
        &&& new.objects().len() == old.objects().len() + 1
        &&& new.objects().last() == (old.new_path(name), obj)
        &&& registered(old.objects(), new.objects().drop_last(), old.current_idx() as int, obj)
    }

    /// What allocating a variable called `name` with `value` (public when
    /// `public`) does: the name is interned; on `Ok` the value is interned and
    /// a new variable holding it is named in the current namespace.
    pub open spec fn alloc_post(
        old: Self,
        new: Self,
        public: bool,
        name: Seq<char>,
        value: Result<Fr, SynthesisError>,
        r: Result<Variable, SynthesisError>,
    ) -> bool {
        &&& new.wf()
        &&& Self::path_computed(old, new, name)
        &&& Self::same_namespace(old, new)
        &&& new.constraint_seq() == old.constraint_seq()
        &&& match value {
            Err(e) => {
                &&& r == Err::<Variable, SynthesisError>(e)
                &&& new.objects() == old.objects()
                &&& new.fields() == old.fields()
                &&& new.public_slots() == old.public_slots()
                &&& new.private_slots() == old.private_slots()
            },
            Ok(v) => {
                &&& r is Ok
                &&& public ==> r->Ok_0.spec_index() == Index::Public(old.public_slots().len() as usize)
                    && new.public_slots().drop_last() == old.public_slots()
                    && new.public_slots().len() == old.public_slots().len() + 1
                    && new.private_slots() == old.private_slots()
                &&& !public ==> r->Ok_0.spec_index() == Index::Private(old.private_slots().len() as usize)
                    && new.private_slots().drop_last() == old.private_slots()
                    && new.private_slots().len() == old.private_slots().len() + 1
                    && new.public_slots() == old.public_slots()
                &&& new.var_value(r->Ok_0) == v@
                &&& forall|w: Variable| old.has_var(w) ==> new.has_var(w) && #[trigger] new.var_value(w) == old.var_value(w)
                &&& Self::fields_extend(old, new)
                &&& Self::object_added(old, new, name, NamedObject::Var(r->Ok_0))
            },
        }
    }

    /// Allocates a variable (public when `public`) called `name` with `value`.
    fn alloc_variable(&mut self, public: bool, name: &str, value: Result<Fr, SynthesisError>) -> (r: Result<
        Variable,
        SynthesisError,
    >)
        requires
            old(self).wf(),
            old(self).name_ok(name@),
            value is Ok ==> old(self).path_free(name@),
        ensures
            Self::alloc_post(*old(self), *final(self), public, name@, value, r),
    {
        let ghost before = *old(self);
        let interned_path = self.compute_path(name);
        let v = match value {
            Ok(v) => v,
            Err(e) => {
                return Err(e);
            },
        };
        let ghost mid = *self;
        let interned_field = self.intern_value(&v);
        let ghost mid2 = *self;
        let var = self.push_variable(public, interned_field);
        let ghost mid3 = *self;
        self.register_object_in_namespace(NamedObject::Var(var));
        let ghost mid4 = *self;
        proof {
            assert(mid4.has_var(var));
            assert(!mid4.has_key(interned_path.spec_key()));
        }
        self.set_named_obj(interned_path, NamedObject::Var(var));
        proof {
            assert(self.objects().drop_last() =~= mid4.objects());
            if public {
                assert(self.public_slots().drop_last() =~= before.public_slots());
            } else {
                assert(self.private_slots().drop_last() =~= before.private_slots());
            }
            assert forall|w: Variable| before.has_var(w) implies self.has_var(w) && #[trigger] self.var_value(w) == before.var_value(w) by {
                assert(mid2.slot_of(w) == mid.slot_of(w));
                assert(mid2.fields()[mid.slot_of(w).unwrap() as int] == mid.fields()[mid.slot_of(w).unwrap() as int]);
            }
        }
        Ok(var)
    }

    /// Allocates a private variable called `name`, in the current namespace,
    /// with the value `value`; if `value` is an error, returns it (the name is
    /// interned either way).
    pub fn alloc_private(&mut self, name: &str, value: Result<Fr, SynthesisError>) -> (r: Result<
        Variable,
        SynthesisError,
    >)
        requires
            old(self).wf(),
            old(self).name_ok(name@),
            value is Ok ==> old(self).path_free(name@),
        ensures
            Self::alloc_post(*old(self), *final(self), false, name@, value, r),
    {
        self.alloc_variable(false, name, value)
    }

    /// Allocates a public (input) variable called `name`, in the current
    /// namespace, with the value `value`; if `value` is an error, returns it
    /// (the name is interned either way).
    pub fn alloc_input(&mut self, name: &str, value: Result<Fr, SynthesisError>) -> (r: Result<
        Variable,
        SynthesisError,
    >)
        requires
            old(self).wf(),
            old(self).name_ok(name@),
            value is Ok ==> old(self).path_free(name@),
        ensures
            Self::alloc_post(*old(self), *final(self), true, name@, value, r),
    {
        self.alloc_variable(true, name, value)
    }
}

/// A namespace that holds no objects yet and sits at position `idx`.
pub open spec fn fresh_namespace(o: NamedObject, idx: usize) -> bool {
    o matches NamedObject::Namespace(ns) && ns.spec_children().len() == 0 && ns.spec_idx() == idx
}

/// `new` is `old` with a fresh namespace recorded as a child of the namespace
/// at position `idx`, if the object there is a namespace.
pub open spec fn registered_fresh_namespace(
    old: Seq<((usize, usize), NamedObject)>,
    new: Seq<((usize, usize), NamedObject)>,
    idx: int,
) -> bool {
    &&& new.len() == old.len()
    &&& forall|i: int| 0 <= i < old.len() && i != idx ==> #[trigger] new[i] == old[i]
    &&& 0 <= idx < old.len() ==> new[idx].0 == old[idx].0
    &&& 0 <= idx < old.len() ==> match old[idx].1 {
        NamedObject::Namespace(ns) => new[idx].1 matches NamedObject::Namespace(ns2)
            && ns2.spec_children().len() == ns.spec_children().len() + 1
            && ns2.spec_children().drop_last() == ns.spec_children()
            && fresh_namespace(ns2.spec_children().last(), 0) && ns2.spec_idx() == ns.spec_idx(),
        _ => new[idx].1 == old[idx].1,
    }
}

impl TestConstraintSystem {
    /// What enforcing `a * b = c` under the name `name` does: the name is
    /// interned, the coefficients are interned, the constraint is named in the
    /// current namespace and recorded last.
    pub open spec fn enforce_post(
        old: Self,
        new: Self,
        name: Seq<char>,
        a: Seq<(Variable, Fr)>,
        b: Seq<(Variable, Fr)>,
        c: Seq<(Variable, Fr)>,
    ) -> bool {
        &&& new.wf()
        &&& Self::path_computed(old, new, name)
        &&& Self::same_namespace(old, new)
        &&& new.public_slots() == old.public_slots()
        &&& new.private_slots() == old.private_slots()
        &&& Self::fields_extend(old, new)
        &&& Self::object_added(old, new, name, NamedObject::Constraint(old.constraint_seq().len() as usize))
        &&& new.constraint_seq().len() == old.constraint_seq().len() + 1
        &&& new.constraint_seq().drop_last() == old.constraint_seq()
        &&& new.constraint_seq().last().spec_path() == InternedPath::spec_from_key(old.new_path(name))
        &&& new.terms_match(new.constraint_seq().last().spec_a(), a)
        &&& new.terms_match(new.constraint_seq().last().spec_b(), b)
        &&& new.terms_match(new.constraint_seq().last().spec_c(), c)
    }

    /// Records the constraint `a * b = c` under the name `name` in the current
    /// namespace.
    pub fn enforce(&mut self, name: &str, a: LinearCombination, b: LinearCombination, c: LinearCombination)
        requires
            old(self).wf(),
            old(self).name_ok(name@),
            old(self).path_free(name@),
        ensures
            Self::enforce_post(*old(self), *final(self), name@, a.0@, b.0@, c.0@),
    {
        let ghost before = *old(self);
        let interned_path = self.compute_path(name);
        let index = self.constraints.len();
        self.register_object_in_namespace(NamedObject::Constraint(index));
        let ghost mid = *self;
        self.set_named_obj(interned_path, NamedObject::Constraint(index));
        let ghost mid2 = *self;
        let a = self.intern_fields(&a);
        let ghost mid3 = *self;
        let b = self.intern_fields(&b);
        let ghost mid4 = *self;
        let c = self.intern_fields(&c);
        let ghost mid5 = *self;
        let constraint = TestConstraint { interned_path, a, b, c };
        let ghost cv = constraint;
        self.constraints.push(constraint);
        proof {
            lemma_naming_constraint_push(
                mid5.objects(), mid5.namespace_segments(), mid5.namespace_indices(),
                mid5.full_path_entries(), mid5.constraint_seq(), cv,
            );
            assert(self.constraint_seq() == mid5.constraint_seq().push(cv));
            assert(self.objects().drop_last() =~= mid.objects());
            assert(self.constraint_seq().drop_last() =~= before.constraint_seq());
            let nf = self.fields().len();
            // the terms interned first still match: fields only grow
            assert forall|k: int| 0 <= k < a@.len() implies self.fields()[(#[trigger] a@[k]).1 as int]
                == mid3.fields()[a@[k].1 as int] by {
                assert(mid4.fields()[a@[k].1 as int] == mid3.fields()[a@[k].1 as int]);
            }
            assert forall|k: int| 0 <= k < b@.len() implies self.fields()[(#[trigger] b@[k]).1 as int]
                == mid4.fields()[b@[k].1 as int] by {
            }
            assert forall|i: int| 0 <= i < before.fields().len() implies #[trigger] self.fields()[i] == before.fields()[i] by {
                assert(mid3.fields()[i] == before.fields()[i]);
                assert(mid4.fields()[i] == mid3.fields()[i]);
            }
            assert(terms_in(a@, nf));
            assert(terms_in(b@, nf));
            assert(terms_in(c@, nf));
            let cs = self.constraint_seq();
            assert forall|k: int| 0 <= k < cs.len() implies {
                let c = #[trigger] cs[k];
                &&& path_in(c.spec_path(), self.objects().len(), self.segments().len())
                &&& terms_in(c.spec_a(), nf)
                &&& terms_in(c.spec_b(), nf)
                &&& terms_in(c.spec_c(), nf)
            } by {
                if k < cs.len() - 1 {
                    assert(cs[k] == mid5.constraint_seq()[k]);
                }
            }
        }
    }

    /// What entering a new namespace called `name` does: the name is interned,
    /// a fresh namespace is named in the current one, and it becomes current.
    pub open spec fn push_namespace_post(old: Self, new: Self, name: Seq<char>) -> bool {
        &&& new.wf()
        &&& Self::path_computed(old, new, name)
        &&& new.fields() == old.fields()
        &&& new.public_slots() == old.public_slots()
        &&& new.private_slots() == old.private_slots()
        &&& new.constraint_seq() == old.constraint_seq()
        &&& new.lookup() == old.lookup()
        &&& new.objects().len() == old.objects().len() + 1
        &&& new.objects().last().0 == old.new_path(name)
        &&& fresh_namespace(new.objects().last().1, old.objects().len() as usize)
        &&& registered_fresh_namespace(old.objects(), new.objects().drop_last(), old.current_idx() as int)
        &&& new.namespace_segments() == old.namespace_segments().push(old.name_segment(name))
        &&& new.namespace_indices() == old.namespace_indices().push(old.objects().len() as usize)
    }

    /// Enters a new namespace called `name`, inside the current one.
    pub fn push_namespace(&mut self, name: &str)
        requires
            old(self).wf(),
            old(self).name_ok(name@),
            old(self).path_free(name@),
        ensures
            Self::push_namespace_post(*old(self), *final(self), name@),
    {
        let ghost before = *old(self);
        let interned_path = self.compute_path(name);
        let new_segment = interned_path.last_segment;
        let child = NamedObject::Namespace(Namespace::new());
        let ghost child_view = child;
        self.register_object_in_namespace(child);
        let ghost mid = *self;
        let namespace_idx = self.set_named_obj(interned_path, NamedObject::Namespace(Namespace::new()));
        let ghost mid2 = *self;
        let obj = objects_index_mut(&mut self.named_objects, namespace_idx);
        match obj {
            NamedObject::Namespace(ns) => {
                ns.idx = namespace_idx;
            },
            _ => {},
        }
        proof {
            let objs = self.objects();
            let n = mid2.objects().len();
            assert(objs == mid2.objects().update(namespace_idx as int, (mid2.objects()[namespace_idx as int].0, objs[namespace_idx as int].1)));
            assert forall|i: int, j: int|
                0 <= i < objs.len() && 0 <= j < objs.len() && i != j implies #[trigger] objs[i].0
                    != #[trigger] objs[j].0 by {
                assert(mid2.objects()[i].0 == objs[i].0 && mid2.objects()[j].0 == objs[j].0);
            }
            assert forall|i: int| 0 <= i < objs.len() implies (#[trigger] objs[i]).0.1 < self.segments().len()
                && (objs[i].0.0 == 0 || objs[i].0.0 < i) by {
                assert(mid2.objects()[i].0 == objs[i].0);
            }
            assert forall|i: int| 0 <= i < objs.len() implies ((#[trigger] objs[i]).1 matches NamedObject::Var(v)
                ==> var_in(v, self.public_slots().len(), self.private_slots().len())) by {
                if i != namespace_idx {
                    assert(mid2.objects()[i] == objs[i]);
                }
            }
            assert(objs.drop_last() =~= mid.objects());
            assert forall|i: int| 0 <= i < mid2.objects().len() implies #[trigger] objs[i].0 == mid2.objects()[i].0 by {
            }
            lemma_naming_same_keys(
                mid2.objects(), objs, mid2.namespace_segments(), mid2.namespace_indices(),
                mid2.full_path_entries(), mid2.constraint_seq(), self.segments().len(),
            );
        }
        let ghost mid3 = *self;
        self.current_namespace.push(new_segment, namespace_idx);
        proof {
            lemma_naming_namespace_push(
                mid3.objects(), mid3.namespace_segments(), mid3.namespace_indices(),
                mid3.full_path_entries(), mid3.constraint_seq(), new_segment, namespace_idx,
            );
            let nobjs = self.objects().len();
            let nsegs = self.segments().len();
            assert forall|k: int| 0 <= k < self.namespace_indices().len() implies #[trigger] self.namespace_indices()[k] < nobjs by {
                if k < before.namespace_indices().len() {
                    assert(self.namespace_indices()[k] == before.namespace_indices()[k]);
                    assert(before.namespace_indices()[k] < before.objects().len());
                }
            }
            assert forall|k: int| 0 <= k < self.namespace_segments().len() implies #[trigger] self.namespace_segments()[k] < nsegs by {
                if k < before.namespace_segments().len() {
                    assert(self.namespace_segments()[k] == before.namespace_segments()[k]);
                    assert(before.namespace_segments()[k] < before.segments().len());
                }
            }
            match before.objects()[before.current_idx() as int].1 {
                NamedObject::Namespace(ns) => {
                    assert(mid.objects()[before.current_idx() as int].1 matches NamedObject::Namespace(ns2)
                        && ns2.spec_children() == ns.spec_children().push(child_view));
                    if let NamedObject::Namespace(ns2) = mid.objects()[before.current_idx() as int].1 {
                        assert(ns2.spec_children().drop_last() =~= ns.spec_children());
                    }
                },
                _ => {},
            }
        }
    }

    /// Leaves the current namespace. What was created in it stays, under its
    /// full path, so that every variable and constraint can still be found.
    pub fn pop_namespace(&mut self)
        requires
            old(self).wf(),
            old(self).namespace_indices().len() > 0,
        ensures
            final(self).wf(),
            final(self).namespace_segments() == old(self).namespace_segments().drop_last(),
            final(self).namespace_indices() == old(self).namespace_indices().drop_last(),
            final(self).segments() == old(self).segments(),
            final(self).fields() == old(self).fields(),
            final(self).objects() == old(self).objects(),
            final(self).full_path_entries() == old(self).full_path_entries(),
            final(self).constraint_seq() == old(self).constraint_seq(),
            final(self).public_slots() == old(self).public_slots(),
            final(self).private_slots() == old(self).private_slots(),
            final(self).lookup() == old(self).lookup(),
    {
        self.current_namespace.pop();
        proof {
            lemma_naming_namespace_pop(
                old(self).objects(), old(self).namespace_segments(), old(self).namespace_indices(),
                old(self).full_path_entries(), old(self).constraint_seq(),
            );
            let nobjs = self.objects().len();
            let nsegs = self.segments().len();
            assert forall|k: int| 0 <= k < self.namespace_indices().len() implies #[trigger] self.namespace_indices()[k] < nobjs by {
                assert(self.namespace_indices()[k] == old(self).namespace_indices()[k]);
            }
            assert forall|k: int| 0 <= k < self.namespace_segments().len() implies #[trigger] self.namespace_segments()[k] < nsegs by {
                assert(self.namespace_segments()[k] == old(self).namespace_segments()[k]);
            }
        }
    }

    /// The root system, which for a test system is the system itself.
    pub fn get_root(&mut self) -> (r: &mut Self)
        ensures
            *r == *old(self),
            *final(self) == *final(r),
    {
        self
    }
}

/// The pieces of `s` between the `/` separators: one more than there are
/// separators, empty pieces included.
pub open spec fn split_path(s: Seq<char>) -> Seq<Seq<char>>
    decreases s.len(),
{
    if s.len() == 0 {
        seq![Seq::<char>::empty()]
    } else {
        let init = split_path(s.drop_last());
        if s.last() == '/' {
            init.push(Seq::<char>::empty())
        } else {
            init.update(init.len() - 1, init.last().push(s.last()))
        }
    }
}

/// The interned segments of `names`, each looked up among `segs`.
pub open spec fn interned_names(segs: Seq<Seq<char>>, names: Seq<Seq<char>>) -> Seq<usize>
    decreases names.len(),
{
    if names.len() == 0 {
        Seq::empty()
    } else {
        interned_names(segs, names.drop_last()).push(segs.index_of(names.last()) as usize)
    }
}

/// Splitting never gives an empty list.
proof fn lemma_split_nonempty(s: Seq<char>)
    ensures
        split_path(s).len() >= 1,
    decreases s.len(),
{
    if s.len() > 0 {
        lemma_split_nonempty(s.drop_last());
    }
}

/// Appending characters keeps the pieces that were complete.
proof fn lemma_split_prefix(s: Seq<char>, i: int, j: int)
    requires
        0 <= i <= j <= s.len(),
    ensures
        split_path(s.take(i)).len() <= split_path(s.take(j)).len(),
        split_path(s.take(j)).take(split_path(s.take(i)).len() - 1) == split_path(s.take(i)).drop_last(),
    decreases j - i,
{
    lemma_split_nonempty(s.take(i));
    if i < j {
        lemma_split_prefix(s, i, j - 1);
        lemma_split_nonempty(s.take(j - 1));
        assert(s.take(j).drop_last() =~= s.take(j - 1));
        let a = split_path(s.take(i));
        let b = split_path(s.take(j - 1));
        let c = split_path(s.take(j));
        assert(c.take(a.len() - 1) =~= b.take(a.len() - 1));
    } else {
        let a = split_path(s.take(i));
        assert(a.take(a.len() - 1) =~= a.drop_last());
    }
}

/// Interning a list with one more name interns that name last.
proof fn lemma_interned_names_push(segs: Seq<Seq<char>>, names: Seq<Seq<char>>, n: Seq<char>)
    ensures
        interned_names(segs, names.push(n)) == interned_names(segs, names).push(segs.index_of(n) as usize),
{
    assert(names.push(n).drop_last() =~= names);
}

/// With distinct keys, each recorded pair is what the map gives for its key.
proof fn lemma_full_path_map_get(entries: Seq<(Vec<usize>, InternedPath)>, i: int)
    requires
        0 <= i < entries.len(),
        forall|j: int, k: int|
            0 <= j < entries.len() && 0 <= k < entries.len() && j != k ==> (#[trigger] entries[j]).0@
                != (#[trigger] entries[k]).0@,
    ensures
        full_path_map(entries).contains_key(entries[i].0@),
        full_path_map(entries)[entries[i].0@] == entries[i].1,
    decreases entries.len(),
{
    if i < entries.len() - 1 {
        let rest = entries.drop_last();
        assert forall|j: int, k: int|
            0 <= j < rest.len() && 0 <= k < rest.len() && j != k implies (#[trigger] rest[j]).0@
                != (#[trigger] rest[k]).0@ by {
            assert(rest[j] == entries[j] && rest[k] == entries[k]);
        }
        lemma_full_path_map_get(rest, i);
        assert(rest[i] == entries[i]);
        assert(entries.last().0@ != entries[i].0@);
    }
}

/// With distinct keys, the object with a key is the one at its position.
pub proof fn lemma_object_with_key(objs: Seq<((usize, usize), NamedObject)>, i: int)
    requires
        0 <= i < objs.len(),
        forall|a: int, b: int|
            0 <= a < objs.len() && 0 <= b < objs.len() && a != b ==> #[trigger] objs[a].0
                != #[trigger] objs[b].0,
    ensures
        object_with_key(objs, objs[i].0) == Some(objs[i].1),
{
    assert(objs[i].0 == objs[i].0);
}

impl TestConstraintSystem {
    /// Every piece of `path` is an interned segment, and the pieces form a
    /// recorded full path.
    pub open spec fn path_resolves(self, path: Seq<char>) -> bool {
        let names = split_path(path);
        &&& forall|k: int| 0 <= k < names.len() ==> self.segments().contains(#[trigger] names[k])
        &&& self.full_paths().contains_key(interned_names(self.segments(), names))
    }

    /// The interned path that `path` names, if it names one.
    pub open spec fn resolve(self, path: Seq<char>) -> Option<InternedPath> {
        if self.path_resolves(path) {
            Some(self.full_paths()[interned_names(self.segments(), split_path(path))])
        } else {
            None
        }
    }

    /// The variable that `path` names, if it names one.
    pub open spec fn var_at(self, path: Seq<char>) -> Option<Variable> {
        match self.resolve(path) {
            Some(ip) => match object_with_key(self.objects(), ip.spec_key()) {
                Some(NamedObject::Var(v)) => Some(v),
                _ => None,
            },
            None => None,
        }
    }

    /// The interned path that the full path `path` names, if it names one.
    pub fn resolve_path(&self, path: &str) -> (r: Option<InternedPath>)
        requires
            self.wf(),
        ensures
            r == self.resolve(path@),
    {
        let n = path.unicode_len();
        let mut vec: Vec<usize> = Vec::new();
        let mut start: usize = 0;
        let mut i: usize = 0;
        let ghost full = split_path(path@);
        let ghost mut pieces: Seq<Seq<char>> = Seq::empty();
        proof {
            assert(path@.take(0) =~= Seq::<char>::empty());
            assert(path@.subrange(0, 0) =~= Seq::<char>::empty());
            assert(pieces.push(path@.subrange(0, 0)) =~= seq![Seq::<char>::empty()]);
            lemma_split_nonempty(path@);
            assert(full.take(0) =~= pieces);
        }
        while i < n
            invariant
                n == path@.len(),
                start <= i <= n,
                self.wf(),
                full == split_path(path@),
                split_path(path@.take(i as int)) == pieces.push(path@.subrange(start as int, i as int)),
                pieces.len() < full.len(),
                pieces == full.take(pieces.len() as int),
                forall|k: int| 0 <= k < pieces.len() ==> self.segments().contains(#[trigger] pieces[k]),
                vec@ == interned_names(self.segments(), pieces),
            decreases n - i,
        {
            let c = path.get_char(i);
            proof {
                assert(path@.take(i + 1).drop_last() =~= path@.take(i as int));
                assert(path@.take(i + 1).last() == c);
            }
            if c == '/' {
                let piece = path.substring_char(start, i);
                proof {
                    lemma_split_prefix(path@, i + 1, n as int);
                    assert(path@.take(n as int) =~= path@);
                    let sp = split_path(path@.take(i + 1));
                    assert(sp == pieces.push(piece@).push(Seq::<char>::empty()));
                    assert(full.take(sp.len() - 1) == sp.drop_last());
                    assert(sp.drop_last()[pieces.len() as int] == piece@);
                    assert(full[pieces.len() as int] == piece@);
                    assert(full.take(pieces.len() as int + 1) =~= pieces.push(piece@));
                }
                let idx = match segments_get_index_of(&self.interned_path_segments, piece) {
                    Some(idx) => idx,
                    None => {
                        proof {
                            assert(!self.segments().contains(full[pieces.len() as int]));
                        }
                        return None;
                    },
                };
                proof {
                    assert(self.segments()[self.segments().index_of(piece@)] == piece@);
                    assert(idx as int == self.segments().index_of(piece@));
                    lemma_interned_names_push(self.segments(), pieces, piece@);
                    pieces = pieces.push(piece@);
                    assert(path@.subrange((i + 1) as int, (i + 1) as int) =~= Seq::<char>::empty());
                }
                vec.push(idx);
                start = i + 1;
            } else {
                proof {
                    assert(path@.subrange(start as int, (i + 1) as int) =~= path@.subrange(start as int, i as int).push(c));
                    assert(split_path(path@.take(i + 1)) =~= pieces.push(path@.subrange(start as int, (i + 1) as int)));
                }
            }
            i = i + 1;
        }
        let piece = path.substring_char(start, n);
        proof {
            assert(path@.take(n as int) =~= path@);
            assert(full == pieces.push(piece@));
            assert(full[pieces.len() as int] == piece@);
        }
        let idx = match segments_get_index_of(&self.interned_path_segments, piece) {
            Some(idx) => idx,
            None => {
                proof {
                    assert(!self.segments().contains(full[pieces.len() as int]));
                }
                return None;
            },
        };
        proof {
            assert(self.segments()[self.segments().index_of(piece@)] == piece@);
            assert(idx as int == self.segments().index_of(piece@));
            lemma_interned_names_push(self.segments(), pieces, piece@);
            assert forall|k: int| 0 <= k < full.len() implies self.segments().contains(#[trigger] full[k]) by {
                if k < pieces.len() {
                    assert(full[k] == pieces[k]);
                }
            }
        }
        vec.push(idx);
        proof {
            assert(vec@ == interned_names(self.segments(), full));
            lemma_full_path_map_dom(self.full_path_entries(), vec@);
        }
        let mut k: usize = 0;
        while k < self.interned_full_paths.len()
            invariant
                self.wf(),
                forall|j: int| 0 <= j < full.len() ==> self.segments().contains(#[trigger] full[j]),
                full == split_path(path@),
                vec@ == interned_names(self.segments(), full),
                k <= self.interned_full_paths.len(),
                forall|j: int| 0 <= j < k ==> (#[trigger] self.full_path_entries()[j]).0@ != vec@,
            decreases self.interned_full_paths.len() - k,
        {
            if indices_eq(&self.interned_full_paths[k].0, &vec) {
                proof {
                    lemma_full_path_map_get(self.full_path_entries(), k as int);
                }
                return Some(self.interned_full_paths[k].1);
            }
            k = k + 1;
        }
        proof {
            lemma_full_path_map_dom(self.full_path_entries(), vec@);
        }
        None
    }

    /// The interned path that the full path `path` names.
    fn intern_path(&self, path: &str) -> (r: InternedPath)
        requires
            self.wf(),
            self.path_resolves(path@),
        ensures
            self.resolve(path@) == Some(r),
    {
        self.resolve_path(path).unwrap()
    }

    /// The variable that the full path `path` names, if it names one.
    pub fn variable_at(&self, path: &str) -> (r: Option<Variable>)
        requires
            self.wf(),
        ensures
            r == self.var_at(path@),
    {
        match self.resolve_path(path) {
            Some(interned_path) => match objects_get(&self.named_objects, &interned_path.key()) {
                Some(NamedObject::Var(v)) => {
                    proof {
                        let i = choose|i: int| 0 <= i < self.objects().len() && self.objects()[i] == (interned_path.spec_key(), NamedObject::Var(*v));
                        self.lemma_var_at(path@, interned_path, i);
                    }
                    Some(*v)
                },
                Some(other) => {
                    proof {
                        let i = choose|i: int| 0 <= i < self.objects().len() && self.objects()[i] == (interned_path.spec_key(), *other);
                        self.lemma_var_at(path@, interned_path, i);
                    }
                    None
                },
                None => {
                    proof {
                        assert(object_with_key(self.objects(), interned_path.spec_key()) is None);
                    }
                    None
                },
            },
            None => None,
        }
    }
}

impl TestConstraintSystem {
    /// The position of the value of a variable the system has: public or
    /// private, and where among those.
    pub open spec fn slot_updated(old: Self, new: Self, v: Variable, slot: usize) -> bool {
        match v.spec_index() {
            Index::Public(i) => new.public_slots() == old.public_slots().update(i as int, slot)
                && new.private_slots() == old.private_slots(),
            Index::Private(i) => new.private_slots() == old.private_slots().update(i as int, slot)
                && new.public_slots() == old.public_slots(),
        }
    }

    /// What setting the variable at `path` to `to` does: the value is
    /// interned, and the variable, and only it, now holds it.
    pub open spec fn set_post(old: Self, new: Self, path: Seq<char>, to: Fr) -> bool {
        let v = old.var_at(path).unwrap();
        &&& new.wf()
        &&& new.var_at(path) == old.var_at(path)
        &&& new.var_value(v) == to@
        &&& forall|w: Variable|
            old.has_var(w) && w != v ==> new.has_var(w) && #[trigger] new.var_value(w) == old.var_value(w)
        &&& Self::fields_extend(old, new)
        &&& new.slot_of(v) is Some && Self::slot_updated(old, new, v, new.slot_of(v).unwrap())
        &&& new.segments() == old.segments()
        &&& new.objects() == old.objects()
        &&& new.full_path_entries() == old.full_path_entries()
        &&& new.constraint_seq() == old.constraint_seq()
        &&& Self::same_namespace(old, new)
    }

    /// The variable that `path` names is the object with the key it resolves to.
    proof fn lemma_var_at(self, path: Seq<char>, ip: InternedPath, i: int)
        requires
            self.wf(),
            self.resolve(path) == Some(ip),
            0 <= i < self.objects().len(),
            self.objects()[i].0 == ip.spec_key(),
        ensures
            self.var_at(path) == (match self.objects()[i].1 {
                NamedObject::Var(v) => Some(v),
                _ => None,
            }),
    {
        lemma_object_with_key(self.objects(), i);
    }

    /// Sets the variable at the full path `path` to `to`.
    pub fn set(&mut self, path: &str, to: Fr)
        requires
            old(self).wf(),
            old(self).var_at(path@) is Some,
        ensures
            Self::set_post(*old(self), *final(self), path@, to),
    {
        let ghost before = *old(self);
        let interned_path = self.intern_path(path);
        let interned_field = self.intern_value(&to);
        let ghost mid = *self;
        let ghost v0 = before.var_at(path@).unwrap();
        let var = match objects_get(&self.named_objects, &interned_path.key()) {
            Some(NamedObject::Var(v)) => *v,
            _ => {
                proof {
                    assert(false);
                }
                return;
            },
        };
        proof {
            let i = choose|i: int| 0 <= i < mid.objects().len() && mid.objects()[i] == (interned_path.spec_key(), NamedObject::Var(var));
            mid.lemma_var_at(path@, interned_path, i);
            assert(var == v0);
        }
        match var.get_unchecked() {
            Index::Public(index) => {
                self.public_variables.set(index, interned_field);
            },
            Index::Private(index) => {
                self.private_variables.set(index, interned_field);
            },
        }
        proof {
            assert forall|w: Variable| before.has_var(w) && w != v0 implies self.has_var(w) && #[trigger] self.var_value(w) == before.var_value(w) by {
                Variable::lemma_spec_new(w.spec_index());
                Variable::lemma_spec_new(v0.spec_index());
                assert(w.spec_index() != v0.spec_index());
                assert(self.slot_of(w) == before.slot_of(w));
                assert(mid.fields()[before.slot_of(w).unwrap() as int] == before.fields()[before.slot_of(w).unwrap() as int]);
            }
            let nf = self.fields().len();
            assert forall|k: int| 0 <= k < self.public_slots().len() implies #[trigger] self.public_slots()[k] < nf by {
                assert(mid.public_slots()[k] < nf);
            }
            assert forall|k: int| 0 <= k < self.private_slots().len() implies #[trigger] self.private_slots()[k] < nf by {
                assert(mid.private_slots()[k] < nf);
            }
            let i = choose|i: int| 0 <= i < mid.objects().len() && mid.objects()[i] == (interned_path.spec_key(), NamedObject::Var(var));
            self.lemma_var_at(path@, interned_path, i);
        }
    }

    /// The value of the variable at the full path `path`.
    pub fn get(&mut self, path: &str) -> (r: Fr)
        requires
            old(self).wf(),
            old(self).var_at(path@) is Some,
        ensures
            *final(self) == *old(self),
            r@ == old(self).var_value(old(self).var_at(path@).unwrap()),
    {
        let interned_path = self.intern_path(path);
        let ghost v0 = self.var_at(path@).unwrap();
        let var = match objects_get(&self.named_objects, &interned_path.key()) {
            Some(NamedObject::Var(v)) => *v,
            _ => {
                proof {
                    assert(false);
                }
                return Fr::zero();
            },
        };
        proof {
            let i = choose|i: int| 0 <= i < self.objects().len() && self.objects()[i] == (interned_path.spec_key(), NamedObject::Var(var));
            self.lemma_var_at(path@, interned_path, i);
            assert(var == v0);
            assert(var_in(var, self.public_slots().len(), self.private_slots().len()));
        }
        let interned_field = match var.get_unchecked() {
            Index::Public(index) => self.public_variables[index],
            Index::Private(index) => self.private_variables[index],
        };
        let limbs = *fields_get_index(&self.interned_fields, interned_field).unwrap();
        Fr::from_limbs(limbs).unwrap()
    }
}

/// The names of the namespaces from the root to the namespace at position `p`,
/// each followed by `/`.
pub open spec fn namespace_prefix(
    objs: Seq<((usize, usize), NamedObject)>,
    segs: Seq<Seq<char>>,
    p: usize,
) -> Seq<char>
    decreases p,
{
    if p == 0 || p >= objs.len() || objs[p as int].0.0 >= p {
        Seq::empty()
    } else {
        namespace_prefix(objs, segs, objs[p as int].0.0) + segs[objs[p as int].0.1 as int] + seq!['/']
    }
}

/// The names in `names`, last first, each followed by `/`.
pub open spec fn joined_reversed(names: Seq<Seq<char>>) -> Seq<char>
    decreases names.len(),
{
    if names.len() == 0 {
        Seq::empty()
    } else {
        names.last() + seq!['/'] + joined_reversed(names.drop_last())
    }
}

impl TestConstraintSystem {
    /// The full path an interned path stands for: the namespaces it is in and
    /// its last segment, separated by `/`.
    pub open spec fn path_string(self, ip: InternedPath) -> Seq<char> {
        namespace_prefix(self.objects(), self.segments(), ip.spec_parent()) + self.segments()[ip.spec_last() as int]
    }

    /// The full path that `interned_path` stands for.
    fn unintern_path(&self, interned_path: InternedPath) -> (r: String)
        requires
            self.wf(),
            self.path_ok(interned_path),
        ensures
            r@ == self.path_string(interned_path),
    {
        let last_segment = segments_get_index(&self.interned_path_segments, interned_path.last_segment).unwrap();
        let mut reversed: Vec<String> = Vec::new();
        let ghost mut names: Seq<Seq<char>> = Seq::empty();
        let mut parent_ns = interned_path.parent_namespace;
        let ghost objs = self.objects();
        let ghost segs = self.segments();
        while parent_ns != 0
            invariant
                self.wf(),
                objs == self.objects(),
                segs == self.segments(),
                parent_ns < objs.len(),
                reversed@.len() == names.len(),
                forall|k: int| 0 <= k < names.len() ==> (#[trigger] reversed@[k])@ == names[k],
                namespace_prefix(objs, segs, interned_path.spec_parent()) == namespace_prefix(objs, segs, parent_ns)
                    + joined_reversed(names),
            decreases parent_ns,
        {
            let (key, _) = objects_get_index(&self.named_objects, parent_ns).unwrap();
            let key = *key;
            proof {
                assert(objs[parent_ns as int].0 == key);
                assert(key.1 < segs.len() && (key.0 == 0 || key.0 < parent_ns));
            }
            let parent_segment = segments_get_index(&self.interned_path_segments, key.1).unwrap();
            let ghost name = parent_segment@;
            reversed.push(parent_segment.clone());
            proof {
                let old_names = names;
                names = names.push(name);
                assert(names.drop_last() =~= old_names);
                assert(joined_reversed(names) == name + seq!['/'] + joined_reversed(old_names));
                assert(namespace_prefix(objs, segs, parent_ns) == namespace_prefix(objs, segs, key.0) + name + seq!['/']);
                assert(namespace_prefix(objs, segs, key.0) + joined_reversed(names) =~= namespace_prefix(objs, segs, key.0) + name + seq!['/'] + joined_reversed(old_names));
            }
            parent_ns = key.0;
        }
        let mut out = String::new();
        let slash = "/";
        proof {
            reveal_strlit("/");
            assert(slash@ =~= seq!['/']);
            assert(names.take(names.len() as int) =~= names);
        }
        let mut k = reversed.len();
        while k > 0
            invariant
                k <= reversed@.len(),
                reversed@.len() == names.len(),
                forall|j: int| 0 <= j < names.len() ==> (#[trigger] reversed@[j])@ == names[j],
                slash@ == seq!['/'],
                joined_reversed(names) == out@ + joined_reversed(names.take(k as int)),
            decreases k,
        {
            k = k - 1;
            let ghost before = out@;
            out.append(reversed[k].as_str());
            out.append(slash);
            proof {
                assert(names.take(k + 1).drop_last() =~= names.take(k as int));
                assert(names.take(k + 1).last() == names[k as int]);
                assert(joined_reversed(names.take(k + 1)) == names[k as int] + seq!['/'] + joined_reversed(names.take(k as int)));
                assert(out@ =~= before + names[k as int] + seq!['/']);
                assert(before + joined_reversed(names.take(k + 1)) =~= out@ + joined_reversed(names.take(k as int)));
            }
        }
        out.append(last_segment.as_str());
        proof {
            assert(names.take(0) =~= Seq::<Seq<char>>::empty());
            assert(namespace_prefix(objs, segs, 0) == Seq::<char>::empty());
            assert(namespace_prefix(objs, segs, interned_path.spec_parent()) =~= joined_reversed(names));
        }
        out
    }

    /// The full path of the constraint at position `i`.
    pub fn get_constraint_path(&self, i: usize) -> (r: String)
        requires
            self.wf(),
            i < self.constraint_seq().len(),
        ensures
            r@ == self.path_string(self.constraint_seq()[i as int].spec_path()),
    {
        proof {
            assert(path_in(self.constraint_seq()[i as int].spec_path(), self.objects().len(), self.segments().len()));
        }
        self.unintern_path(self.constraints[i].interned_path)
    }

    /// The full paths of all constraints, in the order they were recorded.
    pub fn constraint_paths(&self) -> (r: Vec<String>)
        requires
            self.wf(),
        ensures
            r@.len() == self.constraint_seq().len(),
            forall|i: int| 0 <= i < r@.len() ==> (#[trigger] r@[i])@ == self.path_string(self.constraint_seq()[i].spec_path()),
    {
        let mut r: Vec<String> = Vec::new();
        let mut i: usize = 0;
        while i < self.constraints.len()
            invariant
                self.wf(),
                i <= self.constraint_seq().len(),
                r@.len() == i,
                forall|j: int| 0 <= j < i ==> (#[trigger] r@[j])@ == self.path_string(self.constraint_seq()[j].spec_path()),
            decreases self.constraint_seq().len() - i,
        {
            r.push(self.get_constraint_path(i));
            i = i + 1;
        }
        r
    }
}

/// The number of terms on one side of a constraint: `a` for 0, `b` for 1, `c` otherwise.
pub open spec fn side_len(c: TestConstraint, side: int) -> nat {
    if side == 0 {
        c.spec_a().len()
    } else if side == 1 {
        c.spec_b().len()
    } else {
        c.spec_c().len()
    }
}

/// The number of terms on one side, summed over the constraints.
pub open spec fn total_terms(cs: Seq<TestConstraint>, side: int) -> nat
    decreases cs.len(),
{
    if cs.len() == 0 {
        0
    } else {
        total_terms(cs.drop_last(), side) + side_len(cs.last(), side)
    }
}

impl TestConstraintSystem {
    /// The value of a list of (variable, interned coefficient) terms: the sum
    /// of the products, in the field.
    pub open spec fn eval_terms(self, t: Seq<(Variable, usize)>) -> nat
        decreases t.len(),
    {
        if t.len() == 0 {
            0
        } else {
            (self.eval_terms(t.drop_last()) + (self.var_value(t.last().0) * limbs_value(
                self.fields()[t.last().1 as int],
            )) % modulus()) % modulus()
        }
    }

    /// The value of a linear combination: the sum of the products, in the field.
    pub open spec fn lc_eval(self, lc: Seq<(Variable, Fr)>) -> nat
        decreases lc.len(),
    {
        if lc.len() == 0 {
            0
        } else {
            (self.lc_eval(lc.drop_last()) + (self.var_value(lc.last().0) * lc.last().1@) % modulus())
                % modulus()
        }
    }

    /// Whether `a * b = c` holds of a constraint.
    pub open spec fn constraint_satisfied(self, c: TestConstraint) -> bool {
        (self.eval_terms(c.spec_a()) * self.eval_terms(c.spec_b())) % modulus() == self.eval_terms(c.spec_c())
    }

    /// Whether every constraint holds.
    pub open spec fn all_satisfied(self) -> bool {
        forall|k: int| 0 <= k < self.constraint_seq().len() ==> self.constraint_satisfied(#[trigger] self.constraint_seq()[k])
    }

    /// Every variable in the constraints is one the system has.
    pub open spec fn constraint_vars_ok(self) -> bool {
        forall|k: int|
            0 <= k < self.constraint_seq().len() ==> {
                let c = #[trigger] self.constraint_seq()[k];
                &&& self.terms_vars_ok(c.spec_a())
                &&& self.terms_vars_ok(c.spec_b())
                &&& self.terms_vars_ok(c.spec_c())
            }
    }

    /// The value of the variable the system has.
    fn var_fr(&self, var: Variable) -> (r: Fr)
        requires
            self.wf(),
            self.has_var(var),
        ensures
            r@ == self.var_value(var),
    {
        let interned = match var.get_unchecked() {
            Index::Public(index) => self.public_variables[index],
            Index::Private(index) => self.private_variables[index],
        };
        let limbs = *fields_get_index(&self.interned_fields, interned).unwrap();
        Fr::from_limbs(limbs).unwrap()
    }

    /// Evaluates interned terms.
    fn eval_lc(&self, terms: &Vec<(Variable, usize)>) -> (r: Fr)
        requires
            self.wf(),
            terms_in(terms@, self.fields().len()),
            self.terms_vars_ok(terms@),
        ensures
            r@ == self.eval_terms(terms@),
    {
        let mut acc = Fr::zero();
        let mut i: usize = 0;
        proof {
            assert(terms@.take(0) =~= Seq::<(Variable, usize)>::empty());
        }
        while i < terms.len()
            invariant
                self.wf(),
                i <= terms@.len(),
                terms_in(terms@, self.fields().len()),
                self.terms_vars_ok(terms@),
                acc@ == self.eval_terms(terms@.take(i as int)),
            decreases terms@.len() - i,
        {
            let (var, interned_coeff) = terms[i];
            proof {
                assert(self.has_var(terms@[i as int].0));
                assert(terms@[i as int].1 < self.fields().len());
            }
            let mut tmp = self.var_fr(var);
            let coeff = Fr::from_limbs(*fields_get_index(&self.interned_fields, interned_coeff).unwrap()).unwrap();
            tmp.mul_assign(&coeff);
            acc.add_assign(&tmp);
            proof {
                assert(terms@.take(i + 1).drop_last() =~= terms@.take(i as int));
                assert(terms@.take(i + 1).last() == terms@[i as int]);
            }
            i = i + 1;
        }
        proof {
            assert(terms@.take(terms@.len() as int) =~= terms@);
        }
        acc
    }

    /// Whether a constraint holds, decided in the field.
    fn check_constraint(&self, i: usize) -> (r: bool)
        requires
            self.wf(),
            self.constraint_vars_ok(),
            i < self.constraint_seq().len(),
        ensures
            r == self.constraint_satisfied(self.constraint_seq()[i as int]),
    {
        let ghost c = self.constraint_seq()[i as int];
        proof {
            assert(terms_in(c.spec_a(), self.fields().len()) && terms_in(c.spec_b(), self.fields().len())
                && terms_in(c.spec_c(), self.fields().len()));
            assert(self.terms_vars_ok(c.spec_a()) && self.terms_vars_ok(c.spec_b()) && self.terms_vars_ok(c.spec_c()));
        }
        let constraint = &self.constraints[i];
        let mut a = self.eval_lc(&constraint.a);
        let b = self.eval_lc(&constraint.b);
        let c_val = self.eval_lc(&constraint.c);
        a.mul_assign(&b);
        proof {
            crate::field::lemma_fr_eq_iff_value_eq(a, c_val);
        }
        a == c_val
    }

    /// The full path of the first constraint `a * b = c` that does not hold, if any.
    pub fn which_is_unsatisfied(&self) -> (r: Option<String>)
        requires
            self.wf(),
            self.constraint_vars_ok(),
        ensures
            match r {
                None => self.all_satisfied(),
                Some(path) => exists|i: int|
                    0 <= i < self.constraint_seq().len() && !self.constraint_satisfied(
                        #[trigger] self.constraint_seq()[i],
                    ) && (forall|j: int| 0 <= j < i ==> self.constraint_satisfied(#[trigger] self.constraint_seq()[j]))
                        && path@ == self.path_string(self.constraint_seq()[i].spec_path()),
            },
    {
        let mut i: usize = 0;
        while i < self.constraints.len()
            invariant
                self.wf(),
                self.constraint_vars_ok(),
                i <= self.constraint_seq().len(),
                forall|j: int| 0 <= j < i ==> self.constraint_satisfied(#[trigger] self.constraint_seq()[j]),
            decreases self.constraint_seq().len() - i,
        {
            if !self.check_constraint(i) {
                return Some(self.get_constraint_path(i));
            }
            i = i + 1;
        }
        None
    }

    /// Whether every constraint holds.
    pub fn is_satisfied(&self) -> (r: bool)
        requires
            self.wf(),
            self.constraint_vars_ok(),
        ensures
            r == self.all_satisfied(),
    {
        self.which_is_unsatisfied().is_none()
    }

    /// The numbers of terms in the `a`, `b` and `c` sides of all constraints.
    pub fn num_non_zero(&self) -> (r: (usize, usize, usize))
        requires
            total_terms(self.constraint_seq(), 0) <= usize::MAX,
            total_terms(self.constraint_seq(), 1) <= usize::MAX,
            total_terms(self.constraint_seq(), 2) <= usize::MAX,
        ensures
            r.0 == total_terms(self.constraint_seq(), 0),
            r.1 == total_terms(self.constraint_seq(), 1),
            r.2 == total_terms(self.constraint_seq(), 2),
    {
        let mut non_zero_a: usize = 0;
        let mut non_zero_b: usize = 0;
        let mut non_zero_c: usize = 0;
        let mut i: usize = 0;
        proof {
            assert(self.constraint_seq().take(0) =~= Seq::<TestConstraint>::empty());
        }
        while i < self.constraints.len()
            invariant
                i <= self.constraint_seq().len(),
                non_zero_a == total_terms(self.constraint_seq().take(i as int), 0),
                non_zero_b == total_terms(self.constraint_seq().take(i as int), 1),
                non_zero_c == total_terms(self.constraint_seq().take(i as int), 2),
                total_terms(self.constraint_seq(), 0) <= usize::MAX,
                total_terms(self.constraint_seq(), 1) <= usize::MAX,
                total_terms(self.constraint_seq(), 2) <= usize::MAX,
            decreases self.constraint_seq().len() - i,
        {
            let c = &self.constraints[i];
            proof {
                let cs = self.constraint_seq();
                assert(cs.take(i + 1).drop_last() =~= cs.take(i as int));
                assert(cs.take(i + 1).last() == cs[i as int]);
                lemma_total_terms_prefix(cs, i + 1, 0);
                lemma_total_terms_prefix(cs, i + 1, 1);
                lemma_total_terms_prefix(cs, i + 1, 2);
            }
            non_zero_a = non_zero_a + c.a.len();
            non_zero_b = non_zero_b + c.b.len();
            non_zero_c = non_zero_c + c.c.len();
            i = i + 1;
        }
        proof {
            assert(self.constraint_seq().take(i as int) =~= self.constraint_seq());
        }
        (non_zero_a, non_zero_b, non_zero_c)
    }
}

/// A prefix has no more terms than the whole.
proof fn lemma_total_terms_prefix(cs: Seq<TestConstraint>, n: int, side: int)
    requires
        0 <= n <= cs.len(),
    ensures
        total_terms(cs.take(n), side) <= total_terms(cs, side),
    decreases cs.len(),
{
    if n < cs.len() {
        lemma_total_terms_prefix(cs.drop_last(), n, side);
        assert(cs.drop_last().take(n) =~= cs.take(n));
    } else {
        assert(cs.take(n) =~= cs);
    }
}

/// The side of a constraint: `a`, `b` or `c` of `a * b = c`.
#[derive(Clone, Copy, Debug, PartialEq, Eq, Structural)]
pub enum ConstraintSide {
    A,
    B,
    C,
}

/// Where two systems first differ: the position of the constraint, the side
/// that differs, and the full paths of the two constraints.
#[derive(Debug)]
pub struct ConstraintDifference {
    pub row: usize,
    pub side: ConstraintSide,
    pub self_path: String,
    pub other_path: String,
}

/// The first side on which two constraints differ, if any.
pub open spec fn constraint_differs(x: TestConstraint, y: TestConstraint) -> Option<ConstraintSide> {
    if x.spec_a() != y.spec_a() {
        Some(ConstraintSide::A)
    } else if x.spec_b() != y.spec_b() {
        Some(ConstraintSide::B)
    } else if x.spec_c() != y.spec_c() {
        Some(ConstraintSide::C)
    } else {
        None
    }
}

/// Whether two lists of terms are equal.
fn terms_eq(x: &Vec<(Variable, usize)>, y: &Vec<(Variable, usize)>) -> (r: bool)
    ensures
        r == (x@ == y@),
{
    if x.len() != y.len() {
        return false;
    }
    let mut i: usize = 0;
    while i < x.len()
        invariant
            i <= x@.len(),
            x@.len() == y@.len(),
            forall|k: int| 0 <= k < i ==> x@[k] == y@[k],
        decreases x@.len() - i,
    {
        let (xv, xc) = x[i];
        let (yv, yc) = y[i];
        if !(xv == yv && xc == yc) {
            return false;
        }
        i = i + 1;
    }
    assert(x@ =~= y@);
    true
}

impl TestConstraintSystem {
    /// Interned terms evaluate as the linear combination they were interned from.
    pub proof fn lemma_terms_eval(self, t: Seq<(Variable, usize)>, lc: Seq<(Variable, Fr)>)
        requires
            self.terms_match(t, lc),
        ensures
            self.eval_terms(t) == self.lc_eval(lc),
        decreases t.len(),
    {
        if t.len() > 0 {
            let n = t.len() - 1;
            assert forall|k: int| 0 <= k < n implies (#[trigger] t.drop_last()[k]).0 == lc.drop_last()[k].0
                && t.drop_last()[k].1 < self.fields().len()
                && self.fields()[t.drop_last()[k].1 as int] == lc.drop_last()[k].1.spec_limbs() by {
                assert(t.drop_last()[k] == t[k]);
            }
            self.lemma_terms_eval(t.drop_last(), lc.drop_last());
            assert(t[n] == t.last());
            crate::field::lemma_value_is_limbs_value(lc.last().1);
        }
    }

    /// A linear combination keeps its value while the variables it reads keep theirs.
    pub proof fn lemma_lc_eval_same(a: Self, b: Self, lc: Seq<(Variable, Fr)>)
        requires
            forall|k: int| 0 <= k < lc.len() ==> a.has_var(#[trigger] lc[k].0) && b.has_var(lc[k].0)
                && b.var_value(lc[k].0) == a.var_value(lc[k].0),
        ensures
            b.lc_eval(lc) == a.lc_eval(lc),
        decreases lc.len(),
    {
        if lc.len() > 0 {
            assert forall|k: int| 0 <= k < lc.len() - 1 implies a.has_var(#[trigger] lc.drop_last()[k].0)
                && b.has_var(lc.drop_last()[k].0) && b.var_value(lc.drop_last()[k].0) == a.var_value(
                lc.drop_last()[k].0,
            ) by {
                assert(lc.drop_last()[k] == lc[k]);
            }
            Self::lemma_lc_eval_same(a, b, lc.drop_last());
            assert(lc[lc.len() - 1] == lc.last());
        }
    }

    /// Every variable of the linear combination is one the system has.
    pub open spec fn lc_vars_ok(self, lc: Seq<(Variable, Fr)>) -> bool {
        forall|k: int| 0 <= k < lc.len() ==> self.has_var(#[trigger] lc[k].0)
    }

    /// Whether the table has the row `(x, y, z)`, by value.
    pub open spec fn table_has_row(table: Seq<(Fr, Fr, Fr)>, x: nat, y: nat, z: nat) -> bool {
        exists|k: int|
            0 <= k < table.len() && (#[trigger] table[k]).0@ == x && table[k].1@ == y && table[k].2@ == z
    }

    /// What a lookup constraint `a * b = c` under the name `name` does: the
    /// name and the coefficients are interned; the constraint is recorded when
    /// the row of the values of `a`, `b` and `c` is in the lookup table.
    pub open spec fn enforce_lookup_post(
        old: Self,
        new: Self,
        name: Seq<char>,
        a: Seq<(Variable, Fr)>,
        b: Seq<(Variable, Fr)>,
        c: Seq<(Variable, Fr)>,
        r: Result<(), SynthesisError>,
    ) -> bool {
        &&& new.wf()
        &&& Self::path_computed(old, new, name)
        &&& Self::same_namespace(old, new)
        &&& new.objects() == old.objects()
        &&& new.public_slots() == old.public_slots()
        &&& new.private_slots() == old.private_slots()
        &&& Self::fields_extend(old, new)
        &&& match old.lookup() {
            None => r == Err::<(), SynthesisError>(SynthesisError::LookupTableMissing)
                && new.constraint_seq() == old.constraint_seq(),
            Some(t) => if Self::table_has_row(t.table@, old.lc_eval(a), old.lc_eval(b), old.lc_eval(c)) {
                &&& r == Ok::<(), SynthesisError>(())
                &&& new.constraint_seq().len() == old.constraint_seq().len() + 1
                &&& new.constraint_seq().drop_last() == old.constraint_seq()
                &&& new.constraint_seq().last().spec_path() == InternedPath::spec_from_key(old.new_path(name))
                &&& new.terms_match(new.constraint_seq().last().spec_a(), a)
                &&& new.terms_match(new.constraint_seq().last().spec_b(), b)
                &&& new.terms_match(new.constraint_seq().last().spec_c(), c)
            } else {
                r == Err::<(), SynthesisError>(SynthesisError::LookupValueMissing)
                    && new.constraint_seq() == old.constraint_seq()
            },
        }
    }

    /// Records the constraint `a * b = c` under the name `name` in the current
    /// namespace if the row of the values of `a`, `b` and `c` is in the lookup
    /// table; the constraint gets no named object.
    pub fn enforce_lookup(
        &mut self,
        name: &str,
        a: LinearCombination,
        b: LinearCombination,
        c: LinearCombination,
        _table_index: usize,
    ) -> (r: Result<(), SynthesisError>)
        requires
            old(self).wf(),
            old(self).name_ok(name@),
            old(self).lc_vars_ok(a.0@),
            old(self).lc_vars_ok(b.0@),
            old(self).lc_vars_ok(c.0@),
        ensures
            Self::enforce_lookup_post(*old(self), *final(self), name@, a.0@, b.0@, c.0@, r),
    {
        let ghost before = *old(self);
        let interned_path = self.compute_path(name);
        let ghost mid = *self;
        let a_terms = self.intern_fields(&a);
        let ghost mid3 = *self;
        let b_terms = self.intern_fields(&b);
        let ghost mid4 = *self;
        let c_terms = self.intern_fields(&c);
        proof {
            assert forall|k: int| 0 <= k < a_terms@.len() implies self.fields()[(#[trigger] a_terms@[k]).1 as int]
                == mid3.fields()[a_terms@[k].1 as int] by {
                assert(mid4.fields()[a_terms@[k].1 as int] == mid3.fields()[a_terms@[k].1 as int]);
            }
            assert(self.terms_match(a_terms@, a.0@));
            assert(self.terms_match(b_terms@, b.0@));
            assert(self.terms_match(c_terms@, c.0@));
            assert forall|w: Variable| before.has_var(w) implies self.has_var(w) && #[trigger] self.var_value(w) == before.var_value(w) by {
                assert(self.slot_of(w) == before.slot_of(w));
                assert(mid4.fields()[before.slot_of(w).unwrap() as int] == before.fields()[before.slot_of(w).unwrap() as int]);
                assert(mid3.fields()[before.slot_of(w).unwrap() as int] == before.fields()[before.slot_of(w).unwrap() as int]);
            }
            Self::lemma_lc_eval_same(before, *self, a.0@);
            Self::lemma_lc_eval_same(before, *self, b.0@);
            Self::lemma_lc_eval_same(before, *self, c.0@);
            self.lemma_terms_eval(a_terms@, a.0@);
            self.lemma_terms_eval(b_terms@, b.0@);
            self.lemma_terms_eval(c_terms@, c.0@);
            assert(self.terms_vars_ok(a_terms@));
            assert(self.terms_vars_ok(b_terms@));
            assert(self.terms_vars_ok(c_terms@));
        }
        let ea = self.eval_lc(&a_terms);
        let eb = self.eval_lc(&b_terms);
        let ec = self.eval_lc(&c_terms);
        let found = match &self.lookup_table {
            Some(lookup_table) => {
                let mut k: usize = 0;
                let mut res: Option<Fr> = None;
                while k < lookup_table.table.len()
                    invariant_except_break
                        k <= lookup_table.table@.len(),
                        res is None,
                        forall|j: int| 0 <= j < k ==> !((#[trigger] lookup_table.table@[j]).0@ == ea@
                            && lookup_table.table@[j].1@ == eb@ && lookup_table.table@[j].2@ == ec@),
                    ensures
                        res matches Some(v) ==> v@ == ec@ && Self::table_has_row(lookup_table.table@, ea@, eb@, ec@),
                        res is None ==> !Self::table_has_row(lookup_table.table@, ea@, eb@, ec@),
                    decreases lookup_table.table@.len() - k,
                {
                    let row = lookup_table.table[k];
                    proof {
                        crate::field::lemma_fr_eq_iff_value_eq(row.0, ea);
                        crate::field::lemma_fr_eq_iff_value_eq(row.1, eb);
                        crate::field::lemma_fr_eq_iff_value_eq(row.2, ec);
                    }
                    if row.0 == ea && row.1 == eb && row.2 == ec {
                        res = Some(row.2);
                        break;
                    }
                    k = k + 1;
                }
                match res {
                    Some(v) => v,
                    None => {
                        return Err(SynthesisError::LookupValueMissing);
                    },
                }
            },
            None => {
                return Err(SynthesisError::LookupTableMissing);
            },
        };
        proof {
            crate::field::lemma_fr_eq_iff_value_eq(found, ec);
        }
        if found == ec {
            let ghost mid5 = *self;
            let constraint = TestConstraint { interned_path, a: a_terms, b: b_terms, c: c_terms };
            let ghost cv = constraint;
            self.constraints.push(constraint);
            proof {
                lemma_naming_constraint_push(
                    mid5.objects(), mid5.namespace_segments(), mid5.namespace_indices(),
                    mid5.full_path_entries(), mid5.constraint_seq(), cv,
                );
                assert(self.constraint_seq() == mid5.constraint_seq().push(cv));
                assert(self.constraint_seq().drop_last() =~= before.constraint_seq());
                let nf = self.fields().len();
                let cs = self.constraint_seq();
                assert forall|k: int| 0 <= k < cs.len() implies {
                    let c = #[trigger] cs[k];
                    &&& path_in(c.spec_path(), self.objects().len(), self.segments().len())
                    &&& terms_in(c.spec_a(), nf)
                    &&& terms_in(c.spec_b(), nf)
                    &&& terms_in(c.spec_c(), nf)
                } by {
                    if k < cs.len() - 1 {
                        assert(cs[k] == mid5.constraint_seq()[k]);
                    }
                }
            }
            Ok(())
        } else {
            Err(SynthesisError::LookupValueMissing)
        }
    }

    /// What `first_difference` gives: `None` when no constraint at a position
    /// both systems have differs; otherwise the first such position, the first
    /// side that differs there, and the full paths of both constraints.
    pub open spec fn first_difference_post(self, other: Self, r: Option<ConstraintDifference>) -> bool {
        match r {
            None => forall|i: int|
                0 <= i < self.constraint_seq().len() && i < other.constraint_seq().len()
                    ==> constraint_differs(#[trigger] self.constraint_seq()[i], other.constraint_seq()[i]) is None,
            Some(d) => {
                &&& d.row < self.constraint_seq().len() && d.row < other.constraint_seq().len()
                &&& constraint_differs(self.constraint_seq()[d.row as int], other.constraint_seq()[d.row as int]) == Some(d.side)
                &&& forall|j: int| 0 <= j < d.row ==> constraint_differs(#[trigger] self.constraint_seq()[j], other.constraint_seq()[j]) is None
                &&& d.self_path@ == self.path_string(self.constraint_seq()[d.row as int].spec_path())
                &&& d.other_path@ == other.path_string(other.constraint_seq()[d.row as int].spec_path())
            },
        }
    }

    /// The first constraint at which `self` and `other` differ, comparing the
    /// constraints they have at the same positions.
    pub fn first_difference(&self, other: &Self) -> (r: Option<ConstraintDifference>)
        requires
            self.wf(),
            other.wf(),
        ensures
            self.first_difference_post(*other, r),
    {
        let mut i: usize = 0;
        while i < self.constraints.len() && i < other.constraints.len()
            invariant
                self.wf(),
                other.wf(),
                i <= self.constraint_seq().len(),
                i <= other.constraint_seq().len(),
                forall|j: int| 0 <= j < i ==> constraint_differs(#[trigger] self.constraint_seq()[j], other.constraint_seq()[j]) is None,
            decreases self.constraint_seq().len() - i,
        {
            let self_c = &self.constraints[i];
            let other_c = &other.constraints[i];
            let side = if !terms_eq(&self_c.a, &other_c.a) {
                Some(ConstraintSide::A)
            } else if !terms_eq(&self_c.b, &other_c.b) {
                Some(ConstraintSide::B)
            } else if !terms_eq(&self_c.c, &other_c.c) {
                Some(ConstraintSide::C)
            } else {
                None
            };
            match side {
                Some(side) => {
                    return Some(
                        ConstraintDifference {
                            row: i,
                            side,
                            self_path: self.get_constraint_path(i),
                            other_path: other.get_constraint_path(i),
                        },
                    );
                },
                None => {},
            }
            i = i + 1;
        }
        None
    }
}

/// The names of the namespaces from the root down to the one at position `p`.
pub open spec fn ancestor_names(
    objs: Seq<((usize, usize), NamedObject)>,
    segs: Seq<Seq<char>>,
    p: usize,
) -> Seq<Seq<char>>
    decreases p,
{
    if p == 0 || p >= objs.len() || objs[p as int].0.0 >= p {
        Seq::empty()
    } else {
        ancestor_names(objs, segs, objs[p as int].0.0).push(segs[objs[p as int].0.1 as int])
    }
}

/// Splitting after text without `/` extends the last piece.
proof fn lemma_split_append_plain(x: Seq<char>, t: Seq<char>)
    requires
        !t.contains('/'),
    ensures
        split_path(x + t) == split_path(x).update(
            split_path(x).len() - 1,
            split_path(x).last() + t,
        ),
    decreases t.len(),
{
    lemma_split_nonempty(x);
    if t.len() == 0 {
        assert(x + t =~= x);
        assert(split_path(x).last() + t =~= split_path(x).last());
        assert(split_path(x).update(split_path(x).len() - 1, split_path(x).last()) =~= split_path(x));
    } else {
        let t0 = t.drop_last();
        assert forall|i: int| 0 <= i < t0.len() implies t0[i] != '/' by {
            assert(t0[i] == t[i]);
        }
        lemma_split_append_plain(x, t0);
        assert((x + t).drop_last() =~= x + t0);
        assert((x + t).last() == t.last());
        assert(t.last() != '/') by {
            assert(t[t.len() - 1] == t.last());
        }
        lemma_split_nonempty(x + t0);
        let sp = split_path(x);
        assert(split_path(x + t) =~= sp.update(sp.len() - 1, sp.last() + t0).update(
            sp.len() - 1,
            (sp.last() + t0).push(t.last()),
        ));
        assert((sp.last() + t0).push(t.last()) =~= sp.last() + t);
        assert(sp.update(sp.len() - 1, sp.last() + t0).update(sp.len() - 1, sp.last() + t) =~= sp.update(
            sp.len() - 1,
            sp.last() + t,
        ));
    }
}

/// The pieces of a namespace prefix are the names of the namespaces, and an
/// empty piece after the last `/`.
proof fn lemma_split_prefix_names(objs: Seq<((usize, usize), NamedObject)>, segs: Seq<Seq<char>>, p: usize)
    requires
        keys_wf(objs, segs.len()),
        segments_wf(segs),
    ensures
        split_path(namespace_prefix(objs, segs, p)) == ancestor_names(objs, segs, p).push(Seq::<char>::empty()),
    decreases p,
{
    if p == 0 || p >= objs.len() || objs[p as int].0.0 >= p {
        assert(split_path(Seq::<char>::empty()) == seq![Seq::<char>::empty()]);
        assert(ancestor_names(objs, segs, p).push(Seq::<char>::empty()) =~= seq![Seq::<char>::empty()]);
    } else {
        let q = objs[p as int].0.0;
        let name = segs[objs[p as int].0.1 as int];
        lemma_split_prefix_names(objs, segs, q);
        let pre = namespace_prefix(objs, segs, q);
        assert(!name.contains('/'));
        lemma_split_append_plain(pre, name);
        let sp = split_path(pre);
        assert(sp.update(sp.len() - 1, sp.last() + name) =~= ancestor_names(objs, segs, q).push(name)) by {
            assert(sp.last() + name =~= name);
        }
        let full = pre + name + seq!['/'];
        assert(full.drop_last() =~= pre + name);
        assert(full.last() == '/');
        assert(namespace_prefix(objs, segs, p) == full);
        assert(split_path(full) =~= ancestor_names(objs, segs, q).push(name).push(Seq::<char>::empty()));
    }
}

/// Interning the names of the ancestors gives their segments.
proof fn lemma_interned_ancestors(objs: Seq<((usize, usize), NamedObject)>, segs: Seq<Seq<char>>, p: usize)
    requires
        keys_wf(objs, segs.len()),
        segs.no_duplicates(),
    ensures
        interned_names(segs, ancestor_names(objs, segs, p)) == ancestor_segments(objs, p),
        forall|k: int|
            0 <= k < ancestor_names(objs, segs, p).len() ==> segs.contains(
                #[trigger] ancestor_names(objs, segs, p)[k],
            ),
    decreases p,
{
    if p == 0 || p >= objs.len() || objs[p as int].0.0 >= p {
    } else {
        let q = objs[p as int].0.0;
        let l = objs[p as int].0.1;
        lemma_interned_ancestors(objs, segs, q);
        lemma_interned_names_push(segs, ancestor_names(objs, segs, q), segs[l as int]);
        assert(segs[segs.index_of(segs[l as int])] == segs[l as int]);
        assert(segs.index_of(segs[l as int]) == l);
        let an = ancestor_names(objs, segs, p);
        assert forall|k: int| 0 <= k < an.len() implies segs.contains(#[trigger] an[k]) by {
            if k < an.len() - 1 {
                assert(an[k] == ancestor_names(objs, segs, q)[k]);
            } else {
                assert(an[k] == segs[l as int]);
            }
        }
    }
}

/// The path of a namespace stays as it was when objects are added after it,
/// object values change, or segments are added.
pub proof fn lemma_prefix_extend(
    objs: Seq<((usize, usize), NamedObject)>,
    objs2: Seq<((usize, usize), NamedObject)>,
    segs: Seq<Seq<char>>,
    segs2: Seq<Seq<char>>,
    p: usize,
)
    requires
        keys_wf(objs, segs.len()),
        objs.len() <= objs2.len(),
        forall|i: int| 0 <= i < objs.len() ==> #[trigger] objs2[i].0 == objs[i].0,
        segs.len() <= segs2.len(),
        forall|i: int| 0 <= i < segs.len() ==> #[trigger] segs2[i] == segs[i],
        p < objs.len(),
    ensures
        namespace_prefix(objs2, segs2, p) == namespace_prefix(objs, segs, p),
    decreases p,
{
    if p != 0 {
        assert(objs2[p as int].0 == objs[p as int].0);
        if objs[p as int].0.0 < p {
            lemma_prefix_extend(objs, objs2, segs, segs2, objs[p as int].0.0);
            assert(objs[p as int].0.1 < segs.len());
            assert(segs2[objs[p as int].0.1 as int] == segs[objs[p as int].0.1 as int]);
        }
    }
}

impl TestConstraintSystem {
    /// The path of the current namespace, each name followed by `/`.
    pub open spec fn current_prefix(self) -> Seq<char> {
        namespace_prefix(self.objects(), self.segments(), self.current_idx())
    }

    /// The full path of an interned path with a recorded full path names it.
    pub proof fn lemma_path_string_resolves(self, ip: InternedPath)
        requires
            self.wf(),
            recorded(self.full_path_entries(), ip),
        ensures
            self.resolve(self.path_string(ip)) == Some(ip),
    {
        let objs = self.objects();
        let segs = self.segments();
        let j = choose|j: int| 0 <= j < self.full_path_entries().len() && (#[trigger] self.full_path_entries()[j]).1 == ip;
        assert(path_in(ip, objs.len(), segs.len()));
        reveal(entries_match);
        assert(self.full_path_entries()[j].0@ == full_segments(objs, ip));
        let pre = namespace_prefix(objs, segs, ip.spec_parent());
        let last = segs[ip.spec_last() as int];
        lemma_split_prefix_names(objs, segs, ip.spec_parent());
        assert(!last.contains('/'));
        lemma_split_append_plain(pre, last);
        let names = ancestor_names(objs, segs, ip.spec_parent()).push(last);
        let sp = split_path(pre);
        assert(sp.last() + last =~= last);
        assert(split_path(self.path_string(ip)) =~= names);
        lemma_interned_ancestors(objs, segs, ip.spec_parent());
        lemma_interned_names_push(segs, ancestor_names(objs, segs, ip.spec_parent()), last);
        assert(segs[segs.index_of(last)] == last);
        assert(segs.index_of(last) == ip.spec_last());
        assert(interned_names(segs, names) == full_segments(objs, ip));
        assert forall|k: int| 0 <= k < names.len() implies segs.contains(#[trigger] names[k]) by {
            if k < names.len() - 1 {
                assert(names[k] == ancestor_names(objs, segs, ip.spec_parent())[k]);
            } else {
                assert(names[k] == last);
            }
        }
        lemma_full_path_map_get(self.full_path_entries(), j);
    }
}

/// Whether the text holds a `/`.
fn contains_slash(name: &str) -> (r: bool)
    ensures
        r == name@.contains('/'),
{
    let n = name.unicode_len();
    let mut i: usize = 0;
    while i < n
        invariant
            n == name@.len(),
            i <= n,
            forall|k: int| 0 <= k < i ==> name@[k] != '/',
        decreases n - i,
    {
        if name.get_char(i) == '/' {
            return true;
        }
        i = i + 1;
    }
    false
}

impl TestConstraintSystem {
    /// Whether `name` may be interned as a new segment: it is one already, or
    /// it holds no `/`.
    pub fn name_allowed(&self, name: &str) -> (r: bool)
        ensures
            r == self.name_ok(name@),
    {
        match segments_get_index_of(&self.interned_path_segments, name) {
            Some(_) => true,
            None => !contains_slash(name),
        }
    }

    /// Whether no object has the path that a new object called `name` gets.
    pub fn path_is_free(&self, name: &str) -> (r: bool)
        requires
            self.wf(),
        ensures
            r == self.path_free(name@),
    {
        let cur = self.current_namespace.idx();
        match segments_get_index_of(&self.interned_path_segments, name) {
            Some(idx) => {
                proof {
                    assert(self.segments()[self.segments().index_of(name@)] == name@);
                    assert(idx as int == self.segments().index_of(name@));
                }
                match objects_get(&self.named_objects, &(cur, idx)) {
                    Some(_) => false,
                    None => true,
                }
            },
            None => {
                proof {
                    assert forall|i: int| 0 <= i < self.objects().len() implies (#[trigger] self.objects()[i]).0 != self.new_path(name@) by {
                        assert(self.objects()[i].0.1 < self.segments().len());
                    }
                }
                true
            },
        }
    }

    /// The full path of the object that already has the path a new object
    /// called `name` would get, if there is one.
    pub fn occupied_path(&self, name: &str) -> (r: Option<String>)
        requires
            self.wf(),
        ensures
            r is Some <==> !self.path_free(name@),
            r matches Some(p) ==> p@ == self.path_string(InternedPath::spec_from_key(self.new_path(name@))),
    {
        let cur = self.current_namespace.idx();
        match segments_get_index_of(&self.interned_path_segments, name) {
            Some(idx) => {
                proof {
                    assert(self.segments()[self.segments().index_of(name@)] == name@);
                    assert(idx as int == self.segments().index_of(name@));
                    if self.namespace_indices().len() > 0 {
                        assert(self.namespace_indices()[self.namespace_indices().len() - 1] < self.objects().len());
                    }
                }
                match objects_get(&self.named_objects, &(cur, idx)) {
                    Some(_) => {
                        let ip = InternedPath { parent_namespace: cur, last_segment: idx };
                        proof {
                            InternedPath::lemma_from_key(ip);
                        }
                        Some(self.unintern_path(ip))
                    },
                    None => None,
                }
            },
            None => {
                proof {
                    assert forall|i: int| 0 <= i < self.objects().len() implies (#[trigger] self.objects()[i]).0 != self.new_path(name@) by {
                        assert(self.objects()[i].0.1 < self.segments().len());
                    }
                }
                None
            },
        }
    }

    /// Whether the system has the variable.
    pub fn has_variable(&self, v: Variable) -> (r: bool)
        ensures
            r == self.has_var(v),
    {
        match v.get_unchecked() {
            Index::Public(i) => i < self.public_variables.len(),
            Index::Private(i) => i < self.private_variables.len(),
        }
    }

    /// Whether every variable of `lc` is one the system has.
    pub fn has_variables(&self, lc: &LinearCombination) -> (r: bool)
        ensures
            r == self.lc_vars_ok(lc.0@),
    {
        let mut i: usize = 0;
        while i < lc.0.len()
            invariant
                i <= lc.0@.len(),
                forall|k: int| 0 <= k < i ==> self.has_var(#[trigger] lc.0@[k].0),
            decreases lc.0@.len() - i,
        {
            if !self.has_variable(lc.0[i].0) {
                return false;
            }
            i = i + 1;
        }
        true
    }

    /// Whether every variable of the terms is one the system has.
    fn terms_have_variables(&self, t: &Vec<(Variable, usize)>) -> (r: bool)
        ensures
            r == self.terms_vars_ok(t@),
    {
        let mut i: usize = 0;
        while i < t.len()
            invariant
                i <= t@.len(),
                forall|k: int| 0 <= k < i ==> self.has_var(#[trigger] t@[k].0),
            decreases t@.len() - i,
        {
            if !self.has_variable(t[i].0) {
                return false;
            }
            i = i + 1;
        }
        true
    }

    /// Whether every variable in the constraints is one the system has.
    pub fn constraint_variables_allocated(&self) -> (r: bool)
        ensures
            r == self.constraint_vars_ok(),
    {
        let mut i: usize = 0;
        while i < self.constraints.len()
            invariant
                i <= self.constraint_seq().len(),
                forall|k: int|
                    0 <= k < i ==> {
                        let c = #[trigger] self.constraint_seq()[k];
                        &&& self.terms_vars_ok(c.spec_a())
                        &&& self.terms_vars_ok(c.spec_b())
                        &&& self.terms_vars_ok(c.spec_c())
                    },
            decreases self.constraint_seq().len() - i,
        {
            let c = &self.constraints[i];
            if !(self.terms_have_variables(&c.a) && self.terms_have_variables(&c.b) && self.terms_have_variables(&c.c)) {
                return false;
            }
            i = i + 1;
        }
        true
    }

    /// How many namespaces deep the current namespace is (0 at the root).
    pub fn namespace_depth(&self) -> (r: usize)
        ensures
            r == self.namespace_indices().len(),
    {
        self.current_namespace.indices.len()
    }
}

impl Default for TestConstraintSystem {
    /// The same empty system as `new`: its only object is the public variable
    /// `ONE` of value 1, with no constraints, namespace or lookup table.
    fn default() -> (r: Self)
        ensures
            r.wf(),
            r.is_fresh(),
            r.var_at(seq!['O', 'N', 'E']) == Some(Self::spec_one()),
            r.var_value(Self::spec_one()) == 1,
    {
        Self::new()
    }
}

} // verus!
