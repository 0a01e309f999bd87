//! A directed relation graph over externally owned entity handles.
//!
//! A [`RelationStore`] keeps, for one relation kind, a forward index (edges
//! keyed by source) and a backward index (sources keyed by target) that stay
//! mutually consistent under inserts, removals and entity destruction. The
//! kind is configured at construction with a cardinality restriction per
//! endpoint ([`restriction::One`] or [`restriction::Many`]) and a cyclicity
//! ([`cyclicity::Cyclic`] or [`cyclicity::Acyclic`]); a `One` endpoint evicts
//! the previous edge on insertion, and an `Acyclic` kind rejects insertions
//! that would close a cycle along the deterministic chain.

use vstd::prelude::*;

pub mod cascade;
pub mod commands;
pub mod cyclicity;
pub mod restriction;

verus! {

broadcast use vstd::std_specs::hash::group_hash_axioms;

use std::collections::HashMap;
use crate::cyclicity::Cyclicity;
use crate::cyclicity::fn_acyclic;
use crate::cyclicity::iterate;
use crate::cyclicity::lemma_iterate_none;
use crate::restriction::Restriction;

/// Why an operation on a relation store was refused. There is no variant for
/// a disagreement between the two indices: bidirectional consistency is part
/// of the store's invariant, so such a state is unreachable through the
/// public operations.
#[derive(Debug, Clone, Copy, PartialEq, Eq, Structural)]
pub enum RelationError {
    /// `Acyclic` was requested although both endpoints are `Many`-restricted;
    /// the deterministic cycle walk needs a `One` endpoint.
    InvalidConfiguration,
    /// The requested edge would close a cycle under an `Acyclic` kind.
    CycleViolation,
}

/// There is an entry for target `t` somewhere in the payload/target pairs `v`.
pub open spec fn seq_has_target<P>(v: Seq<(P, u64)>, t: u64) -> bool {
    exists|i: int| 0 <= i < v.len() && v[i].1 == t
}

/// The index at which target `t` sits in `v` (unique when targets are distinct).
pub open spec fn target_index<P>(v: Seq<(P, u64)>, t: u64) -> int {
    choose|i: int| 0 <= i < v.len() && v[i].1 == t
}

/// No two entries of `v` name the same target.
pub open spec fn distinct_targets<P>(v: Seq<(P, u64)>) -> bool {
    forall|i: int, j: int| 0 <= i < j < v.len() ==> v[i].1 != v[j].1
}

/// Linear scan for the position of target `t` among the payload/target pairs.
fn find_target<P>(v: &Vec<(P, u64)>, t: u64) -> (r: Option<usize>)
    ensures
        match r {
            Some(i) => i < v@.len() && v@[i as int].1 == t,
            None => !seq_has_target(v@, t),
        },
{
    let mut i: usize = 0;
    while i < v.len()
        invariant
            i <= v@.len(),
            forall|j: int| 0 <= j < i ==> v@[j].1 != t,
        decreases v@.len() - i,
    {
        if v[i].1 == t {
            return Some(i);
        }
        i = i + 1;
    }
    None
}

/// Linear scan for the position of source `s` in a backward entry.
fn find_source(v: &Vec<u64>, s: u64) -> (r: Option<usize>)
    ensures
        match r {
            Some(i) => i < v@.len() && v@[i as int] == s,
            None => !v@.contains(s),
        },
{
    let mut i: usize = 0;
    while i < v.len()
        invariant
            i <= v@.len(),
            forall|j: int| 0 <= j < i ==> v@[j] != s,
        decreases v@.len() - i,
    {
        if v[i] == s {
            return Some(i);
        }
        i = i + 1;
    }
    None
}

/// What a swap-removal at the position of target `t` does to the target set
/// of a duplicate-free forward entry.
proof fn lemma_swap_remove_targets<P>(v1: Seq<(P, u64)>, i: int, t: u64)
    requires
        0 <= i < v1.len(),
        v1[i].1 == t,
        distinct_targets(v1),
    ensures
        ({
            let v2 = v1.update(i, v1.last()).drop_last();
            &&& distinct_targets(v2)
            &&& forall|b: u64|
                #[trigger] seq_has_target(v2, b) <==> (seq_has_target(v1, b) && b != t)
            &&& forall|b: u64|
                b != t && #[trigger] seq_has_target(v2, b) ==> v2[target_index(v2, b)]
                    == v1[target_index(v1, b)]
        }),
{
    let v2 = v1.update(i, v1.last()).drop_last();
    assert forall|j: int| 0 <= j < v2.len() implies v2[j] == (if j == i {
        v1[v1.len() - 1]
    } else {
        v1[j]
    }) by {}
    assert forall|b: u64| #[trigger] seq_has_target(v2, b) implies (seq_has_target(v1, b) && b
        != t) by {
        let j = choose|j: int| 0 <= j < v2.len() && v2[j].1 == b;
        if j == i {
            assert(v1[v1.len() - 1].1 == b);
        } else {
            assert(v1[j].1 == b);
        }
    }
    assert forall|b: u64| seq_has_target(v1, b) && b != t implies #[trigger] seq_has_target(
        v2,
        b,
    ) by {
        let j1 = choose|j: int| 0 <= j < v1.len() && v1[j].1 == b;
        assert(j1 != i);
        if j1 < v1.len() - 1 {
            assert(v2[j1].1 == b);
        } else {
            assert(i < v1.len() - 1);
            assert(v2[i].1 == b);
        }
    }
    assert forall|b: u64| b != t && #[trigger] seq_has_target(v2, b) implies v2[target_index(
        v2,
        b,
    )] == v1[target_index(v1, b)] by {
        let j2 = target_index(v2, b);
        assert(0 <= j2 < v2.len() && v2[j2].1 == b);
        let j1 = target_index(v1, b);
        assert(seq_has_target(v1, b));
        assert(0 <= j1 < v1.len() && v1[j1].1 == b);
        if j2 == i {
            assert(v2[j2] == v1[v1.len() - 1]);
            assert(j1 == v1.len() - 1);
        } else {
            assert(v2[j2] == v1[j2]);
            assert(j1 == j2);
        }
    }
}

/// What a swap-removal at the position of source `s` does to a duplicate-free
/// backward entry.
proof fn lemma_swap_remove_sources(v1: Seq<u64>, i: int, s: u64)
    requires
        0 <= i < v1.len(),
        v1[i] == s,
        v1.no_duplicates(),
    ensures
        ({
            let v2 = v1.update(i, v1.last()).drop_last();
            &&& v2.no_duplicates()
            &&& forall|a: u64| #[trigger] v2.contains(a) <==> (v1.contains(a) && a != s)
        }),
{
    let v2 = v1.update(i, v1.last()).drop_last();
    assert forall|j: int| 0 <= j < v2.len() implies v2[j] == (if j == i {
        v1[v1.len() - 1]
    } else {
        v1[j]
    }) by {}
    assert forall|a: u64| #[trigger] v2.contains(a) implies (v1.contains(a) && a != s) by {
        let j = choose|j: int| 0 <= j < v2.len() && v2[j] == a;
        if j == i {
            assert(v1[v1.len() - 1] == a);
        } else {
            assert(v1[j] == a);
        }
    }
    assert forall|a: u64| v1.contains(a) && a != s implies #[trigger] v2.contains(a) by {
        let j1 = choose|j: int| 0 <= j < v1.len() && v1[j] == a;
        assert(j1 != i);
        if j1 < v1.len() - 1 {
            assert(v2[j1] == a);
        } else {
            assert(i < v1.len() - 1);
            assert(v2[i] == a);
        }
    }
}

/// Appending a pair with a fresh target extends the target set by exactly
/// that target.
proof fn lemma_push_target<P>(v: Seq<(P, u64)>, data: P, t: u64)
    requires
        distinct_targets(v),
        !seq_has_target(v, t),
    ensures
        ({
            let v2 = v.push((data, t));
            &&& distinct_targets(v2)
            &&& forall|b: u64| #[trigger] seq_has_target(v2, b) <==> (seq_has_target(v, b) || b == t)
            &&& v2[target_index(v2, t)] == (data, t)
            &&& forall|b: u64|
                b != t && #[trigger] seq_has_target(v2, b) ==> v2[target_index(v2, b)]
                    == v[target_index(v, b)]
        }),
{
    let v2 = v.push((data, t));
    assert forall|b: u64| #[trigger] seq_has_target(v2, b) implies (seq_has_target(v, b) || b
        == t) by {
        let j = choose|j: int| 0 <= j < v2.len() && v2[j].1 == b;
        if j < v.len() {
            assert(v[j].1 == b);
        }
    }
    assert forall|b: u64| seq_has_target(v, b) || b == t implies #[trigger] seq_has_target(
        v2,
        b,
    ) by {
        if b == t {
            assert(v2[v.len() as int].1 == t);
        } else {
            let j = choose|j: int| 0 <= j < v.len() && v[j].1 == b;
            assert(v2[j].1 == b);
        }
    }
    assert(v2[v.len() as int] == (data, t));
    let jt = target_index(v2, t);
    assert(0 <= jt < v2.len() && v2[jt].1 == t);
    assert(jt == v.len() as int);
    assert forall|b: u64| b != t && #[trigger] seq_has_target(v2, b) implies v2[target_index(
        v2,
        b,
    )] == v[target_index(v, b)] by {
        let j2 = target_index(v2, b);
        assert(0 <= j2 < v2.len() && v2[j2].1 == b);
        assert(j2 < v.len());
        assert(seq_has_target(v, b));
        let j1 = target_index(v, b);
        assert(0 <= j1 < v.len() && v[j1].1 == b);
        assert(j1 == j2);
    }
}

/// Replacing the pair that carries target `t` updates its payload and leaves
/// the target set unchanged.
proof fn lemma_update_target<P>(v: Seq<(P, u64)>, i: int, data: P, t: u64)
    requires
        distinct_targets(v),
        0 <= i < v.len(),
        v[i].1 == t,
    ensures
        ({
            let v2 = v.update(i, (data, t));
            &&& distinct_targets(v2)
            &&& forall|b: u64| #[trigger] seq_has_target(v2, b) <==> seq_has_target(v, b)
            &&& v2[target_index(v2, t)] == (data, t)
            &&& forall|b: u64|
                b != t && #[trigger] seq_has_target(v2, b) ==> v2[target_index(v2, b)]
                    == v[target_index(v, b)]
        }),
{
    let v2 = v.update(i, (data, t));
    assert forall|j: int| 0 <= j < v2.len() implies v2[j] == (if j == i {
        (data, t)
    } else {
        v[j]
    }) by {}
    assert forall|b: u64| #[trigger] seq_has_target(v2, b) implies seq_has_target(v, b) by {
        let j = choose|j: int| 0 <= j < v2.len() && v2[j].1 == b;
        if j == i {
            assert(v[i].1 == b);
        } else {
            assert(v[j].1 == b);
        }
    }
    assert forall|b: u64| seq_has_target(v, b) implies #[trigger] seq_has_target(v2, b) by {
        let j = choose|j: int| 0 <= j < v.len() && v[j].1 == b;
        assert(v2[j].1 == b);
    }
    assert(v2[i].1 == t);
    assert(seq_has_target(v2, t));
    let jt = target_index(v2, t);
    assert(0 <= jt < v2.len() && v2[jt].1 == t);
    assert(jt == i);
    assert forall|b: u64| b != t && #[trigger] seq_has_target(v2, b) implies v2[target_index(
        v2,
        b,
    )] == v[target_index(v, b)] by {
        let j2 = target_index(v2, b);
        assert(0 <= j2 < v2.len() && v2[j2].1 == b);
        assert(j2 != i);
        assert(seq_has_target(v, b));
        let j1 = target_index(v, b);
        assert(j1 == j2);
    }
}

/// Appending a fresh source extends a duplicate-free backward entry by
/// exactly that source.
proof fn lemma_push_source(v: Seq<u64>, s: u64)
    requires
        v.no_duplicates(),
        !v.contains(s),
    ensures
        v.push(s).no_duplicates(),
        forall|a: u64| #[trigger] v.push(s).contains(a) <==> (v.contains(a) || a == s),
{
    let v2 = v.push(s);
    assert forall|a: u64| #[trigger] v2.contains(a) implies (v.contains(a) || a == s) by {
        let j = choose|j: int| 0 <= j < v2.len() && v2[j] == a;
        if j < v.len() {
            assert(v[j] == a);
        }
    }
    assert forall|a: u64| v.contains(a) || a == s implies #[trigger] v2.contains(a) by {
        if a == s {
            assert(v2[v.len() as int] == s);
        } else {
            let j = choose|j: int| 0 <= j < v.len() && v[j] == a;
            assert(v2[j] == a);
        }
    }
}

/// Extending a prefix of `v` by one pair extends its target set by that
/// pair's target.
proof fn lemma_take_step_target<P>(v: Seq<(P, u64)>, i: int)
    requires
        0 <= i < v.len(),
    ensures
        forall|b: u64|
            #[trigger] seq_has_target(v.take(i + 1), b) <==> (seq_has_target(v.take(i), b)
                || v[i].1 == b),
{
    let v1 = v.take(i);
    let v2 = v.take(i + 1);
    assert(v2 =~= v1.push(v[i]));
    assert forall|b: u64| #[trigger] seq_has_target(v2, b) implies (seq_has_target(v1, b)
        || v[i].1 == b) by {
        let j = choose|j: int| 0 <= j < v2.len() && v2[j].1 == b;
        if j < i {
            assert(v1[j].1 == b);
        }
    }
    assert forall|b: u64| seq_has_target(v1, b) || v[i].1 == b implies #[trigger] seq_has_target(
        v2,
        b,
    ) by {
        if v[i].1 == b {
            assert(v2[i].1 == b);
        } else {
            let j = choose|j: int| 0 <= j < v1.len() && v1[j].1 == b;
            assert(v2[j].1 == b);
        }
    }
}

/// Extending a prefix of `v` by one source extends its member set by that
/// source.
proof fn lemma_take_step_source(v: Seq<u64>, i: int)
    requires
        0 <= i < v.len(),
    ensures
        forall|a: u64|
            #[trigger] v.take(i + 1).contains(a) <==> (v.take(i).contains(a) || v[i] == a),
{
    let v1 = v.take(i);
    let v2 = v.take(i + 1);
    assert(v2 =~= v1.push(v[i]));
    assert forall|a: u64| #[trigger] v2.contains(a) implies (v1.contains(a) || v[i] == a) by {
        let j = choose|j: int| 0 <= j < v2.len() && v2[j] == a;
        if j < i {
            assert(v1[j] == a);
        }
    }
    assert forall|a: u64| v1.contains(a) || v[i] == a implies #[trigger] v2.contains(a) by {
        if v[i] == a {
            assert(v2[i] == a);
        } else {
            let j = choose|j: int| 0 <= j < v1.len() && v1[j] == a;
            assert(v2[j] == a);
        }
    }
}

/// A one-pair entry holds exactly its own target.
proof fn lemma_singleton_target<P>(v: Seq<(P, u64)>, data: P, t: u64)
    requires
        v =~= seq![(data, t)],
    ensures
        distinct_targets(v),
        forall|b: u64| #[trigger] seq_has_target(v, b) <==> b == t,
        v[target_index(v, t)] == (data, t),
{
    assert(v[0].1 == t);
    assert forall|b: u64| #[trigger] seq_has_target(v, b) implies b == t by {
        let j = choose|j: int| 0 <= j < v.len() && v[j].1 == b;
        assert(j == 0);
    }
    assert(seq_has_target(v, t));
    let jt = target_index(v, t);
    assert(0 <= jt < v.len() && v[jt].1 == t);
}

/// The bidirectional index for one relation kind, holding directed edges
/// `(source, payload, target)` between entity handles.
pub struct RelationStore<P> {
    source_many: bool,
    target_many: bool,
    acyclic: bool,
    fwd: HashMap<u64, Vec<(P, u64)>>,
    bwd: HashMap<u64, Vec<u64>>,
}

impl<P> RelationStore<P> {
    /// Whether a source entity may own more than one edge of this kind.
    pub closed spec fn source_is_many(self) -> bool {
        self.source_many
    }

    /// Whether a target entity may be pointed at by more than one edge.
    pub closed spec fn target_is_many(self) -> bool {
        self.target_many
    }

    /// Whether this kind forbids cycles along the deterministic chain.
    pub closed spec fn is_acyclic(self) -> bool {
        self.acyclic
    }

    /// Both stores were configured the same way.
    pub open spec fn same_kind(self, other: Self) -> bool {
        &&& self.source_is_many() == other.source_is_many()
        &&& self.target_is_many() == other.target_is_many()
        &&& self.is_acyclic() == other.is_acyclic()
    }

    /// The edge `source -> target` is present in the forward index.
    pub closed spec fn has_edge(self, source: u64, target: u64) -> bool {
        self.fwd@.contains_key(source) && seq_has_target(self.fwd@[source]@, target)
    }

    /// `source` is recorded in `target`'s backward index entry.
    pub closed spec fn in_backward(self, source: u64, target: u64) -> bool {
        self.bwd@.contains_key(target) && self.bwd@[target]@.contains(source)
    }

    /// The payload stored on edge `source -> target`.
    pub closed spec fn edge_data(self, source: u64, target: u64) -> P {
        let v = self.fwd@[source]@;
        v[target_index(v, target)].0
    }

    /// Every present index entry is non-empty, duplicate-free, and within its
    /// endpoint's cardinality bound.
    pub closed spec fn entries_ok(self) -> bool {
        &&& forall|s: u64| #[trigger] self.fwd@.contains_key(s) ==> {
            let v = self.fwd@[s]@;
            &&& v.len() >= 1
            &&& distinct_targets(v)
            &&& (!self.source_many ==> v.len() <= 1)
        }
        &&& forall|t: u64| #[trigger] self.bwd@.contains_key(t) ==> {
            let v = self.bwd@[t]@;
            &&& v.len() >= 1
            &&& v.no_duplicates()
            &&& (!self.target_many ==> v.len() <= 1)
        }
    }

    /// The two indices agree: an edge is in the forward index exactly when it
    /// is mirrored in the backward index.
    pub closed spec fn linked(self) -> bool {
        forall|s: u64, t: u64| #[trigger] self.has_edge(s, t) <==> #[trigger] self.in_backward(s, t)
    }

    /// An `Acyclic` kind has a `One`-restricted endpoint, so the cycle walk
    /// is deterministic.
    pub closed spec fn config_ok(self) -> bool {
        self.acyclic ==> !(self.source_many && self.target_many)
    }

    /// One step of the deterministic chain: with a `One`-restricted target the
    /// walk follows the unique backward source, otherwise (the source being
    /// `One`) the unique forward target.
    pub closed spec fn walk_step(self, x: u64) -> Option<u64> {
        if !self.target_many {
            if self.bwd@.contains_key(x) {
                Some(self.bwd@[x]@[0])
            } else {
                None
            }
        } else {
            if self.fwd@.contains_key(x) {
                Some(self.fwd@[x]@[0].1)
            } else {
                None
            }
        }
    }

    /// The deterministic chain as a successor function.
    pub closed spec fn walk_fn(self) -> spec_fn(u64) -> Option<u64> {
        |x: u64| self.walk_step(x)
    }

    /// No chain of this store returns to its starting node.
    pub closed spec fn chain_acyclic(self) -> bool {
        fn_acyclic(self.walk_fn())
    }

    /// The number of index entries currently allocated, the measure that
    /// shrinks as a cascade drains.
    pub closed spec fn entry_count(self) -> nat {
        self.fwd@.dom().len() + self.bwd@.dom().len()
    }

    /// Entity `e` carries a forward or a backward entry of this kind.
    pub closed spec fn participates(self, e: u64) -> bool {
        self.fwd@.contains_key(e) || self.bwd@.contains_key(e)
    }

    /// The store's invariant: well-shaped entries, mutually consistent
    /// indices, a valid configuration, and no cycle when the kind forbids
    /// them. Established by [`RelationStore::new`] and preserved by every
    /// public operation.
    pub closed spec fn wf(self) -> bool {
        &&& self.entries_ok()
        &&& self.linked()
        &&& self.config_ok()
        &&& (self.acyclic ==> self.chain_acyclic())
    }

    /// Bidirectional consistency: an edge `(s, t)` stands in `s`'s forward
    /// index exactly when `s` stands in `t`'s backward index.
    pub proof fn lemma_bidirectional(self, s: u64, t: u64)
        requires
            self.wf(),
        ensures
            self.has_edge(s, t) <==> self.in_backward(s, t),
    {
    }

    /// A `One`-restricted source owns at most one edge at any time.
    pub proof fn lemma_source_one_unique(self, s: u64, t1: u64, t2: u64)
        requires
            self.wf(),
            !self.source_is_many(),
            self.has_edge(s, t1),
            self.has_edge(s, t2),
        ensures
            t1 == t2,
    {
        let v = self.fwd@[s]@;
        assert(v.len() <= 1);
        let i1 = target_index(v, t1);
        let i2 = target_index(v, t2);
        assert(0 <= i1 < v.len() && v[i1].1 == t1);
        assert(0 <= i2 < v.len() && v[i2].1 == t2);
    }

    /// A `One`-restricted target is pointed at by at most one edge at any time.
    pub proof fn lemma_target_one_unique(self, s1: u64, s2: u64, t: u64)
        requires
            self.wf(),
            !self.target_is_many(),
            self.has_edge(s1, t),
            self.has_edge(s2, t),
        ensures
            s1 == s2,
    {
        assert(self.in_backward(s1, t));
        assert(self.in_backward(s2, t));
        let v = self.bwd@[t]@;
        assert(v.len() <= 1);
        let i1 = choose|i: int| 0 <= i < v.len() && v[i] == s1;
        let i2 = choose|i: int| 0 <= i < v.len() && v[i] == s2;
        assert(v[i1] == s1);
        assert(v[i2] == s2);
    }

    /// Removes the edge `s -> t` from the forward index alone, dropping `s`'s
    /// entry when it empties. The backward index is untouched.
    fn fwd_remove_target(&mut self, s: u64, t: u64)
        requires
            old(self).entries_ok(),
            old(self).config_ok(),
            old(self).has_edge(s, t),
        ensures
            final(self).entries_ok(),
            final(self).config_ok(),
            final(self).same_kind(*old(self)),
            final(self).bwd == old(self).bwd,
            forall|a: u64, b: u64|
                #[trigger] final(self).has_edge(a, b) <==> (old(self).has_edge(a, b) && !(a == s
                    && b == t)),
            forall|a: u64, b: u64|
                #[trigger] final(self).has_edge(a, b) ==> final(self).edge_data(a, b) == old(self).edge_data(a, b),
            forall|x: u64|
                x != s ==> (#[trigger] final(self).fwd@.contains_key(x) == old(self).fwd@.contains_key(x) && (old(self).fwd@.contains_key(x) ==> final(self).fwd@[x]
                    == old(self).fwd@[x])),
            final(self).fwd@.contains_key(s) <==> old(self).fwd@[s]@.len() > 1,
            old(self).is_acyclic() ==> forall|x: u64|
                #[trigger] final(self).walk_step(x) == old(self).walk_step(x) || final(self).walk_step(x) is None,
    {
        let ghost pre = *self;
        let mut v = self.fwd.remove(&s).unwrap();
        let idx_opt = find_target(&v, t);
        proof {
            assert(v@ == pre.fwd@[s]@);
            assert(seq_has_target(v@, t));
        }
        let i = idx_opt.unwrap();
        if v.len() == 1 {
            proof {
                assert(self.fwd@ == pre.fwd@.remove(s));
                assert forall|b: u64| !(#[trigger] seq_has_target(v@, b) && b != t) by {
                    if seq_has_target(v@, b) {
                        let j = choose|j: int| 0 <= j < v@.len() && v@[j].1 == b;
                        assert(j == i as int);
                    }
                }
            }
        } else {
            let ghost v1 = v@;
            v.swap_remove(i);
            proof {
                lemma_swap_remove_targets(v1, i as int, t);
            }
            self.fwd.insert(s, v);
        }
        proof {
            if pre.is_acyclic() {
                assert forall|x: u64|
                    #[trigger] self.walk_step(x) == pre.walk_step(x) || self.walk_step(
                        x,
                    ) is None by {
                    if pre.target_many {
                        assert(!pre.source_many);
                        if x == s {
                            assert(pre.fwd@[s]@.len() <= 1);
                            assert(!self.fwd@.contains_key(s));
                        }
                    }
                }
            }
        }
    }

    /// Removes source `s` from target `t`'s backward entry alone, dropping the
    /// entry when it empties. The forward index is untouched.
    fn bwd_remove_source(&mut self, t: u64, s: u64)
        requires
            old(self).entries_ok(),
            old(self).config_ok(),
            old(self).in_backward(s, t),
        ensures
            final(self).entries_ok(),
            final(self).config_ok(),
            final(self).same_kind(*old(self)),
            final(self).fwd == old(self).fwd,
            forall|a: u64, b: u64|
                #[trigger] final(self).in_backward(a, b) <==> (old(self).in_backward(a, b) && !(a
                    == s && b == t)),
            forall|x: u64|
                x != t ==> (#[trigger] final(self).bwd@.contains_key(x) == old(self).bwd@.contains_key(x) && (old(self).bwd@.contains_key(x) ==> final(self).bwd@[x]
                    == old(self).bwd@[x])),
            final(self).bwd@.contains_key(t) <==> old(self).bwd@[t]@.len() > 1,
            old(self).is_acyclic() ==> forall|x: u64|
                #[trigger] final(self).walk_step(x) == old(self).walk_step(x) || final(self).walk_step(x) is None,
    {
        let ghost pre = *self;
        let mut v = self.bwd.remove(&t).unwrap();
        let idx_opt = find_source(&v, s);
        proof {
            assert(v@ == pre.bwd@[t]@);
        }
        let i = idx_opt.unwrap();
        if v.len() == 1 {
            proof {
                assert(self.bwd@ == pre.bwd@.remove(t));
                assert forall|a: u64| !(#[trigger] v@.contains(a) && a != s) by {
                    if v@.contains(a) {
                        let j = choose|j: int| 0 <= j < v@.len() && v@[j] == a;
                        assert(j == i as int);
                    }
                }
            }
        } else {
            let ghost v1 = v@;
            v.swap_remove(i);
            proof {
                lemma_swap_remove_sources(v1, i as int, s);
            }
            self.bwd.insert(t, v);
        }
        proof {
            if pre.is_acyclic() {
                assert forall|x: u64|
                    #[trigger] self.walk_step(x) == pre.walk_step(x) || self.walk_step(
                        x,
                    ) is None by {
                    if !pre.target_many {
                        if x == t {
                            assert(pre.bwd@[t]@.len() <= 1);
                            assert(!self.bwd@.contains_key(t));
                        }
                    }
                }
            }
        }
    }

    /// One step of the deterministic chain as it would run after inserting
    /// `s -> t`: the new edge is taken, an edge evicted by it is gone, and
    /// everything else steps as in the current store.
    pub closed spec fn sim_step(self, s: u64, t: u64, x: u64) -> Option<u64> {
        if !self.target_many {
            if x == t {
                Some(s)
            } else if !self.source_many && self.fwd@.contains_key(s) && self.fwd@[s]@[0].1 == x {
                None
            } else {
                self.walk_step(x)
            }
        } else {
            if x == s {
                Some(t)
            } else {
                self.walk_step(x)
            }
        }
    }

    /// The post-insertion chain as a successor function.
    pub closed spec fn sim_fn(self, s: u64, t: u64) -> spec_fn(u64) -> Option<u64> {
        |x: u64| self.sim_step(s, t, x)
    }

    /// Inserting `s -> t` would close a cycle along the deterministic chain.
    pub closed spec fn insert_would_cycle(self, s: u64, t: u64) -> bool {
        !fn_acyclic(self.sim_fn(s, t))
    }

    /// Cycle rejection, length one: under an `Acyclic` kind a self-loop is
    /// always refused.
    pub proof fn lemma_self_loop_rejected(self, s: u64)
        requires
            self.wf(),
            self.is_acyclic(),
        ensures
            self.insert_would_cycle(s, s),
    {
        let simf = self.sim_fn(s, s);
        assert(simf(s) == self.sim_step(s, s, s));
        assert(simf(s) == Some(s));
        assert(iterate(simf, s, 0) == Some(s));
        assert(iterate(simf, s, 1) == Some(s));
        assert(!fn_acyclic(simf)) by {
            if fn_acyclic(simf) {
                assert(iterate(simf, s, 1) != Some(s));
            }
        }
    }

    /// Cycle rejection, length two: under an `Acyclic` kind, inserting
    /// `source -> target` while `target -> source` stands is refused.
    pub proof fn lemma_two_cycle_rejected(self, source: u64, target: u64)
        requires
            self.wf(),
            self.is_acyclic(),
            source != target,
            self.has_edge(target, source),
        ensures
            self.insert_would_cycle(source, target),
    {
        let simf = self.sim_fn(source, target);
        assert(simf(source) == self.sim_step(source, target, source));
        assert(simf(target) == self.sim_step(source, target, target));
        if !self.target_is_many() {
            assert(simf(target) == Some(source));
            assert(self.in_backward(target, source));
            let v = self.bwd@[source]@;
            assert(v.len() <= 1);
            let j = choose|j: int| 0 <= j < v.len() && v[j] == target;
            assert(j == 0);
            assert(self.walk_step(source) == Some(target));
            assert(!(!self.source_is_many() && self.fwd@.contains_key(source)
                && self.fwd@[source]@[0].1 == source)) by {
                if !self.source_is_many() && self.fwd@.contains_key(source)
                    && self.fwd@[source]@[0].1 == source {
                    let w = self.fwd@[source]@;
                    assert(w[0].1 == source);
                    assert(seq_has_target(w, source));
                    assert(self.has_edge(source, source));
                    assert(self.in_backward(source, source));
                    let u = self.bwd@[source]@;
                    let j2 = choose|j2: int| 0 <= j2 < u.len() && u[j2] == source;
                    assert(j2 == 0);
                    assert(self.walk_step(source) == Some(source));
                    assert(iterate(self.walk_fn(), source, 1) == Some(source));
                    assert((self.walk_fn())(source) == self.walk_step(source));
                    assert(false);
                }
            }
            assert(simf(source) == Some(target));
        } else {
            assert(simf(source) == Some(target));
            assert(!self.source_is_many());
            let v = self.fwd@[target]@;
            assert(v.len() <= 1);
            let j = target_index(v, source);
            assert(0 <= j < v.len() && v[j].1 == source);
            assert(j == 0);
            assert(self.walk_step(target) == Some(source));
            assert(simf(target) == Some(source));
        }
        assert(iterate(simf, source, 0) == Some(source));
        assert(iterate(simf, source, 1) == simf(source));
        assert(iterate(simf, source, 1) == Some(target));
        assert(iterate(simf, source, 2) == simf(target));
        assert(iterate(simf, source, 2) == Some(source));
        assert(!fn_acyclic(simf)) by {
            if fn_acyclic(simf) {
                assert(iterate(simf, source, 2) != Some(source));
            }
        }
    }

    /// One executable step of the simulated post-insertion chain.
    fn sim_next(&self, s: u64, t: u64, x: u64) -> (r: Option<u64>)
        requires
            self.entries_ok(),
        ensures
            r == self.sim_step(s, t, x),
    {
        if !self.target_many {
            if x == t {
                return Some(s);
            }
            if !self.source_many {
                if let Some(v) = self.fwd.get(&s) {
                    if v[0].1 == x {
                        return None;
                    }
                }
            }
            match self.bwd.get(&x) {
                Some(v) => Some(v[0]),
                None => None,
            }
        } else {
            if x == s {
                return Some(t);
            }
            match self.fwd.get(&x) {
                Some(v) => Some(v[0].1),
                None => None,
            }
        }
    }

    /// Walks the simulated chain from `s` and reports whether it returns to
    /// `s`, which is exactly when inserting `s -> t` would close a cycle.
    #[verifier::loop_isolation(false)]
    fn detect_cycle(&self, s: u64, t: u64) -> (b: bool)
        requires
            self.wf(),
            self.is_acyclic(),
        ensures
            b == self.insert_would_cycle(s, t),
    {
        let ghost g = self.sim_fn(s, t);
        let ghost f = self.walk_fn();
        let ghost p: u64 = if !self.target_many {
            t
        } else {
            s
        };
        let ghost q: u64 = if !self.target_many {
            s
        } else {
            t
        };
        proof {
            assert(g(p) == self.sim_step(s, t, p));
            assert(g(p) == Some(q));
            assert forall|y: u64| y != p && #[trigger] g(y) is Some implies g(y) == f(y) by {
                assert(g(y) == self.sim_step(s, t, y));
                assert(f(y) == self.walk_step(y));
            }
            crate::cyclicity::lemma_cycle_at_new_edge(f, g, p, q);
            assert(s == p || s == q);
            assert(!fn_acyclic(g) <==> exists|n: nat| 1 <= n && iterate(g, s, n) == Some(s));
            assert forall|x: u64| #[trigger] g(x) is Some implies (x == p || (if !self.target_many {
                self.bwd@.contains_key(x)
            } else {
                self.fwd@.contains_key(x)
            })) by {
                assert(g(x) == self.sim_step(s, t, x));
            }
        }
        let bound: usize = if !self.target_many {
            self.bwd.len()
        } else {
            self.fwd.len()
        };
        let ghost dom = if !self.target_many {
            self.bwd@.dom()
        } else {
            self.fwd@.dom()
        };
        proof {
            assert(dom.finite());
            assert(dom.len() == bound);
        }
        let mut cur: u64 = s;
        let ghost mut visited: Seq<u64> = seq![s];
        loop
            invariant
                visited.len() >= 1,
                visited[0] == s,
                cur == visited.last(),
                forall|j: int|
                    0 <= j < visited.len() ==> iterate(g, s, j as nat) == Some(visited[j]),
                forall|j: int| 1 <= j < visited.len() ==> visited[j] != s,
                visited.no_duplicates(),
                visited.len() <= bound + 2,
            decreases bound + 2 - visited.len(),
        {
            let next = self.sim_next(s, t, cur);
            let ghost steps = (visited.len() - 1) as nat;
            proof {
                assert(iterate(g, s, steps) == Some(cur));
                assert(g(cur) == self.sim_step(s, t, cur));
                assert(iterate(g, s, steps + 1) == g(cur));
            }
            match next {
                None => {
                    proof {
                        assert(iterate(g, s, steps + 1) is None);
                        assert forall|n: nat| 1 <= n implies iterate(g, s, n) != Some(s) by {
                            if n < visited.len() {
                                assert(iterate(g, s, n) == Some(visited[n as int]));
                            } else {
                                crate::cyclicity::lemma_iterate_none(g, s, steps + 1, n);
                            }
                        }
                        assert(fn_acyclic(g));
                    }
                    return false;
                },
                Some(nx) => {
                    if nx == s {
                        proof {
                            assert(iterate(g, s, steps + 1) == Some(s));
                            assert(!fn_acyclic(g)) by {
                                if fn_acyclic(g) {
                                    assert(iterate(g, s, steps + 1) != Some(s));
                                }
                            }
                        }
                        return true;
                    }
                    proof {
                        if visited.contains(nx) {
                            let j = choose|j: int| 0 <= j < visited.len() && visited[j] == nx;
                            assert(j >= 1);
                            let m = (visited.len() - j) as nat;
                            crate::cyclicity::lemma_iterate_add(g, s, j as nat, m);
                            assert(iterate(g, nx, m) == Some(nx));
                            crate::cyclicity::lemma_cycle_passes(f, g, p, q, nx, m);
                            assert(exists|jj: nat| jj < m && iterate(g, nx, jj) == Some(s));
                            let j2 = choose|jj: nat| jj < m && iterate(g, nx, jj) == Some(s);
                            crate::cyclicity::lemma_iterate_add(g, s, j as nat, j2);
                            assert(iterate(g, s, j as nat + j2) == Some(s));
                            assert(j as nat + j2 < visited.len());
                            assert(1 <= j as nat + j2);
                            let k: int = j + j2 as int;
                            assert(iterate(g, s, k as nat) == Some(visited[k]));
                            assert(visited[k] != s);
                            assert(false);
                        }
                        let carrier = dom.insert(p);
                        assert forall|k: int|
                            0 <= k < visited.len() implies carrier.contains(visited[k]) by {
                            if k < visited.len() - 1 {
                                assert(iterate(g, s, (k + 1) as nat) == Some(visited[k + 1]));
                                assert(iterate(g, s, (k + 1) as nat) == g(visited[k]));
                            } else {
                                assert(visited[k] == cur);
                            }
                            assert(g(visited[k]) is Some);
                        }
                        visited.unique_seq_to_set();
                        assert(visited.to_set().subset_of(carrier));
                        vstd::set_lib::lemma_len_subset(visited.to_set(), carrier);
                        vstd::set::axiom_set_insert_len(dom, p);
                        assert(visited.len() <= bound + 1);
                        visited = visited.push(nx);
                    }
                    cur = nx;
                },
            }
        }
    }

    /// Removes the edge `source -> target` from both indices, cleaning up
    /// entries that become empty. Returns whether the edge existed; removing
    /// an absent edge is a no-op.
    pub fn remove_edge(&mut self, source: u64, target: u64) -> (removed: bool)
        requires
            old(self).wf(),
        ensures
            final(self).wf(),
            final(self).same_kind(*old(self)),
            removed == old(self).has_edge(source, target),
            forall|a: u64, b: u64|
                #[trigger] final(self).has_edge(a, b) <==> (old(self).has_edge(a, b) && !(a
                    == source && b == target)),
            forall|a: u64, b: u64|
                #[trigger] final(self).has_edge(a, b) ==> final(self).edge_data(a, b) == old(self).edge_data(a, b),
    {
        let ghost pre = *self;
        let present = self.contains_edge(source, target);
        if !present {
            return false;
        }
        self.fwd_remove_target(source, target);
        let ghost mid = *self;
        proof {
            assert(pre.in_backward(source, target));
            assert(mid.in_backward(source, target));
        }
        self.bwd_remove_source(target, source);
        proof {
            assert forall|a: u64, b: u64|
                #[trigger] self.has_edge(a, b) <==> (pre.has_edge(a, b) && !(a == source && b
                    == target)) by {
                assert(self.has_edge(a, b) == mid.has_edge(a, b));
                assert(mid.has_edge(a, b) <==> (pre.has_edge(a, b) && !(a == source && b
                    == target)));
            }
            assert forall|a: u64, b: u64|
                #[trigger] self.has_edge(a, b) implies self.edge_data(a, b) == pre.edge_data(
                a,
                b,
            ) by {
                assert(self.has_edge(a, b) == mid.has_edge(a, b));
                assert(self.edge_data(a, b) == mid.edge_data(a, b));
            }
            assert forall|a: u64, b: u64| #[trigger] self.has_edge(a, b) <==> #[trigger] self
                .in_backward(a, b) by {
                assert(mid.in_backward(a, b) == pre.in_backward(a, b));
                assert(self.in_backward(a, b) <==> (pre.in_backward(a, b) && !(a == source && b
                    == target)));
            }
            if pre.is_acyclic() {
                let f = pre.walk_fn();
                let g = self.walk_fn();
                assert forall|y: u64| #[trigger] g(y) is Some implies g(y) == f(y) by {
                    assert(g(y) == self.walk_step(y));
                    assert(f(y) == pre.walk_step(y));
                    assert(mid.walk_step(y) == pre.walk_step(y) || mid.walk_step(y) is None);
                    assert(self.walk_step(y) == mid.walk_step(y) || self.walk_step(y) is None);
                }
                crate::cyclicity::lemma_sub_fn_acyclic(f, g);
            }
        }
        true
    }


    /// Inserts (or updates) the edge `source -> target` carrying `data`,
    /// evicting edges displaced by a `One` restriction and cleaning their
    /// mirror entries. Under an `Acyclic` kind an insertion that would close
    /// a cycle is rejected with [`RelationError::CycleViolation`] before any
    /// index is touched, and exactly then.
    /// Places the edge `source -> target` carrying `data` into the forward
    /// index alone, returning the previous target displaced by a
    /// `One`-restricted source, if any. The backward index is untouched.
    fn fwd_place(&mut self, source: u64, data: P, target: u64) -> (evicted: Option<u64>)
        requires
            old(self).entries_ok(),
            old(self).config_ok(),
        ensures
            final(self).entries_ok(),
            final(self).config_ok(),
            final(self).same_kind(*old(self)),
            final(self).bwd == old(self).bwd,
            forall|a: u64, b: u64|
                #[trigger] final(self).has_edge(a, b) <==> ((a == source && b == target) || (old(self).has_edge(a, b) && !(a == source && !old(self).source_is_many() && b
                    != target))),
            final(self).edge_data(source, target) == data,
            forall|a: u64, b: u64|
                !(a == source && b == target) && #[trigger] final(self).has_edge(a, b) ==> final(self).edge_data(a, b) == old(self).edge_data(a, b),
            match evicted {
                Some(et) => !old(self).source_is_many() && old(self).has_edge(source, et) && et
                    != target && old(self).fwd@.contains_key(source) && old(self).fwd@[source]@[0].1 == et,
                None => !old(self).source_is_many() ==> forall|b: u64|
                    #[trigger] old(self).has_edge(source, b) ==> b == target,
            },
            forall|x: u64|
                x != source ==> (#[trigger] final(self).fwd@.contains_key(x) == old(self).fwd@.contains_key(x) && (old(self).fwd@.contains_key(x) ==> final(self).fwd@[x]
                    == old(self).fwd@[x])),
            final(self).fwd@.contains_key(source),
            !old(self).source_is_many() ==> final(self).fwd@[source]@ =~= seq![(data, target)],
    {
        let ghost pre = *self;
        let mut evicted: Option<u64> = None;
        match self.fwd.remove(&source) {
            None => {
                let mut v: Vec<(P, u64)> = Vec::new();
                v.push((data, target));
                proof {
                    lemma_singleton_target(v@, data, target);
                }
                self.fwd.insert(source, v);
            },
            Some(mut v) => {
                proof {
                    assert(v@ == pre.fwd@[source]@);
                }
                if !self.source_many {
                    let old_t = v[0].1;
                    proof {
                        assert(v@.len() == 1);
                        assert forall|b: u64| #[trigger] seq_has_target(v@, b) implies b
                            == old_t by {
                            let j = choose|j: int| 0 <= j < v@.len() && v@[j].1 == b;
                            assert(j == 0);
                        }
                    }
                    v.clear();
                    v.push((data, target));
                    proof {
                        lemma_singleton_target(v@, data, target);
                    }
                    self.fwd.insert(source, v);
                    if old_t != target {
                        evicted = Some(old_t);
                    }
                } else {
                    let ghost v1 = v@;
                    match find_target(&v, target) {
                        Some(i) => {
                            v[i] = (data, target);
                            proof {
                                lemma_update_target(v1, i as int, data, target);
                            }
                        },
                        None => {
                            v.push((data, target));
                            proof {
                                lemma_push_target(v1, data, target);
                            }
                        },
                    }
                    self.fwd.insert(source, v);
                }
            },
        }
        evicted
    }

    /// Records `source` in `target`'s backward entry alone, returning the
    /// previous source displaced by a `One`-restricted target, if any. The
    /// forward index is untouched.
    fn bwd_place(&mut self, source: u64, target: u64) -> (evicted_src: Option<u64>)
        requires
            old(self).entries_ok(),
            old(self).config_ok(),
        ensures
            final(self).entries_ok(),
            final(self).config_ok(),
            final(self).same_kind(*old(self)),
            final(self).fwd == old(self).fwd,
            forall|a: u64, b: u64|
                #[trigger] final(self).in_backward(a, b) <==> ((a == source && b == target) || (
                old(self).in_backward(a, b) && !(b == target && !old(self).target_is_many() && a
                    != source))),
            match evicted_src {
                Some(es) => !old(self).target_is_many() && old(self).in_backward(es, target)
                    && es != source,
                None => !old(self).target_is_many() ==> forall|a: u64|
                    #[trigger] old(self).in_backward(a, target) ==> a == source,
            },
            forall|x: u64|
                x != target ==> (#[trigger] final(self).bwd@.contains_key(x) == old(self).bwd@.contains_key(x) && (old(self).bwd@.contains_key(x) ==> final(self).bwd@[x]
                    == old(self).bwd@[x])),
            final(self).bwd@.contains_key(target),
            !old(self).target_is_many() ==> final(self).bwd@[target]@ =~= seq![source],
    {
        let ghost pre = *self;
        let mut evicted_src: Option<u64> = None;
        match self.bwd.remove(&target) {
            None => {
                let mut w: Vec<u64> = Vec::new();
                w.push(source);
                proof {
                    assert(w@ =~= seq![source]);
                    assert forall|a: u64| #[trigger] w@.contains(a) implies a == source by {
                        let j = choose|j: int| 0 <= j < w@.len() && w@[j] == a;
                        assert(j == 0);
                    }
                    assert(w@[0] == source);
                }
                self.bwd.insert(target, w);
            },
            Some(mut w) => {
                proof {
                    assert(w@ == pre.bwd@[target]@);
                }
                if !self.target_many {
                    let old_s = w[0];
                    proof {
                        assert(w@.len() == 1);
                        assert forall|a: u64| #[trigger] w@.contains(a) implies a == old_s by {
                            let j = choose|j: int| 0 <= j < w@.len() && w@[j] == a;
                            assert(j == 0);
                        }
                        assert(w@[0] == old_s);
                    }
                    if old_s == source {
                        self.bwd.insert(target, w);
                    } else {
                        w.clear();
                        w.push(source);
                        proof {
                            assert(w@ =~= seq![source]);
                            assert forall|a: u64| #[trigger] w@.contains(a) implies a
                                == source by {
                                let j = choose|j: int| 0 <= j < w@.len() && w@[j] == a;
                                assert(j == 0);
                            }
                            assert(w@[0] == source);
                        }
                        self.bwd.insert(target, w);
                        evicted_src = Some(old_s);
                    }
                } else {
                    let ghost w1 = w@;
                    match find_source(&w, source) {
                        Some(_) => {},
                        None => {
                            w.push(source);
                            proof {
                                lemma_push_source(w1, source);
                            }
                        },
                    }
                    self.bwd.insert(target, w);
                }
            },
        }
        evicted_src
    }

    /// What a successful insertion of `(source, data, target)` does to the
    /// graph: the edge is present carrying `data`; a `One`-restricted source
    /// loses any other outgoing edge and a `One`-restricted target loses any
    /// other incoming edge; every other edge and payload is untouched.
    pub open spec fn insert_ok_rel(pre: Self, post: Self, source: u64, data: P, target: u64) -> bool {
        &&& post.same_kind(pre)
        &&& post.has_edge(source, target)
        &&& post.edge_data(source, target) == data
        &&& forall|a: u64, b: u64|
            !(a == source && b == target) ==> (#[trigger] post.has_edge(a, b) <==> (pre.has_edge(
                a,
                b,
            ) && !(a == source && !pre.source_is_many()) && !(b == target
                && !pre.target_is_many())))
        &&& forall|a: u64, b: u64|
            !(a == source && b == target) && #[trigger] post.has_edge(a, b) ==> post.edge_data(
                a,
                b,
            ) == pre.edge_data(a, b)
    }

    /// Inserts (or updates) the edge `source -> target` carrying `data`,
    /// evicting edges displaced by a `One` restriction and cleaning their
    /// mirror entries. Under an `Acyclic` kind an insertion that would close
    /// a cycle is rejected with [`RelationError::CycleViolation`] before any
    /// index is touched, and exactly then.
    pub fn insert_edge(&mut self, source: u64, data: P, target: u64) -> (r: Result<
        (),
        RelationError,
    >)
        requires
            old(self).wf(),
        ensures
            final(self).wf(),
            match r {
                Ok(()) => Self::insert_ok_rel(*old(self), *final(self), source, data, target),
                Err(e) => e == RelationError::CycleViolation && *final(self) == *old(self),
            },
            r is Err <==> (old(self).is_acyclic() && old(self).insert_would_cycle(
                source,
                target,
            )),
    {
        let ghost pre = *self;
        if self.acyclic {
            if self.detect_cycle(source, target) {
                return Err(RelationError::CycleViolation);
            }
        }

        let evicted = self.fwd_place(source, data, target);
        let ghost mid1 = *self;

        // A displaced target loses its mirror: `source` leaves its backward
        // entry.
        if evicted.is_some() {
            let et = evicted.unwrap();
            proof {
                assert(pre.in_backward(source, et));
                assert(self.in_backward(source, et) == pre.in_backward(source, et));
            }
            self.bwd_remove_source(et, source);
        }
        let ghost mid2 = *self;
        proof {
            assert(mid2.fwd == mid1.fwd);
            assert forall|a: u64, b: u64|
                #[trigger] mid2.in_backward(a, b) <==> (pre.in_backward(a, b) && !(evicted is Some
                    && a == source && b == evicted->Some_0)) by {
                if evicted is Some {
                    assert(mid2.in_backward(a, b) <==> (mid1.in_backward(a, b) && !(a == source
                        && b == evicted->Some_0)));
                    assert(mid1.in_backward(a, b) == pre.in_backward(a, b));
                } else {
                    assert(mid2.in_backward(a, b) == pre.in_backward(a, b));
                }
            }
        }

        let evicted_src = self.bwd_place(source, target);
        let ghost mid3 = *self;

        // A displaced source loses its mirror: `target` leaves its forward
        // entry.
        if evicted_src.is_some() {
            let es = evicted_src.unwrap();
            proof {
                assert(mid2.in_backward(es, target));
                assert(pre.in_backward(es, target));
                assert(pre.has_edge(es, target));
                assert(mid1.has_edge(es, target));
                assert(self.has_edge(es, target) == mid1.has_edge(es, target));
            }
            self.fwd_remove_target(es, target);
        }
        proof {
            let post = *self;
            assert(post.bwd == mid3.bwd);
            assert forall|a: u64, b: u64|
                #[trigger] post.has_edge(a, b) <==> (mid1.has_edge(a, b) && !(evicted_src is Some
                    && a == evicted_src->Some_0 && b == target)) by {
                if evicted_src is Some {
                    assert(post.has_edge(a, b) <==> (mid3.has_edge(a, b) && !(a
                        == evicted_src->Some_0 && b == target)));
                    assert(mid3.has_edge(a, b) == mid1.has_edge(a, b));
                } else {
                    assert(post.has_edge(a, b) == mid1.has_edge(a, b));
                }
            }
            assert(post.has_edge(source, target));
            assert(post.edge_data(source, target) == mid1.edge_data(source, target)) by {
                if evicted_src is Some {
                    assert(mid3.edge_data(source, target) == mid1.edge_data(source, target));
                    assert(mid3.has_edge(source, target));
                    assert(post.edge_data(source, target) == mid3.edge_data(source, target));
                }
            }

            // The joint edge characterization of a successful insertion.
            assert forall|a: u64, b: u64|
                !(a == source && b == target) implies (#[trigger] post.has_edge(a, b) <==> (
            pre.has_edge(a, b) && !(a == source && !pre.source_is_many()) && !(b == target
                && !pre.target_is_many()))) by {
                if post.has_edge(a, b) {
                    assert(mid1.has_edge(a, b));
                    assert(pre.has_edge(a, b));
                    if a == source && !pre.source_is_many() {
                        assert(false);
                    }
                    if b == target && !pre.target_is_many() {
                        assert(pre.in_backward(a, target));
                        assert(!(evicted is Some && a == source && target
                            == evicted->Some_0)) by {
                            if evicted is Some {
                                assert(evicted->Some_0 != target);
                            }
                        }
                        assert(mid2.in_backward(a, target));
                        if evicted_src is Some {
                            assert(a != evicted_src->Some_0);
                            assert(false);
                        } else {
                            assert(a == source);
                            assert(false);
                        }
                    }
                } else {
                    if pre.has_edge(a, b) && !(a == source && !pre.source_is_many()) && !(b
                        == target && !pre.target_is_many()) {
                        assert(mid1.has_edge(a, b));
                        assert(evicted_src is Some && a == evicted_src->Some_0 && b == target);
                        assert(false);
                    }
                }
            }
            assert forall|a: u64, b: u64|
                !(a == source && b == target) && #[trigger] post.has_edge(a, b) implies post
                .edge_data(a, b) == pre.edge_data(a, b) by {
                assert(mid1.has_edge(a, b));
                if evicted_src is Some {
                    assert(mid3.edge_data(a, b) == mid1.edge_data(a, b));
                    assert(mid3.has_edge(a, b));
                    assert(post.edge_data(a, b) == mid3.edge_data(a, b));
                } else {
                    assert(post.edge_data(a, b) == mid1.edge_data(a, b));
                }
                assert(mid1.edge_data(a, b) == pre.edge_data(a, b));
            }

            // The two indices agree again.
            assert forall|a: u64, b: u64| #[trigger] post.has_edge(a, b) <==> #[trigger] post
                .in_backward(a, b) by {
                assert(post.in_backward(a, b) == mid3.in_backward(a, b));
                if post.has_edge(a, b) {
                    if a == source && b == target {
                        assert(mid3.in_backward(a, b));
                    } else {
                        assert(pre.has_edge(a, b));
                        assert(pre.in_backward(a, b));
                        assert(!(evicted is Some && a == source && b == evicted->Some_0)) by {
                            if evicted is Some && a == source && b == evicted->Some_0 {
                                assert(!pre.source_is_many());
                                assert(false);
                            }
                        }
                        assert(mid2.in_backward(a, b));
                        assert(!(b == target && !pre.target_is_many() && a != source)) by {
                            if b == target && !pre.target_is_many() && a != source {
                                assert(false);
                            }
                        }
                        assert(mid3.in_backward(a, b));
                    }
                } else {
                    if post.in_backward(a, b) {
                        if a == source && b == target {
                            assert(false);
                        } else {
                            assert(mid2.in_backward(a, b));
                            assert(pre.in_backward(a, b));
                            assert(pre.has_edge(a, b));
                            if a == source && !pre.source_is_many() {
                                assert(evicted is Some ==> b == evicted->Some_0);
                                assert(evicted is None ==> b == target);
                                assert(false);
                            }
                            assert(mid1.has_edge(a, b));
                            assert(evicted_src is Some && a == evicted_src->Some_0 && b
                                == target);
                            assert(!pre.target_is_many());
                            assert(a == source);
                            assert(false);
                        }
                    }
                }
            }
            assert(post.entries_ok());
            assert(post.config_ok());

            // An acyclic kind stays acyclic: the store now steps exactly as
            // the simulated chain the pre-check walked.
            if pre.is_acyclic() {
                let simf = pre.sim_fn(source, target);
                let postf = post.walk_fn();
                assert(fn_acyclic(simf));
                assert forall|x: u64| #[trigger] postf(x) == simf(x) by {
                    assert(postf(x) == post.walk_step(x));
                    assert(simf(x) == pre.sim_step(source, target, x));
                    if !pre.target_is_many() {
                        if x == target {
                            assert(post.bwd@[target]@ =~= seq![source]);
                            assert(post.walk_step(x) == Some(source));
                        } else if !pre.source_is_many() && pre.fwd@.contains_key(source)
                            && pre.fwd@[source]@[0].1 == x {
                            assert(evicted == Some(x)) by {
                                if evicted is None {
                                    assert(pre.fwd@[source]@.len() >= 1);
                                    assert(pre.fwd@[source]@[0].1 == x);
                                    assert(pre.has_edge(source, x));
                                    assert(x == target);
                                }
                            }
                            assert(pre.in_backward(source, x));
                            assert(pre.bwd@[x]@.len() <= 1);
                            assert(mid1.bwd@[x]@.len() <= 1);
                            assert(!mid2.bwd@.contains_key(x));
                            assert(!post.bwd@.contains_key(x));
                            assert(post.walk_step(x) is None);
                        } else {
                            assert(!(evicted is Some && x == evicted->Some_0)) by {
                                if evicted is Some && x == evicted->Some_0 {
                                    assert(!pre.source_is_many());
                                    assert(pre.fwd@.contains_key(source));
                                    assert(pre.fwd@[source]@[0].1 == evicted->Some_0);
                                    assert(false);
                                }
                            }
                            assert(mid2.bwd@.contains_key(x) == pre.bwd@.contains_key(x));
                            assert(pre.bwd@.contains_key(x) ==> mid2.bwd@[x] == pre.bwd@[x]);
                            assert(post.bwd@.contains_key(x) == mid2.bwd@.contains_key(x));
                            assert(mid2.bwd@.contains_key(x) ==> post.bwd@[x] == mid2.bwd@[x]);
                            assert(post.walk_step(x) == pre.walk_step(x));
                        }
                    } else {
                        assert(!pre.source_is_many());
                        assert(evicted_src is None);
                        if x == source {
                            assert(post.fwd@[source]@ =~= seq![(data, target)]);
                            assert(post.walk_step(x) == Some(target));
                        } else {
                            assert(post.fwd@.contains_key(x) == pre.fwd@.contains_key(x));
                            assert(pre.fwd@.contains_key(x) ==> post.fwd@[x] == pre.fwd@[x]);
                            assert(post.walk_step(x) == pre.walk_step(x));
                        }
                    }
                }
                crate::cyclicity::lemma_fn_congruent(postf, simf);
                assert(post.chain_acyclic());
            }
        }
        Ok(())
    }

    /// Reacts to the destruction of entity `e`: removes every edge touching
    /// `e` from both indices and returns the targets `e` owned through its
    /// forward entry. Under the ownership reading of forward edges those
    /// returned entities must be destroyed in turn; the caller drains them
    /// (or calls [`RelationStore::destroy_cascade`]). Sources that merely
    /// pointed at `e` lose that edge and are not scheduled.
    #[verifier::loop_isolation(false)]
    pub fn destroy_entity(&mut self, e: u64) -> (cascade: Vec<u64>)
        requires
            old(self).wf(),
        ensures
            final(self).wf(),
            final(self).same_kind(*old(self)),
            forall|a: u64, b: u64|
                #[trigger] final(self).has_edge(a, b) <==> (old(self).has_edge(a, b) && a != e
                    && b != e),
            forall|a: u64, b: u64|
                #[trigger] final(self).has_edge(a, b) ==> final(self).edge_data(a, b) == old(self).edge_data(a, b),
            forall|x: u64| #[trigger] cascade@.contains(x) <==> old(self).has_edge(e, x),
            cascade@.no_duplicates(),
            final(self).entry_count() <= old(self).entry_count(),
            old(self).participates(e) ==> final(self).entry_count() < old(self).entry_count(),
            !old(self).participates(e) ==> final(self).entry_count() == old(self).entry_count(),
            !final(self).participates(e),
    {
        let ghost pre = *self;
        let mut cascade: Vec<u64> = Vec::new();
        let fwd_entry = self.fwd.remove(&e);
        proof {
            assert(self.fwd@ == pre.fwd@.remove(e));
            if pre.is_acyclic() {
                assert forall|x: u64|
                    #[trigger] self.walk_step(x) == pre.walk_step(x) || self.walk_step(
                        x,
                    ) is None by {}
            }
        }
        match fwd_entry {
            None => {
                proof {
                    assert(!pre.fwd@.contains_key(e));
                    assert(forall|b: u64| !pre.has_edge(e, b));
                }
            },
            Some(edges) => {
                proof {
                    assert(pre.fwd@.contains_key(e));
                    assert(edges@ == pre.fwd@[e]@);
                }
                let n = edges.len();
                let mut i: usize = 0;
                while i < n
                    invariant
                        i <= n,
                        self.fwd@ == pre.fwd@.remove(e),
                        self.same_kind(pre),
                        self.entries_ok(),
                        self.config_ok(),
                        cascade@.len() == i,
                        forall|j: int| 0 <= j < i ==> cascade@[j] == edges@[j].1,
                        forall|a: u64, b: u64|
                            #[trigger] self.in_backward(a, b) <==> (pre.in_backward(a, b) && !(a
                                == e && b != e && seq_has_target(edges@.take(i as int), b))),
                        self.bwd@.dom().subset_of(pre.bwd@.dom()),
                        self.bwd@.contains_key(e) == pre.bwd@.contains_key(e),
                        pre.bwd@.contains_key(e) ==> self.bwd@[e] == pre.bwd@[e],
                        pre.is_acyclic() ==> forall|x: u64|
                            #[trigger] self.walk_step(x) == pre.walk_step(x) || self.walk_step(
                                x,
                            ) is None,
                    decreases n - i,
                {
                    let t = edges[i].1;
                    proof {
                        assert(edges@[i as int].1 == t);
                        assert(seq_has_target(edges@, t));
                        assert(pre.has_edge(e, t));
                        lemma_take_step_target(edges@, i as int);
                    }
                    if t != e {
                        proof {
                            assert(pre.in_backward(e, t));
                            assert(!seq_has_target(edges@.take(i as int), t)) by {
                                if seq_has_target(edges@.take(i as int), t) {
                                    let j = choose|j: int|
                                        0 <= j < i && edges@.take(i as int)[j].1 == t;
                                    assert(edges@[j].1 == t);
                                    assert(false);
                                }
                            }
                            assert(self.in_backward(e, t));
                        }
                        let ghost before = *self;
                        self.bwd_remove_source(t, e);
                        proof {
                            assert(self.bwd@.contains_key(e) == before.bwd@.contains_key(e));
                            assert(before.bwd@.contains_key(e) ==> self.bwd@[e]
                                == before.bwd@[e]);
                            assert forall|a: u64, b: u64|
                                #[trigger] self.in_backward(a, b) <==> (pre.in_backward(a, b)
                                    && !(a == e && b != e && seq_has_target(
                                    edges@.take(i as int + 1),
                                    b,
                                ))) by {
                                assert(self.in_backward(a, b) <==> (before.in_backward(a, b)
                                    && !(a == e && b == t)));
                            }
                        }
                    } else {
                        proof {
                            assert forall|a: u64, b: u64|
                                #[trigger] self.in_backward(a, b) <==> (pre.in_backward(a, b)
                                    && !(a == e && b != e && seq_has_target(
                                    edges@.take(i as int + 1),
                                    b,
                                ))) by {}
                        }
                    }
                    cascade.push(t);
                    i = i + 1;
                }
                proof {
                    assert(edges@.take(n as int) =~= edges@);
                    assert forall|x: u64| #[trigger] cascade@.contains(x) <==> pre.has_edge(
                        e,
                        x,
                    ) by {
                        if cascade@.contains(x) {
                            let j = choose|j: int| 0 <= j < cascade@.len() && cascade@[j] == x;
                            assert(edges@[j].1 == x);
                            assert(seq_has_target(edges@, x));
                        }
                        if pre.has_edge(e, x) {
                            let j = target_index(edges@, x);
                            assert(edges@[j].1 == x);
                            assert(cascade@[j] == x);
                        }
                    }
                    assert(cascade@.no_duplicates()) by {
                        assert forall|j1: int, j2: int|
                            0 <= j1 < j2 < cascade@.len() implies cascade@[j1] != cascade@[j2] by {
                            assert(cascade@[j1] == edges@[j1].1);
                            assert(cascade@[j2] == edges@[j2].1);
                        }
                    }
                }
            },
        }
        proof {
            assert forall|x: u64| #[trigger] cascade@.contains(x) <==> pre.has_edge(e, x) by {}
        }

        let ghost mid = *self;
        let bwd_entry = self.bwd.remove(&e);
        proof {
            assert(self.bwd@ == mid.bwd@.remove(e));
            assert(self.fwd@ == pre.fwd@.remove(e));
            assert forall|a: u64, b: u64|
                #[trigger] self.in_backward(a, b) <==> (pre.in_backward(a, b) && a != e && b
                    != e) by {
                if b != e {
                    assert(self.in_backward(a, b) == mid.in_backward(a, b));
                    if a == e && pre.in_backward(e, b) {
                        assert(pre.has_edge(e, b));
                        assert(pre.fwd@.contains_key(e));
                        assert(seq_has_target(pre.fwd@[e]@, b));
                    }
                }
            }
            if pre.is_acyclic() {
                assert forall|x: u64|
                    #[trigger] self.walk_step(x) == pre.walk_step(x) || self.walk_step(
                        x,
                    ) is None by {
                    assert(self.walk_step(x) == mid.walk_step(x) || (x == e && self.walk_step(
                        x,
                    ) is None) || self.walk_step(x) == mid.walk_step(x));
                    assert(mid.walk_step(x) == pre.walk_step(x) || mid.walk_step(x) is None);
                }
            }
        }
        let ghost mid2 = *self;
        match bwd_entry {
            None => {
                proof {
                    assert(!pre.bwd@.contains_key(e));
                    assert(forall|a: u64| !pre.in_backward(a, e));
                }
            },
            Some(srcs) => {
                proof {
                    assert(pre.bwd@.contains_key(e));
                    assert(srcs@ == pre.bwd@[e]@);
                    assert(srcs@.no_duplicates());
                }
                let n2 = srcs.len();
                let mut i: usize = 0;
                while i < n2
                    invariant
                        i <= n2,
                        self.bwd == mid2.bwd,
                        self.same_kind(pre),
                        self.entries_ok(),
                        self.config_ok(),
                        forall|a: u64, b: u64|
                            #[trigger] self.has_edge(a, b) <==> (pre.has_edge(a, b) && a != e
                                && !(b == e && srcs@.take(i as int).contains(a))),
                        forall|a: u64, b: u64|
                            #[trigger] self.has_edge(a, b) ==> self.edge_data(a, b)
                                == pre.edge_data(a, b),
                        self.fwd@.dom().subset_of(pre.fwd@.dom()),
                        !self.fwd@.contains_key(e),
                        pre.is_acyclic() ==> forall|x: u64|
                            #[trigger] self.walk_step(x) == pre.walk_step(x) || self.walk_step(
                                x,
                            ) is None,
                    decreases n2 - i,
                {
                    let s2 = srcs[i];
                    proof {
                        assert(srcs@[i as int] == s2);
                        assert(srcs@.contains(s2));
                        assert(pre.in_backward(s2, e));
                        assert(pre.has_edge(s2, e));
                        lemma_take_step_source(srcs@, i as int);
                    }
                    if s2 != e {
                        proof {
                            assert(!srcs@.take(i as int).contains(s2)) by {
                                if srcs@.take(i as int).contains(s2) {
                                    let j = choose|j: int|
                                        0 <= j < i && srcs@.take(i as int)[j] == s2;
                                    assert(srcs@[j] == s2);
                                    assert(false);
                                }
                            }
                            assert(self.has_edge(s2, e));
                        }
                        let ghost before = *self;
                        self.fwd_remove_target(s2, e);
                        proof {
                            assert forall|a: u64, b: u64|
                                #[trigger] self.has_edge(a, b) <==> (pre.has_edge(a, b) && a != e
                                    && !(b == e && srcs@.take(i as int + 1).contains(a))) by {
                                assert(self.has_edge(a, b) <==> (before.has_edge(a, b) && !(a
                                    == s2 && b == e)));
                            }
                            assert forall|a: u64, b: u64|
                                #[trigger] self.has_edge(a, b) implies self.edge_data(a, b)
                                    == pre.edge_data(a, b) by {
                                assert(before.has_edge(a, b));
                                assert(self.edge_data(a, b) == before.edge_data(a, b));
                            }
                            assert(!self.fwd@.contains_key(e));
                        }
                    } else {
                        proof {
                            assert forall|a: u64, b: u64|
                                #[trigger] self.has_edge(a, b) <==> (pre.has_edge(a, b) && a != e
                                    && !(b == e && srcs@.take(i as int + 1).contains(a))) by {}
                        }
                    }
                    i = i + 1;
                }
                proof {
                    assert(srcs@.take(n2 as int) =~= srcs@);
                }
            },
        }
        proof {
            assert forall|a: u64, b: u64|
                #[trigger] self.has_edge(a, b) <==> (pre.has_edge(a, b) && a != e && b != e) by {
                if pre.has_edge(a, b) && a != e && b == e {
                    assert(pre.in_backward(a, e));
                    assert(pre.bwd@.contains_key(e));
                    assert(pre.bwd@[e]@.contains(a));
                }
            }
            assert forall|a: u64, b: u64| #[trigger] self.has_edge(a, b) <==> #[trigger] self
                .in_backward(a, b) by {
                assert(self.in_backward(a, b) == mid2.in_backward(a, b));
                assert(mid2.in_backward(a, b) <==> (pre.in_backward(a, b) && a != e && b != e));
                assert(pre.has_edge(a, b) == pre.in_backward(a, b));
            }
            if pre.is_acyclic() {
                let f = pre.walk_fn();
                let g = self.walk_fn();
                assert forall|y: u64| #[trigger] g(y) is Some implies g(y) == f(y) by {
                    assert(g(y) == self.walk_step(y));
                    assert(f(y) == pre.walk_step(y));
                    assert(self.walk_step(y) == pre.walk_step(y) || self.walk_step(y) is None);
                }
                crate::cyclicity::lemma_sub_fn_acyclic(f, g);
            }

            // The entry count shrinks exactly when `e` participated.
            assert(self.fwd@.dom().subset_of(pre.fwd@.dom()));
            assert(self.bwd@.dom().subset_of(pre.bwd@.dom()));
            assert(!self.fwd@.contains_key(e));
            assert(!self.bwd@.contains_key(e));
            vstd::set_lib::lemma_len_subset(self.fwd@.dom(), pre.fwd@.dom());
            vstd::set_lib::lemma_len_subset(self.bwd@.dom(), pre.bwd@.dom());
            if pre.participates(e) {
                if pre.fwd@.contains_key(e) {
                    assert(self.fwd@.dom().subset_of(pre.fwd@.dom().remove(e)));
                    vstd::set_lib::lemma_len_subset(self.fwd@.dom(), pre.fwd@.dom().remove(e));
                    vstd::set::axiom_set_remove_len(pre.fwd@.dom(), e);
                } else {
                    assert(pre.bwd@.contains_key(e));
                    assert(self.bwd@.dom().subset_of(pre.bwd@.dom().remove(e)));
                    vstd::set_lib::lemma_len_subset(self.bwd@.dom(), pre.bwd@.dom().remove(e));
                    vstd::set::axiom_set_remove_len(pre.bwd@.dom(), e);
                }
            } else {
                assert(self.fwd@.dom() =~= pre.fwd@.dom());
                assert(self.bwd@.dom() =~= pre.bwd@.dom());
            }
        }
        cascade
    }

    /// Destroys `e` and, treating forward edges as ownership, every entity
    /// transitively forward-reachable from it, draining an explicit worklist
    /// rather than recursing. Returns the destroyed entities, `e` included;
    /// the host invalidates each returned handle. Entities that merely
    /// pointed at destroyed ones are cleaned up, not destroyed.
    #[verifier::loop_isolation(false)]
    pub fn destroy_cascade(&mut self, e: u64) -> (destroyed: Vec<u64>)
        requires
            old(self).wf(),
        ensures
            final(self).wf(),
            final(self).same_kind(*old(self)),
            destroyed@.no_duplicates(),
            destroyed@.contains(e),
            forall|a: u64, b: u64|
                destroyed@.contains(a) && #[trigger] old(self).has_edge(a, b)
                    ==> destroyed@.contains(b),
            forall|x: u64| #[trigger] destroyed@.contains(x) ==> old(self).fwd_reaches(e, x),
            forall|a: u64, b: u64|
                #[trigger] final(self).has_edge(a, b) <==> (old(self).has_edge(a, b)
                    && !destroyed@.contains(a) && !destroyed@.contains(b)),
            forall|a: u64, b: u64|
                #[trigger] final(self).has_edge(a, b) ==> final(self).edge_data(a, b) == old(self).edge_data(a, b),
    {
        let ghost pre = *self;
        let mut destroyed: Vec<u64> = Vec::new();
        let mut queue: Vec<u64> = Vec::new();
        queue.push(e);
        proof {
            assert(pre.reach_n(e, e, 0));
            assert(pre.fwd_reaches(e, e));
            assert(queue@.contains(e)) by {
                assert(queue@[0] == e);
            }
        }
        while queue.len() > 0
            invariant
                self.wf(),
                self.same_kind(pre),
                destroyed@.no_duplicates(),
                forall|a: u64, b: u64|
                    #[trigger] self.has_edge(a, b) <==> (pre.has_edge(a, b)
                        && !destroyed@.contains(a) && !destroyed@.contains(b)),
                forall|a: u64, b: u64|
                    #[trigger] self.has_edge(a, b) ==> self.edge_data(a, b) == pre.edge_data(
                        a,
                        b,
                    ),
                forall|a: u64, b: u64|
                    destroyed@.contains(a) && #[trigger] pre.has_edge(a, b) ==> (
                    destroyed@.contains(b) || queue@.contains(b)),
                forall|x: u64| #[trigger] queue@.contains(x) ==> pre.fwd_reaches(e, x),
                forall|x: u64| #[trigger] destroyed@.contains(x) ==> pre.fwd_reaches(e, x),
                destroyed@.contains(e) || queue@.contains(e),
            decreases self.entry_count(), queue@.len(),
        {
            let ghost full_queue = queue@;
            let x = queue.pop().unwrap();
            proof {
                assert(x == full_queue.last());
                assert(full_queue.contains(x)) by {
                    assert(full_queue[full_queue.len() - 1] == x);
                }
                assert(pre.fwd_reaches(e, x));
                assert forall|y: u64| #[trigger] queue@.contains(y) implies full_queue.contains(
                    y,
                ) by {
                    let j = choose|j: int| 0 <= j < queue@.len() && queue@[j] == y;
                    assert(full_queue[j] == y);
                }
                assert forall|y: u64| #[trigger] full_queue.contains(y) implies (queue@.contains(
                    y,
                ) || y == x) by {
                    let j = choose|j: int| 0 <= j < full_queue.len() && full_queue[j] == y;
                    if j < full_queue.len() - 1 {
                        assert(queue@[j] == y);
                    }
                }
            }
            if find_source(&destroyed, x).is_none() {
                let ghost prev_destroyed = destroyed@;
                destroyed.push(x);
                proof {
                    assert(!prev_destroyed.contains(x));
                    lemma_push_source(prev_destroyed, x);
                }
                let ghost before = *self;
                let mut casc = self.destroy_entity(x);
                let ghost casc_seq = casc@;
                let ghost prev_queue = queue@;
                queue.append(&mut casc);
                proof {
                    assert(queue@ == prev_queue + casc_seq);
                    assert forall|y: u64| #[trigger] queue@.contains(y) implies (
                    prev_queue.contains(y) || casc_seq.contains(y)) by {
                        let j = choose|j: int| 0 <= j < queue@.len() && queue@[j] == y;
                        if j < prev_queue.len() {
                            assert(prev_queue[j] == y);
                        } else {
                            assert(casc_seq[j - prev_queue.len()] == y);
                        }
                    }
                    assert forall|y: u64|
                        prev_queue.contains(y) || casc_seq.contains(y) implies #[trigger] queue@
                        .contains(y) by {
                        if prev_queue.contains(y) {
                            let j = choose|j: int| 0 <= j < prev_queue.len() && prev_queue[j]
                                == y;
                            assert(queue@[j] == y);
                        } else {
                            let j = choose|j: int| 0 <= j < casc_seq.len() && casc_seq[j] == y;
                            assert(queue@[j + prev_queue.len()] == y);
                        }
                    }
                    assert forall|y: u64| #[trigger] casc_seq.contains(y) implies pre
                        .fwd_reaches(e, y) by {
                        assert(before.has_edge(x, y));
                        assert(pre.has_edge(x, y));
                        pre.lemma_reaches_step(e, x, y);
                    }
                    // edge characterization with the grown set
                    assert forall|a: u64, b: u64|
                        #[trigger] self.has_edge(a, b) <==> (pre.has_edge(a, b)
                            && !destroyed@.contains(a) && !destroyed@.contains(b)) by {
                        assert(self.has_edge(a, b) <==> (before.has_edge(a, b) && a != x && b
                            != x));
                    }
                    // closure with the grown set
                    assert forall|a: u64, b: u64|
                        destroyed@.contains(a) && #[trigger] pre.has_edge(a, b) implies (
                    destroyed@.contains(b) || queue@.contains(b)) by {
                        if a == x {
                            if !destroyed@.contains(b) {
                                assert(!prev_destroyed.contains(b));
                                assert(b != x);
                                assert(before.has_edge(x, b));
                                assert(casc_seq.contains(b));
                            }
                        } else {
                            assert(prev_destroyed.contains(a));
                            if !destroyed@.contains(b) && !prev_queue.contains(b) {
                                assert(full_queue.contains(b));
                                assert(b == x);
                                assert(destroyed@.contains(b));
                            }
                        }
                    }
                    // the measure: either an entry vanished or the queue
                    // shrank with nothing appended
                    if !before.participates(x) {
                        assert(casc_seq.len() == 0) by {
                            if casc_seq.len() > 0 {
                                assert(casc_seq.contains(casc_seq[0]));
                                assert(before.has_edge(x, casc_seq[0]));
                            }
                        }
                        assert(queue@ =~= prev_queue);
                        assert(queue@.len() < full_queue.len());
                        assert(self.entry_count() == before.entry_count());
                    } else {
                        assert(self.entry_count() < before.entry_count());
                    }
                }
            }
        }
        proof {
            assert(queue@.len() == 0);
            assert forall|y: u64| !(#[trigger] queue@.contains(y)) by {
                if queue@.contains(y) {
                    let j = choose|j: int| 0 <= j < queue@.len() && queue@[j] == y;
                }
            }
        }
        destroyed
    }

    /// Whether the edge `source -> target` is currently present.
    pub fn contains_edge(&self, source: u64, target: u64) -> (b: bool)
        ensures
            b == self.has_edge(source, target),
    {
        match self.fwd.get(&source) {
            Some(v) => find_target(v, target).is_some(),
            None => false,
        }
    }

    /// The targets of `source`'s forward edges, with no duplicates, or
    /// `None` when the entity owns no edge of this kind (empty entries never
    /// linger). A fresh call yields a fresh, independent vector.
    pub fn forward_targets(&self, source: u64) -> (r: Option<Vec<u64>>)
        requires
            self.wf(),
        ensures
            match r {
                Some(v) => v@.len() >= 1 && v@.no_duplicates() && (forall|t: u64|
                    #[trigger] v@.contains(t) <==> self.has_edge(source, t)),
                None => forall|t: u64| !self.has_edge(source, t),
            },
    {
        match self.fwd.get(&source) {
            None => None,
            Some(entry) => {
                let n = entry.len();
                let mut out: Vec<u64> = Vec::new();
                let mut i: usize = 0;
                while i < n
                    invariant
                        i <= n,
                        n == entry@.len(),
                        out@.len() == i,
                        forall|j: int| 0 <= j < i ==> out@[j] == entry@[j].1,
                    decreases n - i,
                {
                    out.push(entry[i].1);
                    i = i + 1;
                }
                proof {
                    assert forall|t: u64| #[trigger] out@.contains(t) <==> seq_has_target(
                        entry@,
                        t,
                    ) by {
                        if out@.contains(t) {
                            let j = choose|j: int| 0 <= j < out@.len() && out@[j] == t;
                            assert(entry@[j].1 == t);
                        }
                        if seq_has_target(entry@, t) {
                            let j = choose|j: int| 0 <= j < entry@.len() && entry@[j].1 == t;
                            assert(out@[j] == t);
                        }
                    }
                    assert(out@.no_duplicates()) by {
                        assert forall|j1: int, j2: int|
                            0 <= j1 < j2 < out@.len() implies out@[j1] != out@[j2] by {
                            assert(out@[j1] == entry@[j1].1);
                            assert(out@[j2] == entry@[j2].1);
                        }
                    }
                    assert(out@.contains(entry@[0].1)) by {
                        assert(out@[0] == entry@[0].1);
                    }
                }
                Some(out)
            },
        }
    }

    /// The sources currently pointing at `target`, with no duplicates, or
    /// `None` when nothing points at it. A fresh call yields a fresh,
    /// independent vector.
    pub fn backward_sources(&self, target: u64) -> (r: Option<Vec<u64>>)
        requires
            self.wf(),
        ensures
            match r {
                Some(v) => v@.len() >= 1 && v@.no_duplicates() && (forall|s: u64|
                    #[trigger] v@.contains(s) <==> self.has_edge(s, target)),
                None => forall|s: u64| !self.has_edge(s, target),
            },
    {
        match self.bwd.get(&target) {
            None => {
                proof {
                    assert forall|s: u64| !(#[trigger] self.has_edge(s, target)) by {
                        assert(!self.in_backward(s, target));
                    }
                }
                None
            },
            Some(entry) => {
                let n = entry.len();
                let mut out: Vec<u64> = Vec::new();
                let mut i: usize = 0;
                while i < n
                    invariant
                        i <= n,
                        n == entry@.len(),
                        out@.len() == i,
                        forall|j: int| 0 <= j < i ==> out@[j] == entry@[j],
                    decreases n - i,
                {
                    out.push(entry[i]);
                    i = i + 1;
                }
                proof {
                    assert(out@ =~= entry@);
                    assert forall|s: u64| #[trigger] out@.contains(s) <==> self.has_edge(
                        s,
                        target,
                    ) by {
                        assert(out@.contains(s) == self.in_backward(s, target));
                    }
                    assert(out@.contains(entry@[0])) by {
                        assert(out@[0] == entry@[0]);
                    }
                }
                Some(out)
            },
        }
    }

    /// A shared reference to the payload carried by edge `source -> target`,
    /// if the edge is present.
    pub fn get_edge_data(&self, source: u64, target: u64) -> (r: Option<&P>)
        requires
            self.wf(),
        ensures
            r is Some <==> self.has_edge(source, target),
            r is Some ==> *r->Some_0 == self.edge_data(source, target),
    {
        match self.fwd.get(&source) {
            None => None,
            Some(entry) => {
                match find_target(entry, target) {
                    None => None,
                    Some(i) => {
                        proof {
                            assert(seq_has_target(entry@, target));
                            let jt = target_index(entry@, target);
                            assert(0 <= jt < entry@.len() && entry@[jt].1 == target);
                            assert(jt == i as int);
                        }
                        Some(&entry[i].0)
                    },
                }
            },
        }
    }

    /// Overwrites the payload carried by edge `source -> target`, leaving
    /// every edge — target identities included — exactly as it was; payload
    /// mutation is the only change a view-level writer may make, structural
    /// changes go through [`RelationStore::insert_edge`] and
    /// [`RelationStore::remove_edge`]. Returns whether the edge was present;
    /// on an absent edge the graph is unchanged.
    pub fn set_edge_data(&mut self, source: u64, target: u64, data: P) -> (updated: bool)
        requires
            old(self).wf(),
        ensures
            final(self).wf(),
            final(self).same_kind(*old(self)),
            updated == old(self).has_edge(source, target),
            forall|a: u64, b: u64|
                #[trigger] final(self).has_edge(a, b) == old(self).has_edge(a, b),
            updated ==> final(self).edge_data(source, target) == data,
            forall|a: u64, b: u64|
                !(a == source && b == target) && #[trigger] final(self).has_edge(a, b) ==> final(self).edge_data(a, b) == old(self).edge_data(a, b),
    {
        let ghost pre = *self;
        let updated: bool;
        match self.fwd.remove(&source) {
            None => {
                updated = false;
            },
            Some(mut v) => {
                proof {
                    assert(v@ == pre.fwd@[source]@);
                }
                let ghost v1 = v@;
                match find_target(&v, target) {
                    None => {
                        updated = false;
                    },
                    Some(i) => {
                        v[i] = (data, target);
                        proof {
                            lemma_update_target(v1, i as int, data, target);
                        }
                        updated = true;
                    },
                }
                self.fwd.insert(source, v);
            },
        }
        proof {
            assert forall|a: u64, b: u64|
                #[trigger] self.has_edge(a, b) == pre.has_edge(a, b) by {}
            assert forall|a: u64, b: u64| #[trigger] self.has_edge(a, b) <==> #[trigger] self
                .in_backward(a, b) by {
                assert(self.in_backward(a, b) == pre.in_backward(a, b));
            }
            if pre.is_acyclic() {
                let f = pre.walk_fn();
                let g = self.walk_fn();
                assert forall|x: u64| #[trigger] g(x) == f(x) by {
                    assert(g(x) == self.walk_step(x));
                    assert(f(x) == pre.walk_step(x));
                }
                crate::cyclicity::lemma_fn_congruent(f, g);
            }
        }
        updated
    }

    /// The idempotence law: inserting an edge that is already present with
    /// the same payload leaves every edge and payload exactly as it was, so
    /// inserting `(source, data, target)` twice yields the graph of
    /// inserting it once.
    pub proof fn lemma_insert_idempotent(pre: Self, post: Self, source: u64, data: P, target: u64)
        requires
            pre.wf(),
            pre.has_edge(source, target),
            pre.edge_data(source, target) == data,
            Self::insert_ok_rel(pre, post, source, data, target),
        ensures
            forall|a: u64, b: u64| #[trigger] post.has_edge(a, b) == pre.has_edge(a, b),
            forall|a: u64, b: u64|
                #[trigger] post.has_edge(a, b) ==> post.edge_data(a, b) == pre.edge_data(a, b),
    {
        assert forall|a: u64, b: u64| #[trigger] post.has_edge(a, b) == pre.has_edge(a, b) by {
            if !(a == source && b == target) && pre.has_edge(a, b) {
                if a == source && !pre.source_is_many() {
                    pre.lemma_source_one_unique(source, b, target);
                }
                if b == target && !pre.target_is_many() {
                    pre.lemma_target_one_unique(a, source, target);
                }
            }
        }
    }

    /// Re-inserting an edge that is already present never trips the cycle
    /// guard: the simulated chain is the chain the store already walks
    /// without a cycle.
    pub proof fn lemma_reinsert_no_cycle(self, source: u64, target: u64)
        requires
            self.wf(),
            self.is_acyclic(),
            self.has_edge(source, target),
        ensures
            !self.insert_would_cycle(source, target),
    {
        let simf = self.sim_fn(source, target);
        let f = self.walk_fn();
        assert forall|x: u64| #[trigger] simf(x) == f(x) by {
            assert(simf(x) == self.sim_step(source, target, x));
            assert(f(x) == self.walk_step(x));
            if !self.target_is_many() {
                if x == target {
                    assert(self.in_backward(source, target));
                    let v = self.bwd@[target]@;
                    assert(v.len() <= 1);
                    let j = choose|j: int| 0 <= j < v.len() && v[j] == source;
                    assert(j == 0);
                    assert(self.walk_step(x) == Some(source));
                } else if !self.source_is_many() && self.fwd@.contains_key(source)
                    && self.fwd@[source]@[0].1 == x {
                    let v = self.fwd@[source]@;
                    assert(v.len() <= 1);
                    let j = target_index(v, target);
                    assert(0 <= j < v.len() && v[j].1 == target);
                    assert(j == 0);
                    assert(false);
                }
            } else {
                if x == source {
                    assert(!self.source_is_many());
                    let v = self.fwd@[source]@;
                    assert(v.len() <= 1);
                    let j = target_index(v, target);
                    assert(0 <= j < v.len() && v[j].1 == target);
                    assert(j == 0);
                    assert(self.walk_step(x) == Some(target));
                }
            }
        }
        crate::cyclicity::lemma_fn_congruent(simf, f);
    }

    /// Creates an empty store for a kind configured by the three markers.
    /// Rejected with [`RelationError::InvalidConfiguration`] exactly when
    /// `Acyclic` is combined with two `Many` endpoints.
    pub fn new<S: Restriction, T: Restriction, C: Cyclicity>() -> (r: Result<Self, RelationError>)
        ensures
            match r {
                Ok(store) => {
                    &&& store.wf()
                    &&& store.source_is_many() == S::many()
                    &&& store.target_is_many() == T::many()
                    &&& store.is_acyclic() == !C::allows_cycles()
                    &&& forall|a: u64, b: u64| !store.has_edge(a, b)
                },
                Err(e) => e == RelationError::InvalidConfiguration,
            },
            r is Err <==> (!C::allows_cycles() && S::many() && T::many()),
    {
        let source_many = S::is_many();
        let target_many = T::is_many();
        let acyclic = !C::cycles_allowed();
        if acyclic && source_many && target_many {
            return Err(RelationError::InvalidConfiguration);
        }
        let store = RelationStore {
            source_many,
            target_many,
            acyclic,
            fwd: HashMap::new(),
            bwd: HashMap::new(),
        };
        proof {
            let f = store.walk_fn();
            assert forall|x: u64, n: nat| 1 <= n implies iterate(f, x, n) != Some(x) by {
                assert(f(x) == store.walk_step(x));
                assert(iterate(f, x, 1) == f(x));
                lemma_iterate_none(f, x, 1, n);
            }
        }
        Ok(store)
    }
}

} // verus!
