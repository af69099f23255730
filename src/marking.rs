//! What a marking walk promises, stated over the maps it works on and the trace
//! function that lists an object's outgoing references.
use vstd::prelude::*;

use crate::constants::{INC, MARK_MASK, NEW, NEW_BIT, NEW_INC, NEW_MASK, PTR_MASK};
use crate::heap::{key_in_range, lemma_key_of_in_range, Object, ObjectMeta, RootMeta};

verus! {

/// A trace function can be called on every object and answers alike for the
/// same object.
pub open spec fn trace_is_function<F: Fn(Object) -> Vec<Object>>(trace: F) -> bool {
    &&& forall|o: Object| #[trigger] trace.requires((o,))
    &&& forall|o: Object, a: Vec<Object>, b: Vec<Object>|
        #![trigger trace.ensures((o,), a), trace.ensures((o,), b)]
        trace.ensures((o,), a) && trace.ensures((o,), b) ==> a@ == b@
}

/// The object that a root-map entry stands for.
pub open spec fn root_object(key: usize, meta: RootMeta) -> Object {
    Object::at_key(key, meta.vtable & PTR_MASK)
}

/// The object that a mature-map entry stands for.
pub open spec fn heap_object(key: usize, meta: ObjectMeta) -> Object {
    Object::at_key(key, meta.vtable & PTR_MASK)
}

/// Entries that a minor collection treats as roots: rooted ones, and mature ones
/// that may point at young objects.
pub open spec fn is_minor_root(meta: RootMeta) -> bool {
    meta.refcount > 0 || !meta.spec_is_new()
}

/// `new` differs from `old` at most by mark bits being set.
pub open spec fn roots_marked_from(old: Map<usize, RootMeta>, new: Map<usize, RootMeta>) -> bool {
    &&& new.dom() == old.dom()
    &&& forall|k: usize| #[trigger]
        old.contains_key(k) ==> new[k] == old[k] || new[k] == old[k].marked()
}

/// `new` differs from `old` at most by mark bits being set.
pub open spec fn heap_marked_from(old: Map<usize, ObjectMeta>, new: Map<usize, ObjectMeta>) -> bool {
    &&& new.dom() == old.dom()
    &&& forall|k: usize| #[trigger]
        old.contains_key(k) ==> new[k] == old[k] || new[k] == old[k].marked()
}

/// A child is taken care of: it is outside the map, already marked, or still
/// waiting on the trace stack.
pub open spec fn root_child_covered(m: Map<usize, RootMeta>, pending: Seq<Object>, c: Object) -> bool {
    !m.contains_key(c.key()) || m[c.key()].spec_is_marked() || pending.contains(c)
}

/// Every child of entry `k`, as `trace` lists them, is taken care of.
pub open spec fn root_children_covered<F: Fn(Object) -> Vec<Object>>(
    trace: F,
    m: Map<usize, RootMeta>,
    pending: Seq<Object>,
    k: usize,
) -> bool {
    forall|r: Vec<Object>, i: int|
        #![trigger trace.ensures((root_object(k, m[k]),), r), r@[i]]
        trace.ensures((root_object(k, m[k]),), r) && 0 <= i < r@.len() ==> root_child_covered(
            m,
            pending,
            r@[i],
        )
}

/// Every marked, traversible entry has its children taken care of.
pub open spec fn roots_closed<F: Fn(Object) -> Vec<Object>>(
    trace: F,
    m: Map<usize, RootMeta>,
    pending: Seq<Object>,
) -> bool {
    forall|k: usize|
        #![trigger m[k]]
        m.contains_key(k) && m[k].spec_is_marked() && m[k].spec_traversible()
            ==> root_children_covered(trace, m, pending, k)
}

/// A child is taken care of in the mature map.
pub open spec fn heap_child_covered(m: Map<usize, ObjectMeta>, pending: Seq<Object>, c: Object) -> bool {
    !m.contains_key(c.key()) || m[c.key()].spec_is_marked() || pending.contains(c)
}

/// Every child of mature entry `k`, as `trace` lists them, is taken care of.
pub open spec fn heap_children_covered<F: Fn(Object) -> Vec<Object>>(
    trace: F,
    m: Map<usize, ObjectMeta>,
    pending: Seq<Object>,
    k: usize,
) -> bool {
    forall|r: Vec<Object>, i: int|
        #![trigger trace.ensures((heap_object(k, m[k]),), r), r@[i]]
        trace.ensures((heap_object(k, m[k]),), r) && 0 <= i < r@.len() ==> heap_child_covered(
            m,
            pending,
            r@[i],
        )
}

/// Every marked, traversible mature object has its children taken care of.
pub open spec fn heap_closed<F: Fn(Object) -> Vec<Object>>(
    trace: F,
    m: Map<usize, ObjectMeta>,
    pending: Seq<Object>,
) -> bool {
    forall|k: usize|
        #![trigger m[k]]
        m.contains_key(k) && m[k].spec_is_marked() && m[k].spec_traversible()
            ==> heap_children_covered(trace, m, pending, k)
}

/// The mature map after its sweep: unmarked objects gone, the rest unmarked.
pub open spec fn swept_heap(m: Map<usize, ObjectMeta>) -> Map<usize, ObjectMeta> {
    Map::new(|k: usize| m.contains_key(k) && m[k].spec_is_marked(), |k: usize| m[k].unmarked())
}

/// A young entry that no mark reached: its object is dropped by the minor sweep.
pub open spec fn minor_drops(meta: RootMeta) -> bool {
    meta.spec_is_new() && !meta.spec_is_marked()
}

/// An entry that the minor sweep takes out of the root map: a dropped young one,
/// or a mature one that no root reference holds any more.
pub open spec fn minor_removes(meta: RootMeta) -> bool {
    minor_drops(meta) || (!meta.spec_is_new() && meta.refcount == 0)
}

/// The root map after a minor sweep: removed entries gone, the rest unmarked.
pub open spec fn swept_roots(m: Map<usize, RootMeta>) -> Map<usize, RootMeta> {
    Map::new(|k: usize| m.contains_key(k) && !minor_removes(m[k]), |k: usize| m[k].unmarked())
}

/// Keys of young entries that survive a minor sweep.
pub open spec fn surviving_young(m: Map<usize, RootMeta>) -> Set<usize> {
    m.dom().filter(|k: usize| m[k].spec_is_new() && m[k].spec_is_marked())
}

/// Every key of the map can be turned into an address and back.
pub open spec fn keys_in_range<V>(m: Map<usize, V>) -> bool {
    forall|k: usize| #[trigger] m.contains_key(k) ==> key_in_range(k)
}

/// What the mature marking leaves behind: `marked` is `before` with mark bits
/// set, every object that a rooted entry of `roots` stands for is marked, and
/// every marked traversible object has its children marked.
pub open spec fn major_marking<F: Fn(Object) -> Vec<Object>>(
    trace: F,
    roots: Map<usize, RootMeta>,
    before: Map<usize, ObjectMeta>,
    marked: Map<usize, ObjectMeta>,
) -> bool {
    &&& heap_marked_from(before, marked)
    &&& forall|k: usize| #[trigger]
        before.contains_key(k) && roots.contains_key(k) && roots[k].refcount > 0
            ==> marked[k].spec_is_marked()
    &&& heap_closed(trace, marked, Seq::<Object>::empty())
    &&& (forall|k: usize| #[trigger] roots.contains_key(k) ==> roots[k].refcount == 0) ==> marked
        == before
    &&& major_marks_reachable(trace, roots, before, marked)
}

/// What the minor marking leaves behind, in the same sense.
pub open spec fn minor_marking<F: Fn(Object) -> Vec<Object>>(
    trace: F,
    before: Map<usize, RootMeta>,
    marked: Map<usize, RootMeta>,
) -> bool {
    &&& roots_marked_from(before, marked)
    &&& forall|k: usize| #[trigger]
        before.contains_key(k) && is_minor_root(before[k]) ==> marked[k].spec_is_marked()
    &&& roots_closed(trace, marked, Seq::<Object>::empty())
    &&& (forall|k: usize| #[trigger] before.contains_key(k) ==> !is_minor_root(before[k])) ==> marked
        == before
    &&& minor_marks_reachable(trace, before, marked)
}

/// The root map and deferred decrements after one journal record is applied.
pub open spec fn record_applied(
    m: Map<usize, RootMeta>,
    deferred: Seq<Object>,
    e: Object,
) -> (Map<usize, RootMeta>, Seq<Object>) {
    let k = e.key();
    if e.kind() == NEW_INC {
        (m.insert(k, RootMeta { refcount: 1, vtable: e.vtable, flags: NEW_BIT }), deferred)
    } else if e.kind() == NEW {
        (m.insert(k, RootMeta { refcount: 0, vtable: e.vtable, flags: NEW_BIT }), deferred)
    } else if e.kind() == INC {
        if m.contains_key(k) {
            let old = m[k];
            let count = if old.refcount < usize::MAX {
                (old.refcount + 1) as usize
            } else {
                old.refcount
            };
            (m.insert(k, RootMeta { refcount: count, ..old }), deferred)
        } else {
            (m.insert(k, RootMeta { refcount: 1, vtable: e.vtable, flags: 0 }), deferred)
        }
    } else {
        (m, deferred.push(e))
    }
}

/// The root map after the deferred decrements `decs` are applied in order, and
/// whether each of them found a counted root reference to remove. One that did
/// not is skipped.
pub open spec fn decs_merged(m: Map<usize, RootMeta>, decs: Seq<Object>) -> (
    Map<usize, RootMeta>,
    bool,
)
    decreases decs.len(),
{
    if decs.len() == 0 {
        (m, true)
    } else {
        let (m1, ok) = decs_merged(m, decs.drop_last());
        let k = decs.last().key();
        if m1.contains_key(k) && m1[k].refcount > 0 {
            (m1.insert(k, RootMeta { refcount: (m1[k].refcount - 1) as usize, ..m1[k] }), ok)
        } else {
            (m1, false)
        }
    }
}

/// How many of `decs` are for key `k`.
pub open spec fn decs_for(decs: Seq<Object>, k: usize) -> nat
    decreases decs.len(),
{
    if decs.len() == 0 {
        0
    } else {
        decs_for(decs.drop_last(), k) + if decs.last().key() == k {
            1nat
        } else {
            0nat
        }
    }
}

/// The root map after promotion: every young rooted entry made mature.
pub open spec fn promoted_roots(m: Map<usize, RootMeta>) -> Map<usize, RootMeta> {
    Map::new(
        |k: usize| m.contains_key(k),
        |k: usize|
            if m[k].spec_is_new() && m[k].refcount > 0 {
                RootMeta { flags: m[k].flags & NEW_MASK, ..m[k] }
            } else {
                m[k]
            },
    )
}

/// Whether an entry is promoted by a major collection.
pub open spec fn is_promotable(meta: RootMeta) -> bool {
    meta.spec_is_new() && meta.refcount > 0
}

/// The mature map after promotion: each promoted entry added, unmarked, with its
/// dispatch word.
pub open spec fn promoted_heap(m: Map<usize, RootMeta>, heap: Map<usize, ObjectMeta>) -> Map<
    usize,
    ObjectMeta,
> {
    Map::new(
        |k: usize| heap.contains_key(k) || (m.contains_key(k) && is_promotable(m[k])),
        |k: usize|
            if m.contains_key(k) && is_promotable(m[k]) {
                ObjectMeta { vtable: m[k].vtable & MARK_MASK }
            } else {
                heap[k]
            },
    )
}

/// The root map and deferred decrements after the records `es` are applied in
/// order.
pub open spec fn records_applied(
    m: Map<usize, RootMeta>,
    deferred: Seq<Object>,
    es: Seq<Object>,
) -> (Map<usize, RootMeta>, Seq<Object>)
    decreases es.len(),
{
    if es.len() == 0 {
        (m, deferred)
    } else {
        let (m1, d1) = records_applied(m, deferred, es.drop_last());
        record_applied(m1, d1, es.last())
    }
}

/// Keys come from addresses and no entry is marked: the state of a root map
/// between collections.
pub open spec fn roots_at_rest(m: Map<usize, RootMeta>) -> bool {
    &&& keys_in_range(m)
    &&& forall|k: usize| #[trigger] m.contains_key(k) ==> !m[k].spec_is_marked()
}

pub proof fn lemma_record_at_rest(m: Map<usize, RootMeta>, deferred: Seq<Object>, e: Object)
    requires
        roots_at_rest(m),
    ensures
        roots_at_rest(record_applied(m, deferred, e).0),
{
    lemma_key_of_in_range(e.ptr);
    assert(2usize & 1usize == 0) by (bit_vector);
    assert(0usize & 1usize == 0) by (bit_vector);
}

pub proof fn lemma_decs_merged_shape(m: Map<usize, RootMeta>, decs: Seq<Object>)
    ensures
        decs_merged(m, decs).0.dom() == m.dom(),
        forall|k: usize| #[trigger]
            m.contains_key(k) ==> decs_merged(m, decs).0[k].flags == m[k].flags
                && decs_merged(m, decs).0[k].vtable == m[k].vtable,
    decreases decs.len(),
{
    if decs.len() > 0 {
        lemma_decs_merged_shape(m, decs.drop_last());
        let m1 = decs_merged(m, decs.drop_last()).0;
        let k = decs.last().key();
        if m1.contains_key(k) && m1[k].refcount > 0 {
            assert(decs_merged(m, decs).0.dom() =~= m1.dom());
        }
    }
}

/// A set of keys that holds every minor root and, for each traversible member,
/// every child that the root map holds.
pub open spec fn minor_closed_set<F: Fn(Object) -> Vec<Object>>(
    trace: F,
    m: Map<usize, RootMeta>,
    s: Set<usize>,
) -> bool {
    &&& forall|x: usize| #[trigger] m.contains_key(x) && is_minor_root(m[x]) ==> s.contains(x)
    &&& forall|x: usize, r: Vec<Object>, i: int|
        #![trigger s.contains(x), trace.ensures((root_object(x, m[x]),), r), r@[i]]
        s.contains(x) && m.contains_key(x) && m[x].spec_traversible() && trace.ensures(
            (root_object(x, m[x]),),
            r,
        ) && 0 <= i < r@.len() && m.contains_key(r@[i].key()) ==> s.contains(r@[i].key())
}

/// Entry `k` can be reached from a minor root through the root map.
pub open spec fn minor_reachable<F: Fn(Object) -> Vec<Object>>(
    trace: F,
    m: Map<usize, RootMeta>,
    k: usize,
) -> bool {
    forall|s: Set<usize>| #[trigger] minor_closed_set(trace, m, s) ==> s.contains(k)
}

/// A set of keys that holds every mature object with a rooted entry and, for
/// each traversible member, every child that the mature map holds.
pub open spec fn major_closed_set<F: Fn(Object) -> Vec<Object>>(
    trace: F,
    roots: Map<usize, RootMeta>,
    m: Map<usize, ObjectMeta>,
    s: Set<usize>,
) -> bool {
    &&& forall|x: usize| #[trigger]
        m.contains_key(x) && roots.contains_key(x) && roots[x].refcount > 0 ==> s.contains(x)
    &&& forall|x: usize, r: Vec<Object>, i: int|
        #![trigger s.contains(x), trace.ensures((heap_object(x, m[x]),), r), r@[i]]
        s.contains(x) && m.contains_key(x) && m[x].spec_traversible() && trace.ensures(
            (heap_object(x, m[x]),),
            r,
        ) && 0 <= i < r@.len() && m.contains_key(r@[i].key()) ==> s.contains(r@[i].key())
}

/// Mature object `k` can be reached from a rooted entry through the mature map.
pub open spec fn major_reachable<F: Fn(Object) -> Vec<Object>>(
    trace: F,
    roots: Map<usize, RootMeta>,
    m: Map<usize, ObjectMeta>,
    k: usize,
) -> bool {
    forall|s: Set<usize>| #[trigger] major_closed_set(trace, roots, m, s) ==> s.contains(k)
}

/// A minor collection destroys no young object that can be reached from a minor
/// root through the root map.
pub proof fn lemma_minor_spares_reachable<F: Fn(Object) -> Vec<Object>>(
    trace: F,
    before: Map<usize, RootMeta>,
    marked: Map<usize, RootMeta>,
    k: usize,
)
    requires
        minor_marking(trace, before, marked),
        before.contains_key(k),
        minor_reachable(trace, before, k),
    ensures
        marked[k].spec_is_marked(),
        !minor_drops(marked[k]),
{
    let s = marked.dom().filter(|x: usize| marked[x].spec_is_marked());
    assert forall|x: usize| #[trigger] before.contains_key(x) implies marked[x].spec_traversible()
        == before[x].spec_traversible() && root_object(x, marked[x]) == root_object(x, before[x]) by {
        before[x].lemma_marked();
    }
    assert forall|x: usize| #[trigger] before.contains_key(x) && is_minor_root(before[x]) implies s.contains(x) by {}
    assert forall|x: usize, r: Vec<Object>, i: int|
        #![trigger s.contains(x), trace.ensures((root_object(x, before[x]),), r), r@[i]]
        s.contains(x) && before.contains_key(x) && before[x].spec_traversible() && trace.ensures(
            (root_object(x, before[x]),),
            r,
        ) && 0 <= i < r@.len() && before.contains_key(r@[i].key()) implies s.contains(r@[i].key()) by {
        assert(marked[x].spec_is_marked() && marked[x].spec_traversible());
        assert(root_children_covered(trace, marked, Seq::<Object>::empty(), x));
        assert(root_child_covered(marked, Seq::<Object>::empty(), r@[i]));
    }
    assert(minor_closed_set(trace, before, s));
}

/// A major collection destroys no mature object that can be reached from a
/// rooted entry through the mature map.
pub proof fn lemma_major_spares_reachable<F: Fn(Object) -> Vec<Object>>(
    trace: F,
    roots: Map<usize, RootMeta>,
    before: Map<usize, ObjectMeta>,
    marked: Map<usize, ObjectMeta>,
    k: usize,
)
    requires
        major_marking(trace, roots, before, marked),
        before.contains_key(k),
        major_reachable(trace, roots, before, k),
    ensures
        marked[k].spec_is_marked(),
        swept_heap(marked).contains_key(k),
{
    let s = marked.dom().filter(|x: usize| marked[x].spec_is_marked());
    assert forall|x: usize| #[trigger] before.contains_key(x) implies marked[x].spec_traversible()
        == before[x].spec_traversible() && heap_object(x, marked[x]) == heap_object(x, before[x]) by {
        before[x].lemma_marked();
    }
    assert forall|x: usize| #[trigger]
        before.contains_key(x) && roots.contains_key(x) && roots[x].refcount > 0 implies s.contains(x) by {}
    assert forall|x: usize, r: Vec<Object>, i: int|
        #![trigger s.contains(x), trace.ensures((heap_object(x, before[x]),), r), r@[i]]
        s.contains(x) && before.contains_key(x) && before[x].spec_traversible() && trace.ensures(
            (heap_object(x, before[x]),),
            r,
        ) && 0 <= i < r@.len() && before.contains_key(r@[i].key()) implies s.contains(r@[i].key()) by {
        assert(marked[x].spec_is_marked() && marked[x].spec_traversible());
        assert(heap_children_covered(trace, marked, Seq::<Object>::empty(), x));
        assert(heap_child_covered(marked, Seq::<Object>::empty(), r@[i]));
    }
    assert(major_closed_set(trace, roots, before, s));
}

/// Deferred decrements never take a count below zero: each one that is applied
/// meets a positive count, and when all are applied every entry's count has gone
/// down by exactly the number of decrements for it.
pub proof fn lemma_decs_merged_counts(m: Map<usize, RootMeta>, decs: Seq<Object>)
    ensures
        decs_merged(m, decs).1 ==> forall|k: usize| #[trigger]
            m.contains_key(k) ==> decs_for(decs, k) <= m[k].refcount && decs_merged(m, decs).0[k].refcount
                == m[k].refcount - decs_for(decs, k),
        decs_merged(m, decs).0.dom() == m.dom(),
    decreases decs.len(),
{
    lemma_decs_merged_shape(m, decs);
    if decs.len() > 0 {
        let rest = decs.drop_last();
        lemma_decs_merged_counts(m, rest);
        let (m1, ok1) = decs_merged(m, rest);
        let key = decs.last().key();
        if decs_merged(m, decs).1 {
            assert(ok1);
            assert(m1.contains_key(key) && m1[key].refcount > 0);
            assert forall|k: usize| #[trigger] m.contains_key(k) implies decs_for(decs, k) <= m[k].refcount
                && decs_merged(m, decs).0[k].refcount == m[k].refcount - decs_for(decs, k) by {
                assert(decs_for(decs, k) == decs_for(rest, k) + if key == k { 1nat } else { 0nat });
            }
        }
    }
}

/// The last collections at shutdown empty both maps, when every root reference
/// has been dropped, every decrement applied, and no mature entry is left in the
/// root map: the minor collection clears the root map, there is then nothing to
/// promote, and the major collection clears the mature map.
pub proof fn lemma_shutdown_empties<F: Fn(Object) -> Vec<Object>>(
    trace: F,
    roots: Map<usize, RootMeta>,
    heap: Map<usize, ObjectMeta>,
    minor_marked: Map<usize, RootMeta>,
    major_marked: Map<usize, ObjectMeta>,
)
    requires
        roots_at_rest(roots),
        forall|k: usize| #[trigger] heap.contains_key(k) ==> !heap[k].spec_is_marked(),
        forall|k: usize| #[trigger]
            roots.contains_key(k) ==> roots[k].refcount == 0 && roots[k].spec_is_new(),
        minor_marking(trace, roots, minor_marked),
        major_marking(
            trace,
            promoted_roots(decs_merged(swept_roots(minor_marked), Seq::<Object>::empty()).0),
            promoted_heap(decs_merged(swept_roots(minor_marked), Seq::<Object>::empty()).0, heap),
            major_marked,
        ),
    ensures
        decs_merged(swept_roots(minor_marked), Seq::<Object>::empty()).0 == Map::<usize, RootMeta>::empty(),
        promoted_roots(decs_merged(swept_roots(minor_marked), Seq::<Object>::empty()).0) == Map::<
            usize,
            RootMeta,
        >::empty(),
        swept_heap(major_marked) == Map::<usize, ObjectMeta>::empty(),
{
    assert(minor_marked == roots);
    assert(swept_roots(minor_marked) =~= Map::<usize, RootMeta>::empty());
    let after = decs_merged(swept_roots(minor_marked), Seq::<Object>::empty()).0;
    assert(after == swept_roots(minor_marked));
    assert(promoted_roots(after) =~= Map::<usize, RootMeta>::empty());
    assert(promoted_heap(after, heap) =~= heap);
    assert(major_marked == heap);
    assert(swept_heap(major_marked) =~= Map::<usize, ObjectMeta>::empty());
}

/// With nothing to promote, promotion leaves the mature heap and the root map as
/// they were.
pub proof fn lemma_promotion_noop(m: Map<usize, RootMeta>, heap: Map<usize, ObjectMeta>)
    requires
        forall|k: usize| #[trigger] m.contains_key(k) ==> !is_promotable(m[k]),
    ensures
        promoted_heap(m, heap) == heap,
        promoted_roots(m) == m,
{
    assert(promoted_heap(m, heap) =~= heap);
    assert(promoted_roots(m) =~= m);
}

/// A destroyed object leaves its map: after a minor collection its key is gone
/// from the root map, after a major collection from the mature map, so the same
/// allocation is never destroyed twice.
pub proof fn lemma_destroyed_leave_maps(
    minor_marked: Map<usize, RootMeta>,
    decs: Seq<Object>,
    major_marked: Map<usize, ObjectMeta>,
    k: usize,
)
    ensures
        minor_marked.contains_key(k) && minor_drops(minor_marked[k]) ==> !decs_merged(
            swept_roots(minor_marked),
            decs,
        ).0.contains_key(k),
        major_marked.contains_key(k) && !major_marked[k].spec_is_marked() ==> !swept_heap(
            major_marked,
        ).contains_key(k),
{
    lemma_decs_merged_shape(swept_roots(minor_marked), decs);
}

/// Every marked entry of `m` can be reached from a minor root of `base`.
pub open spec fn minor_marks_reachable<F: Fn(Object) -> Vec<Object>>(
    trace: F,
    base: Map<usize, RootMeta>,
    m: Map<usize, RootMeta>,
) -> bool {
    forall|k: usize|
        #![trigger m[k]]
        m.contains_key(k) && m[k].spec_is_marked() ==> minor_reachable(trace, base, k)
}

/// Every object waiting on the stack whose key is in `base` can be reached from
/// a minor root of `base`.
pub open spec fn minor_pending_reachable<F: Fn(Object) -> Vec<Object>>(
    trace: F,
    base: Map<usize, RootMeta>,
    pending: Seq<Object>,
) -> bool {
    forall|i: int|
        #![trigger pending[i]]
        0 <= i < pending.len() && base.contains_key(pending[i].key()) ==> minor_reachable(
            trace,
            base,
            pending[i].key(),
        )
}

/// Every marked object of `m` can be reached from a rooted entry through `base`.
pub open spec fn major_marks_reachable<F: Fn(Object) -> Vec<Object>>(
    trace: F,
    roots: Map<usize, RootMeta>,
    base: Map<usize, ObjectMeta>,
    m: Map<usize, ObjectMeta>,
) -> bool {
    forall|k: usize|
        #![trigger m[k]]
        m.contains_key(k) && m[k].spec_is_marked() ==> major_reachable(trace, roots, base, k)
}

/// Every object waiting on the stack whose key is in `base` can be reached from
/// a rooted entry through `base`.
pub open spec fn major_pending_reachable<F: Fn(Object) -> Vec<Object>>(
    trace: F,
    roots: Map<usize, RootMeta>,
    base: Map<usize, ObjectMeta>,
    pending: Seq<Object>,
) -> bool {
    forall|i: int|
        #![trigger pending[i]]
        0 <= i < pending.len() && base.contains_key(pending[i].key()) ==> major_reachable(
            trace,
            roots,
            base,
            pending[i].key(),
        )
}

pub proof fn lemma_minor_root_reachable<F: Fn(Object) -> Vec<Object>>(
    trace: F,
    m: Map<usize, RootMeta>,
    k: usize,
)
    requires
        m.contains_key(k),
        is_minor_root(m[k]),
    ensures
        minor_reachable(trace, m, k),
{
    assert forall|s: Set<usize>| #[trigger] minor_closed_set(trace, m, s) implies s.contains(k) by {}
}

pub proof fn lemma_minor_children_reachable<F: Fn(Object) -> Vec<Object>>(
    trace: F,
    m: Map<usize, RootMeta>,
    x: usize,
    r: Vec<Object>,
)
    requires
        minor_reachable(trace, m, x),
        m.contains_key(x),
        m[x].spec_traversible(),
        trace.ensures((root_object(x, m[x]),), r),
    ensures
        minor_pending_reachable(trace, m, r@),
{
    assert forall|i: int|
        #![trigger r@[i]]
        0 <= i < r@.len() && m.contains_key(r@[i].key()) implies minor_reachable(trace, m, r@[i].key()) by {
        assert forall|s: Set<usize>| #[trigger] minor_closed_set(trace, m, s) implies s.contains(
            r@[i].key(),
        ) by {
            assert(s.contains(x));
        }
    }
}

pub proof fn lemma_major_root_reachable<F: Fn(Object) -> Vec<Object>>(
    trace: F,
    roots: Map<usize, RootMeta>,
    m: Map<usize, ObjectMeta>,
    k: usize,
)
    requires
        m.contains_key(k),
        roots.contains_key(k),
        roots[k].refcount > 0,
    ensures
        major_reachable(trace, roots, m, k),
{
    assert forall|s: Set<usize>| #[trigger] major_closed_set(trace, roots, m, s) implies s.contains(k) by {}
}

pub proof fn lemma_major_children_reachable<F: Fn(Object) -> Vec<Object>>(
    trace: F,
    roots: Map<usize, RootMeta>,
    m: Map<usize, ObjectMeta>,
    x: usize,
    r: Vec<Object>,
)
    requires
        major_reachable(trace, roots, m, x),
        m.contains_key(x),
        m[x].spec_traversible(),
        trace.ensures((heap_object(x, m[x]),), r),
    ensures
        major_pending_reachable(trace, roots, m, r@),
{
    assert forall|i: int|
        #![trigger r@[i]]
        0 <= i < r@.len() && m.contains_key(r@[i].key()) implies major_reachable(
            trace,
            roots,
            m,
            r@[i].key(),
        ) by {
        assert forall|s: Set<usize>| #[trigger] major_closed_set(trace, roots, m, s) implies s.contains(
            r@[i].key(),
        ) by {
            assert(s.contains(x));
        }
    }
}

pub proof fn lemma_minor_pending_pop<F: Fn(Object) -> Vec<Object>>(
    trace: F,
    base: Map<usize, RootMeta>,
    s: Seq<Object>,
    c: Object,
)
    requires
        minor_pending_reachable(trace, base, s.push(c)),
    ensures
        minor_pending_reachable(trace, base, s),
        base.contains_key(c.key()) ==> minor_reachable(trace, base, c.key()),
{
    assert(s.push(c)[s.len() as int] == c);
    assert forall|i: int|
        #![trigger s[i]]
        0 <= i < s.len() && base.contains_key(s[i].key()) implies minor_reachable(trace, base, s[i].key()) by {
        assert(s.push(c)[i] == s[i]);
    }
}

pub proof fn lemma_minor_pending_concat<F: Fn(Object) -> Vec<Object>>(
    trace: F,
    base: Map<usize, RootMeta>,
    a: Seq<Object>,
    b: Seq<Object>,
)
    requires
        minor_pending_reachable(trace, base, a),
        minor_pending_reachable(trace, base, b),
    ensures
        minor_pending_reachable(trace, base, a + b),
{
    assert forall|i: int|
        #![trigger (a + b)[i]]
        0 <= i < (a + b).len() && base.contains_key((a + b)[i].key()) implies minor_reachable(
            trace,
            base,
            (a + b)[i].key(),
        ) by {
        if i < a.len() {
            assert((a + b)[i] == a[i]);
        } else {
            assert((a + b)[i] == b[i - a.len()]);
        }
    }
}

pub proof fn lemma_major_pending_pop<F: Fn(Object) -> Vec<Object>>(
    trace: F,
    roots: Map<usize, RootMeta>,
    base: Map<usize, ObjectMeta>,
    s: Seq<Object>,
    c: Object,
)
    requires
        major_pending_reachable(trace, roots, base, s.push(c)),
    ensures
        major_pending_reachable(trace, roots, base, s),
        base.contains_key(c.key()) ==> major_reachable(trace, roots, base, c.key()),
{
    assert(s.push(c)[s.len() as int] == c);
    assert forall|i: int|
        #![trigger s[i]]
        0 <= i < s.len() && base.contains_key(s[i].key()) implies major_reachable(
            trace,
            roots,
            base,
            s[i].key(),
        ) by {
        assert(s.push(c)[i] == s[i]);
    }
}

pub proof fn lemma_major_pending_concat<F: Fn(Object) -> Vec<Object>>(
    trace: F,
    roots: Map<usize, RootMeta>,
    base: Map<usize, ObjectMeta>,
    a: Seq<Object>,
    b: Seq<Object>,
)
    requires
        major_pending_reachable(trace, roots, base, a),
        major_pending_reachable(trace, roots, base, b),
    ensures
        major_pending_reachable(trace, roots, base, a + b),
{
    assert forall|i: int|
        #![trigger (a + b)[i]]
        0 <= i < (a + b).len() && base.contains_key((a + b)[i].key()) implies major_reachable(
            trace,
            roots,
            base,
            (a + b)[i].key(),
        ) by {
        if i < a.len() {
            assert((a + b)[i] == a[i]);
        } else {
            assert((a + b)[i] == b[i - a.len()]);
        }
    }
}

/// Keys come from addresses and no object is marked: the state of a mature map
/// between collections.
pub open spec fn heap_at_rest(m: Map<usize, ObjectMeta>) -> bool {
    &&& keys_in_range(m)
    &&& forall|k: usize| #[trigger] m.contains_key(k) ==> !m[k].spec_is_marked()
}

/// A minor collection destroys every young object that cannot be reached from a
/// minor root through the root map.
pub proof fn lemma_minor_drops_unreachable<F: Fn(Object) -> Vec<Object>>(
    trace: F,
    before: Map<usize, RootMeta>,
    marked: Map<usize, RootMeta>,
    k: usize,
)
    requires
        minor_marking(trace, before, marked),
        forall|x: usize| #[trigger] before.contains_key(x) ==> !before[x].spec_is_marked(),
        before.contains_key(k),
        before[k].spec_is_new(),
        !minor_reachable(trace, before, k),
    ensures
        minor_drops(marked[k]),
        !swept_roots(marked).contains_key(k),
{
    before[k].lemma_marked();
    assert(marked[k] == before[k] || marked[k] == before[k].marked());
}

/// A major collection destroys every mature object that cannot be reached from
/// a rooted entry through the mature map.
pub proof fn lemma_major_drops_unreachable<F: Fn(Object) -> Vec<Object>>(
    trace: F,
    roots: Map<usize, RootMeta>,
    before: Map<usize, ObjectMeta>,
    marked: Map<usize, ObjectMeta>,
    k: usize,
)
    requires
        major_marking(trace, roots, before, marked),
        before.contains_key(k),
        !major_reachable(trace, roots, before, k),
    ensures
        !marked[k].spec_is_marked(),
        !swept_heap(marked).contains_key(k),
{
}

} // verus!
