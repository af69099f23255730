//! The young generation: the root map fed from the journals, and the minor
//! collection that marks from the roots and sweeps unreached young objects.
use std::collections::BTreeMap;

use vstd::prelude::*;
use vstd::std_specs::iter::IteratorSpec;

use crate::constants::{BUFFER_RUN, FLAGS_MASK, INC, JOURNAL_RUN, MARK_MASK, NEW, NEW_BIT, NEW_INC};
use crate::heap::{key_in_range, lemma_key_round_trip, ObjectMeta, ptr_shift, Object, RootMap, RootMeta, TraceStack};
use crate::journal::Receiver;
use crate::parheap::CollectOps;
use crate::statistics::StatsLogger;
use crate::marking::{
    decs_merged, heap_at_rest, heap_object, is_promotable, lemma_decs_merged_shape, lemma_record_at_rest, major_marking,
    minor_marking, promoted_heap, promoted_roots, record_applied, records_applied, roots_at_rest, swept_heap,
    is_minor_root, keys_in_range, lemma_minor_children_reachable, lemma_minor_pending_concat,
    lemma_minor_pending_pop, lemma_minor_root_reachable, minor_marks_reachable, minor_pending_reachable,
    minor_reachable, minor_drops, root_child_covered, surviving_young, swept_roots, root_children_covered, root_object, roots_closed,
    roots_marked_from, trace_is_function,
};

verus! {

broadcast use {vstd::std_specs::btree::group_btree_axioms, vstd::laws_cmp::group_laws_cmp};

/// The keys of `m`, each once.
pub(crate) fn map_keys<V>(m: &BTreeMap<usize, V>) -> (r: Vec<usize>)
    ensures
        r@.to_set() == m@.dom(),
        r@.no_duplicates(),
{
    let mut out: Vec<usize> = Vec::new();
    let ghost ks = vstd::std_specs::btree::spec_keys_iter(m).remaining().unref();
    for k in iter: m.keys()
        invariant
            iter.seq().unref() == ks,
            out@ == ks.subrange(0, iter.index()),
    {
        out.push(*k);
        proof {
            assert(out@ =~= ks.subrange(0, iter.index() + 1));
        }
    }
    proof {
        assert(out@ =~= ks);
    }
    out
}

/// Keys of the root map whose entries are not marked.
pub open spec fn unmarked_roots(m: Map<usize, RootMeta>) -> Set<usize> {
    m.dom().filter(|k: usize| !m[k].spec_is_marked())
}

proof fn lemma_unmarked_roots_shrink(m: Map<usize, RootMeta>, k: usize)
    requires
        m.dom().finite(),
        m.contains_key(k),
        !m[k].spec_is_marked(),
    ensures
        unmarked_roots(m.insert(k, m[k].marked())) == unmarked_roots(m).remove(k),
        unmarked_roots(m).finite(),
        unmarked_roots(m.insert(k, m[k].marked())).len() < unmarked_roots(m).len(),
{
    m[k].lemma_marked();
    let m1 = m.insert(k, m[k].marked());
    assert(unmarked_roots(m1) =~= unmarked_roots(m).remove(k));
    m.dom().lemma_len_filter(|x: usize| !m[x].spec_is_marked());
    assert(unmarked_roots(m).contains(k));
}

/// After `c` is taken off the stack and its entry, if any, marked, every marked
/// traversible entry but a newly marked `c` is still covered.
proof fn lemma_root_pop_step<F: Fn(Object) -> Vec<Object>>(
    trace: F,
    m: Map<usize, RootMeta>,
    m1: Map<usize, RootMeta>,
    s: Seq<Object>,
    c: Object,
)
    requires
        roots_closed(trace, m, s.push(c)),
        m1 == (if m.contains_key(c.key()) {
            m.insert(c.key(), m[c.key()].marked())
        } else {
            m
        }),
    ensures
        forall|k: usize|
            #![trigger m1[k]]
            m1.contains_key(k) && m1[k].spec_is_marked() && m1[k].spec_traversible() && !(k
                == c.key() && !m[k].spec_is_marked()) ==> root_children_covered(trace, m1, s, k),
{
    assert forall|k: usize|
        #![trigger m1[k]]
        m1.contains_key(k) && m1[k].spec_is_marked() && m1[k].spec_traversible() && !(k == c.key()
            && !m[k].spec_is_marked()) implies root_children_covered(trace, m1, s, k) by {
        if k == c.key() {
            m[k].lemma_marked();
        }
        assert(m1[k] == m[k]);
        assert(m[k].spec_is_marked() && m[k].spec_traversible());
        assert(root_children_covered(trace, m, s.push(c), k));
        assert forall|r: Vec<Object>, i: int|
            #![trigger trace.ensures((root_object(k, m1[k]),), r), r@[i]]
            trace.ensures((root_object(k, m1[k]),), r) && 0 <= i < r@.len() implies root_child_covered(
                m1,
                s,
                r@[i],
            ) by {
            let c2 = r@[i];
            assert(root_child_covered(m, s.push(c), c2));
            if m.contains_key(c2.key()) && m[c2.key()].spec_is_marked() {
                if c2.key() == c.key() {
                    m[c2.key()].lemma_marked();
                }
            } else if m.contains_key(c2.key()) && s.push(c).contains(c2) {
                let j = choose|j: int| 0 <= j < s.push(c).len() && s.push(c)[j] == c2;
                if j < s.len() {
                    assert(s[j] == c2);
                } else {
                    m[c.key()].lemma_marked();
                }
            }
        }
    }
}

/// Pushing more objects keeps every covered entry covered.
proof fn lemma_root_push_keeps<F: Fn(Object) -> Vec<Object>>(
    trace: F,
    m: Map<usize, RootMeta>,
    s: Seq<Object>,
    extra: Seq<Object>,
    k: usize,
)
    requires
        root_children_covered(trace, m, s, k),
    ensures
        root_children_covered(trace, m, s + extra, k),
{
    assert forall|r: Vec<Object>, i: int|
        #![trigger trace.ensures((root_object(k, m[k]),), r), r@[i]]
        trace.ensures((root_object(k, m[k]),), r) && 0 <= i < r@.len() implies root_child_covered(
            m,
            s + extra,
            r@[i],
        ) by {
        let c2 = r@[i];
        assert(root_child_covered(m, s, c2));
        if s.contains(c2) {
            let j = choose|j: int| 0 <= j < s.len() && s[j] == c2;
            assert((s + extra)[j] == c2);
        }
    }
}

/// The children just pushed for entry `k` cover it.
proof fn lemma_root_pushed_covers<F: Fn(Object) -> Vec<Object>>(
    trace: F,
    m: Map<usize, RootMeta>,
    s: Seq<Object>,
    children: Vec<Object>,
    k: usize,
)
    requires
        trace_is_function(trace),
        trace.ensures((root_object(k, m[k]),), children),
    ensures
        root_children_covered(trace, m, s + children@, k),
{
    assert forall|r: Vec<Object>, i: int|
        #![trigger trace.ensures((root_object(k, m[k]),), r), r@[i]]
        trace.ensures((root_object(k, m[k]),), r) && 0 <= i < r@.len() implies root_child_covered(
            m,
            s + children@,
            r@[i],
        ) by {
        assert(r@ == children@);
        assert((s + children@)[s.len() + i] == r@[i]);
    }
}

/// Marks everything reachable from the stack's objects through the root map.
fn drain_roots<F: Fn(Object) -> Vec<Object>>(
    roots: &mut RootMap,
    stack: &mut TraceStack,
    trace: &F,
    Ghost(base): Ghost<Map<usize, RootMeta>>,
)
    requires
        trace_is_function(*trace),
        roots_closed(*trace, old(roots)@, old(stack)@),
        roots_marked_from(base, old(roots)@),
        forall|k: usize| #[trigger] base.contains_key(k) ==> !base[k].spec_is_marked(),
        minor_marks_reachable(*trace, base, old(roots)@),
        minor_pending_reachable(*trace, base, old(stack)@),
    ensures
        roots_marked_from(old(roots)@, final(roots)@),
        final(stack)@.len() == 0,
        roots_closed(*trace, final(roots)@, Seq::<Object>::empty()),
        roots_marked_from(base, final(roots)@),
        minor_marks_reachable(*trace, base, final(roots)@),
{
    let ghost m0 = roots@;
    loop
        invariant
            trace_is_function(*trace),
            roots_marked_from(m0, roots@),
            roots_closed(*trace, roots@, stack@),
            roots_marked_from(base, roots@),
            forall|k: usize| #[trigger] base.contains_key(k) ==> !base[k].spec_is_marked(),
            minor_marks_reachable(*trace, base, roots@),
            minor_pending_reachable(*trace, base, stack@),
        ensures
            roots_marked_from(m0, roots@),
            stack@.len() == 0,
            roots_closed(*trace, roots@, stack@),
            roots_marked_from(base, roots@),
            minor_marks_reachable(*trace, base, roots@),
        decreases unmarked_roots(roots@).len(), stack@.len(),
    {
        let ghost m = roots@;
        let ghost s_before = stack@;
        match stack.pop() {
            None => {
                break;
            },
            Some(c) => {
                let ghost s = stack@;
                proof {
                    assert(s_before == s.push(c));
                    lemma_minor_pending_pop(*trace, base, s, c);
                }
                let ck = c.ptr >> (ptr_shift() as usize);
                assert(ck == c.key());
                let found = roots.get(&ck);
                match found {
                    None => {
                        proof {
                            lemma_root_pop_step(*trace, m, m, s, c);
                            assert(roots_closed(*trace, roots@, stack@));
                            assert(unmarked_roots(roots@).len() <= unmarked_roots(m).len());
                        }
                    },
                    Some(meta_ref) => {
                        let mut meta = *meta_ref;
                        let ghost old_meta = meta;
                        let needs = meta.mark_and_needs_trace();
                        roots.insert(ck, meta);
                        let ghost m1 = roots@;
                        proof {
                            old_meta.lemma_marked();
                            assert(old_meta == m[ck]);
                            assert(m1.dom() =~= m0.dom());
                            lemma_root_pop_step(*trace, m, m1, s, c);
                            assert forall|k: usize| #[trigger] m0.contains_key(k) implies m1[k] == m0[k]
                                || m1[k] == m0[k].marked() by {
                                if k == ck {
                                    m0[k].lemma_marked();
                                }
                            }
                            if old_meta.spec_is_marked() {
                                assert(m1 =~= m);
                            } else {
                                lemma_unmarked_roots_shrink(m, ck);
                            }
                            base[ck].lemma_marked();
                            assert(m1[ck] == base[ck].marked());
                            assert forall|k: usize| #[trigger] base.contains_key(k) implies m1[k] == base[k]
                                || m1[k] == base[k].marked() by {}
                            assert(m1.dom() =~= base.dom());
                            assert forall|k: usize| #![trigger m1[k]]
                                m1.contains_key(k) && m1[k].spec_is_marked() implies minor_reachable(*trace, base, k) by {
                                if k != ck {
                                    assert(m1[k] == m[k]);
                                }
                            }
                        }
                        if needs {
                            let obj = Object::from_trie_ptr(ck, meta.vtable());
                            assert(obj == root_object(ck, m1[ck]));
                            let children = trace(obj);
                            stack.from_roots(children.as_slice());
                            proof {
                                assert(root_object(ck, m1[ck]) == root_object(ck, base[ck]));
                                lemma_minor_children_reachable(*trace, base, ck, children);
                                lemma_minor_pending_concat(*trace, base, s, children@);
                                lemma_root_pushed_covers(*trace, m1, s, children, ck);
                                assert forall|k: usize|
                                    #![trigger m1[k]]
                                    m1.contains_key(k) && m1[k].spec_is_marked() && m1[k].spec_traversible()
                                        implies root_children_covered(*trace, m1, stack@, k) by {
                                    if k != ck {
                                        lemma_root_push_keeps(*trace, m1, s, children@, k);
                                    }
                                }
                            }
                        } else {
                            proof {
                                assert(roots_closed(*trace, m1, stack@));
                            }
                        }
                    },
                }
            },
        }
    }
}

/// Marking one entry keeps every other marked traversible entry covered.
proof fn lemma_root_mark_keeps<F: Fn(Object) -> Vec<Object>>(
    trace: F,
    m: Map<usize, RootMeta>,
    s: Seq<Object>,
    key: usize,
)
    requires
        roots_closed(trace, m, s),
        m.contains_key(key),
    ensures
        forall|k: usize|
            #![trigger m.insert(key, m[key].marked())[k]]
            m.insert(key, m[key].marked()).contains_key(k) && m.insert(key, m[key].marked())[k].spec_is_marked()
                && m.insert(key, m[key].marked())[k].spec_traversible() && !(k == key
                && !m[k].spec_is_marked()) ==> root_children_covered(
                trace,
                m.insert(key, m[key].marked()),
                s,
                k,
            ),
{
    let m1 = m.insert(key, m[key].marked());
    m[key].lemma_marked();
    assert forall|k: usize|
        #![trigger m1[k]]
        m1.contains_key(k) && m1[k].spec_is_marked() && m1[k].spec_traversible() && !(k == key
            && !m[k].spec_is_marked()) implies root_children_covered(trace, m1, s, k) by {
        assert(m1[k] == m[k]);
        assert(root_children_covered(trace, m, s, k));
        assert forall|r: Vec<Object>, i: int|
            #![trigger trace.ensures((root_object(k, m1[k]),), r), r@[i]]
            trace.ensures((root_object(k, m1[k]),), r) && 0 <= i < r@.len() implies root_child_covered(
                m1,
                s,
                r@[i],
            ) by {
            assert(root_child_covered(m, s, r@[i]));
        }
    }
}

/// Marks every minor root, and everything reachable from one through the root
/// map.
fn mark<F: Fn(Object) -> Vec<Object>>(roots: &mut RootMap, trace: &F)
    requires
        trace_is_function(*trace),
        forall|k: usize| #[trigger] old(roots)@.contains_key(k) ==> !old(roots)@[k].spec_is_marked(),
    ensures
        roots_marked_from(old(roots)@, final(roots)@),
        forall|k: usize| #[trigger]
            old(roots)@.contains_key(k) && is_minor_root(old(roots)@[k])
                ==> final(roots)@[k].spec_is_marked(),
        roots_closed(*trace, final(roots)@, Seq::<Object>::empty()),
        (forall|k: usize| #[trigger] old(roots)@.contains_key(k) ==> !is_minor_root(old(roots)@[k]))
            ==> final(roots)@ == old(roots)@,
        minor_marks_reachable(*trace, old(roots)@, final(roots)@),
{
    let ghost m0 = roots@;
    let keys = map_keys(roots);
    let mut stack = TraceStack::new();
    proof {
        assert forall|k: usize| #[trigger] m0.contains_key(k) implies m0[k] == m0[k] || m0[k] == m0[k].marked() by {}
        assert(roots_closed(*trace, m0, stack@));
    }
    for i in 0..keys.len()
        invariant
            trace_is_function(*trace),
            keys@.to_set() == m0.dom(),
            roots_marked_from(m0, roots@),
            stack@ == Seq::<Object>::empty(),
            roots_closed(*trace, roots@, stack@),
            forall|j: int| #![trigger keys@[j]]
                0 <= j < i && is_minor_root(m0[keys@[j]]) ==> roots@[keys@[j]].spec_is_marked(),
            (forall|k: usize| #[trigger] m0.contains_key(k) ==> !is_minor_root(m0[k])) ==> roots@ == m0,
            forall|k: usize| #[trigger] m0.contains_key(k) ==> !m0[k].spec_is_marked(),
            minor_marks_reachable(*trace, m0, roots@),
    {
        let k = keys[i];
        let ghost m = roots@;
        proof {
            assert(keys@.contains(k));
            assert(m0.contains_key(k));
            assert(m.contains_key(k));
        }
        let meta = *roots.get(&k).unwrap();
        if !meta.unsync_is_unrooted() || !meta.is_new() {
            let mut marked = meta;
            let needs = marked.mark_and_needs_trace();
            roots.insert(k, marked);
            let ghost m1 = roots@;
            proof {
                meta.lemma_marked();
                lemma_root_mark_keeps(*trace, m, stack@, k);
                assert(m1.dom() =~= m0.dom());
                assert forall|x: usize| #[trigger] m0.contains_key(x) implies m1[x] == m0[x]
                    || m1[x] == m0[x].marked() by {
                    if x == k {
                        m0[x].lemma_marked();
                    }
                }
                if meta.spec_is_marked() {
                    assert(m1 =~= m);
                }
                m0[k].lemma_marked();
                assert(meta == m0[k] || meta == m0[k].marked());
                assert(is_minor_root(m0[k]));
                lemma_minor_root_reachable(*trace, m0, k);
                assert forall|x: usize| #![trigger m1[x]]
                    m1.contains_key(x) && m1[x].spec_is_marked() implies minor_reachable(*trace, m0, x) by {
                    if x != k {
                        assert(m1[x] == m[x]);
                    }
                }
            }
            if needs {
                let obj = Object::from_trie_ptr(k, marked.vtable());
                assert(obj == root_object(k, m1[k]));
                let children = trace(obj);
                stack.from_roots(children.as_slice());
                proof {
                    m0[k].lemma_marked();
                    assert(root_object(k, m1[k]) == root_object(k, m0[k]));
                    lemma_minor_children_reachable(*trace, m0, k, children);
                    lemma_root_pushed_covers(*trace, m1, Seq::<Object>::empty(), children, k);
                    assert(Seq::<Object>::empty() + children@ == stack@);
                    assert forall|x: usize|
                        #![trigger m1[x]]
                        m1.contains_key(x) && m1[x].spec_is_marked() && m1[x].spec_traversible()
                            implies root_children_covered(*trace, m1, stack@, x) by {
                        if x != k {
                            lemma_root_push_keeps(*trace, m1, Seq::<Object>::empty(), children@, x);
                        }
                    }
                }
                drain_roots(roots, &mut stack, trace, Ghost(m0));
                proof {
                    let m2 = roots@;
                    assert(stack@ =~= Seq::<Object>::empty());
                    assert forall|x: usize| #[trigger] m0.contains_key(x) implies m2[x] == m0[x]
                        || m2[x] == m0[x].marked() by {
                        m0[x].lemma_marked();
                        assert(m2[x] == m1[x] || m2[x] == m1[x].marked());
                    }
                }
            }
        }
        proof {
            let mf = roots@;
            assert forall|j: int| #![trigger keys@[j]]
                0 <= j < i + 1 && is_minor_root(m0[keys@[j]]) implies mf[keys@[j]].spec_is_marked() by {
                let kj = keys@[j];
                assert(keys@.contains(kj));
                assert(m0.contains_key(kj));
                m0[kj].lemma_marked();
                if j < i {
                    assert(m[kj].spec_is_marked());
                    m[kj].lemma_marked();
                }
            }
        }
    }
    proof {
        let mf = roots@;
        assert forall|k: usize| #[trigger] m0.contains_key(k) && is_minor_root(m0[k]) implies mf[k].spec_is_marked() by {
            assert(keys@.to_set().contains(k));
            let j = choose|j: int| 0 <= j < keys@.len() && keys@[j] == k;
            assert(keys@[j] == k);
        }
    }
}

/// The minor sweep: drops young entries that no mark reached, removes mature
/// entries without root references, and unmarks the rest. Returns the number of
/// young entries kept and the objects to destroy.
fn sweep(roots: &mut RootMap) -> (r: (usize, Vec<Object>))
    requires
        keys_in_range(old(roots)@),
    ensures
        final(roots)@ == swept_roots(old(roots)@),
        r.0 == surviving_young(old(roots)@).len(),
        forall|j: int| #![trigger r.1@[j]]
            0 <= j < r.1@.len() ==> old(roots)@.contains_key(r.1@[j].key()) && minor_drops(
                old(roots)@[r.1@[j].key()],
            ) && r.1@[j] == root_object(r.1@[j].key(), old(roots)@[r.1@[j].key()]),
        forall|k: usize| #[trigger]
            old(roots)@.contains_key(k) && minor_drops(old(roots)@[k]) ==> r.1@.contains(
                root_object(k, old(roots)@[k]),
            ),
        r.1@.no_duplicates(),
{
    let ghost m0 = roots@;
    let keys = map_keys(roots);
    let mut dropped: Vec<Object> = Vec::new();
    let mut young: usize = 0;
    let ghost mut seen_young: Set<usize> = Set::empty();
    let ghost mut picks: Seq<int> = Seq::empty();
    for i in 0..keys.len()
        invariant
            keys@.to_set() == m0.dom(),
            keys@.no_duplicates(),
            keys_in_range(m0),
            roots@.dom().subset_of(m0.dom()),
            forall|j: int| #![trigger keys@[j]]
                i <= j < keys@.len() ==> roots@.contains_key(keys@[j]) && roots@[keys@[j]]
                    == m0[keys@[j]],
            forall|j: int| #![trigger keys@[j]]
                0 <= j < i ==> (roots@.contains_key(keys@[j]) == swept_roots(m0).contains_key(
                    keys@[j],
                )) && (roots@.contains_key(keys@[j]) ==> roots@[keys@[j]] == swept_roots(
                    m0,
                )[keys@[j]]),
            seen_young.finite(),
            young == seen_young.len(),
            young <= i,
            forall|x: usize| #[trigger] seen_young.contains(x) <==> exists|j: int|
                0 <= j < i && keys@[j] == x && m0[x].spec_is_new() && m0[x].spec_is_marked(),
            picks.len() == dropped@.len(),
            forall|t: int| #![trigger picks[t]]
                0 <= t < picks.len() ==> 0 <= picks[t] < i && minor_drops(m0[keys@[picks[t]]])
                    && dropped@[t] == root_object(keys@[picks[t]], m0[keys@[picks[t]]]),
            forall|t: int, u: int| 0 <= t < u < picks.len() ==> picks[t] < picks[u],
            forall|j: int| #![trigger keys@[j]]
                0 <= j < i && minor_drops(m0[keys@[j]]) ==> exists|t: int|
                    0 <= t < picks.len() && picks[t] == j,
    {
        let k = keys[i];
        proof {
            assert(keys@.contains(k));
            assert(m0.contains_key(k));
        }
        let meta = *roots.get(&k).unwrap();
        let ghost picks0 = picks;
        let ghost dropped0 = dropped@;
        if meta.is_new_and_unmarked() {
            let obj = Object::from_trie_ptr(k, meta.vtable());
            dropped.push(obj);
            roots.remove(&k);
            proof {
                picks = picks.push(i as int);
            }
        } else if !meta.is_new() && meta.unsync_is_unrooted() {
            roots.remove(&k);
        } else {
            if meta.is_new() {
                young = young + 1;
                proof {
                    assert(!seen_young.contains(k)) by {
                        if seen_young.contains(k) {
                            let j = choose|j: int|
                                0 <= j < i && keys@[j] == k && m0[k].spec_is_new()
                                    && m0[k].spec_is_marked();
                            assert(keys@[j] == keys@[i as int]);
                        }
                    }
                    seen_young = seen_young.insert(k);
                }
            }
            let mut kept = meta;
            kept.unmark();
            roots.insert(k, kept);
        }
        proof {
            meta.lemma_unmarked();
            assert(meta == m0[k]);
            assert forall|t: int| #![trigger picks[t]]
                0 <= t < picks.len() implies 0 <= picks[t] < i + 1 && minor_drops(m0[keys@[picks[t]]])
                    && dropped@[t] == root_object(keys@[picks[t]], m0[keys@[picks[t]]]) by {
                if t < picks0.len() {
                    assert(picks[t] == picks0[t]);
                    assert(dropped@[t] == dropped0[t]);
                }
            }
            assert(roots@.dom().subset_of(m0.dom()));
            assert forall|j: int| #![trigger keys@[j]]
                i + 1 <= j < keys@.len() implies roots@.contains_key(keys@[j]) && roots@[keys@[j]]
                    == m0[keys@[j]] by {
                assert(keys@[j] != k);
            }
            assert forall|j: int| #![trigger keys@[j]]
                0 <= j < i + 1 implies (roots@.contains_key(keys@[j]) == swept_roots(
                    m0,
                ).contains_key(keys@[j])) && (roots@.contains_key(keys@[j]) ==> roots@[keys@[j]]
                    == swept_roots(m0)[keys@[j]]) by {
                if j < i {
                    assert(keys@[j] != k);
                }
            }
            assert forall|x: usize| #[trigger] seen_young.contains(x) <==> exists|j: int|
                0 <= j < i + 1 && keys@[j] == x && m0[x].spec_is_new() && m0[x].spec_is_marked() by {
                if x == k && m0[x].spec_is_new() && m0[x].spec_is_marked() {
                    assert(keys@[i as int] == x);
                }
                if exists|j: int| 0 <= j < i + 1 && keys@[j] == x && m0[x].spec_is_new() && m0[x].spec_is_marked() {
                    let j = choose|j: int| 0 <= j < i + 1 && keys@[j] == x && m0[x].spec_is_new() && m0[x].spec_is_marked();
                    if j < i {
                        assert(seen_young.contains(x) || x == k);
                    }
                }
            }
            assert forall|j: int| #![trigger keys@[j]]
                0 <= j < i + 1 && minor_drops(m0[keys@[j]]) implies exists|t: int|
                    0 <= t < picks.len() && picks[t] == j by {
                if j == i {
                    assert(picks[picks.len() - 1] == j);
                } else {
                    let t = choose|t: int| 0 <= t < picks0.len() && picks0[t] == j;
                    assert(picks[t] == picks0[t]);
                }
            }
        }
    }
    proof {
        let mf = roots@;
        let sw = swept_roots(m0);
        assert forall|k: usize| mf.contains_key(k) <==> sw.contains_key(k) by {
            if m0.contains_key(k) {
                assert(keys@.to_set().contains(k));
                let j = choose|j: int| 0 <= j < keys@.len() && keys@[j] == k;
                assert(keys@[j] == k);
            }
        }
        assert forall|k: usize| mf.contains_key(k) implies mf[k] == sw[k] by {
            assert(keys@.to_set().contains(k));
            let j = choose|j: int| 0 <= j < keys@.len() && keys@[j] == k;
            assert(keys@[j] == k);
        }
        assert(mf =~= sw);
        assert(seen_young =~= surviving_young(m0)) by {
            assert forall|x: usize| seen_young.contains(x) <==> surviving_young(m0).contains(x) by {
                if surviving_young(m0).contains(x) {
                    assert(keys@.to_set().contains(x));
                    let j = choose|j: int| 0 <= j < keys@.len() && keys@[j] == x;
                    assert(keys@[j] == x);
                }
            }
        }
        assert forall|j: int| #![trigger dropped@[j]]
            0 <= j < dropped@.len() implies m0.contains_key(dropped@[j].key()) && minor_drops(
                m0[dropped@[j].key()],
            ) && dropped@[j] == root_object(dropped@[j].key(), m0[dropped@[j].key()]) by {
            let kj = keys@[picks[j]];
            assert(keys@.contains(kj));
            lemma_key_round_trip(kj);
        }
        assert forall|k: usize| #[trigger]
            m0.contains_key(k) && minor_drops(m0[k]) implies dropped@.contains(root_object(k, m0[k])) by {
            assert(keys@.to_set().contains(k));
            let j = choose|j: int| 0 <= j < keys@.len() && keys@[j] == k;
            assert(keys@[j] == k);
            let t = choose|t: int| 0 <= t < picks.len() && picks[t] == j;
            assert(dropped@[t] == root_object(k, m0[k]));
        }
        assert forall|a: int, b: int| 0 <= a < dropped@.len() && 0 <= b < dropped@.len() && a != b
            implies dropped@[a] != dropped@[b] by {
            let ka = keys@[picks[a]];
            let kb = keys@[picks[b]];
            assert(picks[a] != picks[b]);
            assert(ka != kb);
            assert(keys@.contains(ka));
            assert(keys@.contains(kb));
            lemma_key_round_trip(ka);
            lemma_key_round_trip(kb);
        }
    }
    (young, dropped)
}

/// `new` is `old` with some items left out: `new[t]` is `old[picked[t]]`, and the
/// picked positions rise.
pub open spec fn picked_in_order<A>(old: Seq<A>, new: Seq<A>, picked: Seq<int>) -> bool {
    &&& picked.len() == new.len()
    &&& forall|t: int| #![trigger picked[t]]
        0 <= t < picked.len() ==> 0 <= picked[t] < old.len() && new[t] == old[picked[t]]
    &&& forall|t: int, u: int| 0 <= t < u < picked.len() ==> picked[t] < picked[u]
}

/// What a minor collection hands back.
pub struct MinorResult {
    /// Young objects that survived.
    pub young_count: usize,
    /// Objects that no mark reached: their destructors are to be run, once each.
    pub dropped: Vec<Object>,
    /// False when a deferred decrement found no counted root reference, which
    /// only a corrupted journal can cause.
    pub consistent: bool,
}

/// The young generation and the collector's view of the roots: the journals it
/// reads, the root map they feed, the decrements deferred to the end of the next
/// minor collection, and the mature heap.
pub struct YoungHeap<S: StatsLogger, T: CollectOps> {
    num_threads: usize,
    journals: Vec<Receiver<Object>>,
    roots: RootMap,
    deferred: Vec<Object>,
    mature: T,
    logger: S,
}

impl<S: StatsLogger, T: CollectOps> YoungHeap<S, T> {
    /// Root metadata by address key.
    pub closed spec fn roots_view(&self) -> Map<usize, RootMeta> {
        self.roots@
    }

    /// The decrement records not yet applied, oldest first.
    pub closed spec fn deferred_view(&self) -> Seq<Object> {
        self.deferred@
    }

    /// The mature objects by address key.
    pub closed spec fn mature_view(&self) -> Map<usize, ObjectMeta> {
        self.mature.heap_view()
    }

    /// How many journals are connected.
    pub closed spec fn journal_count(&self) -> nat {
        self.journals@.len()
    }

    /// The journals connected, in the order they are read.
    pub closed spec fn journals_view(&self) -> Seq<Receiver<Object>> {
        self.journals@
    }

    /// Between collections: map keys come from addresses and no entry of either
    /// map is marked.
    pub open spec fn wf(&self) -> bool {
        &&& roots_at_rest(self.roots_view())
        &&& keys_in_range(self.mature_view())
        &&& forall|k: usize| #[trigger]
            self.mature_view().contains_key(k) ==> !self.mature_view()[k].spec_is_marked()
    }

    /// A collector with no journals, an empty root map and the mature heap
    /// `mature`.
    pub fn new(num_threads: usize, mature: T, logger: S) -> (r: YoungHeap<S, T>)
        requires
            heap_at_rest(mature.heap_view()),
        ensures
            r.wf(),
            r.roots_view() == Map::<usize, RootMeta>::empty(),
            r.deferred_view() == Seq::<Object>::empty(),
            r.mature_view() == mature.heap_view(),
            r.journal_count() == 0,
    {
        YoungHeap {
            num_threads,
            journals: Vec::new(),
            roots: RootMap::new(),
            deferred: Vec::new(),
            mature,
            logger,
        }
    }

    /// Adds a journal to read.
    pub fn add_journal(&mut self, recv: Receiver<Object>)
        ensures
            final(self).journal_count() == old(self).journal_count() + 1,
            final(self).roots_view() == old(self).roots_view(),
            final(self).deferred_view() == old(self).deferred_view(),
            final(self).mature_view() == old(self).mature_view(),
            final(self).wf() == old(self).wf(),
    {
        self.journals.push(recv);
    }

    /// The number of journals connected.
    pub fn num_journals(&self) -> (r: usize)
        ensures
            r == self.journal_count(),
    {
        self.journals.len()
    }

    /// Applies one journal record to the root map: a new object enters it, an
    /// increment counts one more root reference, a decrement is deferred.
    pub fn process_entry(&mut self, entry: Object)
        requires
            old(self).wf(),
        ensures
            final(self).wf(),
            (final(self).roots_view(), final(self).deferred_view()) == record_applied(
                old(self).roots_view(),
                old(self).deferred_view(),
                entry,
            ),
            final(self).mature_view() == old(self).mature_view(),
            final(self).journals_view() == old(self).journals_view(),
    {
        proof {
            lemma_record_at_rest(self.roots@, self.deferred@, entry);
            let p = entry.ptr;
            assert(p & 3usize <= 3usize) by (bit_vector);
        }
        let kind = entry.ptr & FLAGS_MASK;
        let ptr = entry.ptr >> (ptr_shift() as usize);
        if kind == NEW_INC {
            self.roots.insert(ptr, RootMeta::one(entry.vtable, NEW_BIT));
        } else if kind == NEW {
            self.roots.insert(ptr, RootMeta::zero(entry.vtable, NEW_BIT));
        } else if kind == INC {
            let found = self.roots.get(&ptr);
            let mut meta = match found {
                Some(m) => *m,
                None => RootMeta::zero(entry.vtable, 0),
            };
            if meta.refcount < usize::MAX {
                meta.unsync_inc();
            }
            self.roots.insert(ptr, meta);
        } else {
            self.deferred.push(entry);
        }
    }

    /// Reads every journal for a few rounds, a bounded number of records each time,
    /// applying each record; then lets go of the journals whose sender has hung up
    /// and which are read to the end, keeping the others in order. Returns how many
    /// records were read.
    pub fn read_journals(&mut self) -> (r: usize)
        requires
            old(self).wf(),
        ensures
            final(self).wf(),
            exists|es: Seq<Object>|
                {
                    &&& (final(self).roots_view(), final(self).deferred_view()) == records_applied(
                        old(self).roots_view(),
                        old(self).deferred_view(),
                        es,
                    )
                    &&& es.len() <= JOURNAL_RUN * BUFFER_RUN * old(self).journal_count()
                    &&& r == (if es.len() < usize::MAX {
                        es.len() as usize
                    } else {
                        usize::MAX
                    })
                },
            final(self).mature_view() == old(self).mature_view(),
            exists|kept: Seq<int>|
                #[trigger] picked_in_order(old(self).journals_view(), final(self).journals_view(), kept),
    {
        let ghost m0 = self.roots@;
        let ghost d0 = self.deferred@;
        let ghost mut es: Seq<Object> = Seq::empty();
        let ghost mat = self.mature.heap_view();
        let ghost len = self.journals@.len() as int;
        let ghost j0 = self.journals@;
        let mut entry_count: usize = 0;
        let mut round: usize = 0;
        while round < JOURNAL_RUN
            invariant
                self.wf(),
                self.mature.heap_view() == mat,
                self.journals@ == j0,
                len == j0.len(),
                (self.roots@, self.deferred@) == records_applied(m0, d0, es),
                es.len() <= round * (len * BUFFER_RUN),
                round <= JOURNAL_RUN,
                entry_count == (if es.len() < usize::MAX {
                    es.len() as usize
                } else {
                    usize::MAX
                }),
            decreases JOURNAL_RUN - round,
        {
            let mut j: usize = 0;
            while j < self.journals.len()
                invariant
                    self.wf(),
                    self.mature.heap_view() == mat,
                    self.journals@ == j0,
                    len == j0.len(),
                    j <= len,
                    round < JOURNAL_RUN,
                    (self.roots@, self.deferred@) == records_applied(m0, d0, es),
                    es.len() <= round * (len * BUFFER_RUN) + j * BUFFER_RUN,
                    entry_count == (if es.len() < usize::MAX {
                        es.len() as usize
                    } else {
                        usize::MAX
                    }),
                decreases self.journals@.len() - j,
            {
                let mut n: usize = 0;
                while n < BUFFER_RUN
                    invariant
                        self.wf(),
                        j < self.journals@.len(),
                        n <= BUFFER_RUN,
                        self.mature.heap_view() == mat,
                        self.journals@ == j0,
                        (self.roots@, self.deferred@) == records_applied(m0, d0, es),
                        es.len() <= round * (len * BUFFER_RUN) + j * BUFFER_RUN + n,
                        entry_count == (if es.len() < usize::MAX {
                            es.len() as usize
                        } else {
                            usize::MAX
                        }),
                    decreases BUFFER_RUN - n,
                {
                    match self.journals[j].try_recv() {
                        Ok(entry) => {
                            proof {
                                assert(es.push(entry).drop_last() == es);
                            }
                            self.process_entry(entry);
                            proof {
                                es = es.push(entry);
                            }
                            if entry_count < usize::MAX {
                                entry_count = entry_count + 1;
                            }
                            n = n + 1;
                        },
                        Err(_) => {
                            n = BUFFER_RUN;
                        },
                    }
                }
                j = j + 1;
            }
            proof {
                assert(round * (len * BUFFER_RUN) + len * BUFFER_RUN == (round + 1) * (len
                    * BUFFER_RUN)) by (nonlinear_arith);
            }
            round = round + 1;
        }
        proof {
            assert(JOURNAL_RUN * (len * BUFFER_RUN) == JOURNAL_RUN * BUFFER_RUN * len) by (nonlinear_arith);
        }
        let count = self.journals.len();
        let mut i: usize = 0;
        let ghost mut kept: Seq<int> = Seq::empty();
        let ghost mut kept_j: Seq<Receiver<Object>> = Seq::empty();
        while i < count
            invariant
                self.wf(),
                self.mature.heap_view() == mat,
                (self.roots@, self.deferred@) == records_applied(m0, d0, es),
                i <= count,
                count == j0.len(),
                self.journals@ == j0.subrange(i as int, count as int) + kept_j,
                kept.len() == kept_j.len(),
                forall|t: int| #![trigger kept[t]]
                    0 <= t < kept.len() ==> 0 <= kept[t] < i && kept_j[t] == j0[kept[t]],
                forall|t: int, u: int| 0 <= t < u < kept.len() ==> kept[t] < kept[u],
            decreases count - i,
        {
            let ghost before = self.journals@;
            assert(before[0] == j0[i as int]);
            let journal = self.journals.remove(0);
            proof {
                assert(self.journals@ =~= j0.subrange(i + 1, count as int) + kept_j);
            }
            if !journal.is_disconnected() {
                self.journals.push(journal);
                proof {
                    kept = kept.push(i as int);
                    kept_j = kept_j.push(journal);
                    assert(self.journals@ =~= j0.subrange(i + 1, count as int) + kept_j);
                }
            }
            i = i + 1;
        }
        proof {
            assert(self.journals@ =~= kept_j);
            assert((self.roots_view(), self.deferred_view()) == records_applied(
                old(self).roots_view(),
                old(self).deferred_view(),
                es,
            ));
            assert(es.len() <= JOURNAL_RUN * BUFFER_RUN * old(self).journal_count());
            assert(entry_count == (if es.len() < usize::MAX {
                es.len() as usize
            } else {
                usize::MAX
            }));
            assert(picked_in_order(old(self).journals_view(), self.journals_view(), kept));
        }
        entry_count
    }
}

/// Applies the deferred decrements `decs` to the root map in order; false when
/// one of them found no counted root reference (that one is skipped).
fn merge_deferred(roots: &mut RootMap, decs: &Vec<Object>) -> (ok: bool)
    ensures
        (final(roots)@, ok) == decs_merged(old(roots)@, decs@),
{
    let ghost m0 = roots@;
    let mut ok = true;
    for i in 0..decs.len()
        invariant
            (roots@, ok) == decs_merged(m0, decs@.subrange(0, i as int)),
    {
        let ghost sub = decs@.subrange(0, i + 1);
        proof {
            assert(sub.drop_last() =~= decs@.subrange(0, i as int));
            assert(sub.last() == decs@[i as int]);
        }
        let object = decs[i];
        let ptr = object.ptr >> (ptr_shift() as usize);
        let found = roots.get(&ptr);
        match found {
            Some(m) => {
                if m.refcount > 0 {
                    let mut meta = *m;
                    meta.dec();
                    roots.insert(ptr, meta);
                } else {
                    ok = false;
                }
            },
            None => {
                ok = false;
            },
        }
    }
    proof {
        assert(decs@.subrange(0, decs@.len() as int) =~= decs@);
    }
    ok
}

impl<S: StatsLogger, T: CollectOps> YoungHeap<S, T> {
    /// Runs a minor collection: marks from the minor roots, sweeps, then applies
    /// the deferred decrements. `trace` lists an object's outgoing references.
    pub fn minor_collection<F: Fn(Object) -> Vec<Object>>(&mut self, trace: &F) -> (r: MinorResult)
        requires
            old(self).wf(),
            trace_is_function(*trace),
        ensures
            final(self).wf(),
            final(self).deferred_view() == Seq::<Object>::empty(),
            final(self).mature_view() == old(self).mature_view(),
            final(self).journal_count() == old(self).journal_count(),
            r.dropped@.no_duplicates(),
            exists|marked: Map<usize, RootMeta>|
                {
                    &&& minor_marking(*trace, old(self).roots_view(), marked)
                    &&& (final(self).roots_view(), r.consistent) == decs_merged(
                        swept_roots(marked),
                        old(self).deferred_view(),
                    )
                    &&& r.young_count == surviving_young(marked).len()
                    &&& forall|j: int| #![trigger r.dropped@[j]]
                        0 <= j < r.dropped@.len() ==> marked.contains_key(r.dropped@[j].key())
                            && minor_drops(marked[r.dropped@[j].key()]) && r.dropped@[j]
                            == root_object(r.dropped@[j].key(), old(self).roots_view()[r.dropped@[j].key()])
                    &&& forall|k: usize| #[trigger]
                        marked.contains_key(k) && minor_drops(marked[k]) ==> r.dropped@.contains(
                            root_object(k, old(self).roots_view()[k]),
                        )
                },
    {
        let ghost before = self.roots@;
        let ghost d0 = self.deferred@;
        mark(&mut self.roots, trace);
        let ghost marked = self.roots@;
        proof {
            assert(minor_marking(*trace, before, marked));
            assert forall|k: usize| #[trigger] marked.contains_key(k) implies key_in_range(k) by {
                assert(before.contains_key(k));
            }
            assert forall|k: usize| #[trigger] marked.contains_key(k) implies root_object(k, marked[k])
                == root_object(k, before[k]) by {
                before[k].lemma_marked();
            }
        }
        let (young_count, dropped) = sweep(&mut self.roots);
        let ghost swept = self.roots@;
        let consistent = merge_deferred(&mut self.roots, &self.deferred);
        proof {
            lemma_decs_merged_shape(swept, self.deferred@);
            let fin = self.roots@;
            assert forall|k: usize| #[trigger] fin.contains_key(k) implies !fin[k].spec_is_marked() by {
                marked[k].lemma_unmarked();
                assert(fin[k].flags == swept[k].flags);
            }
            assert forall|k: usize| #[trigger] fin.contains_key(k) implies key_in_range(k) by {
                assert(before.contains_key(k));
            }
        }
        self.deferred.clear();
        self.logger.add_dropped(dropped.len());
        let r = MinorResult { young_count, dropped, consistent };
        proof {
            assert(swept == swept_roots(marked));
            assert((self.roots_view(), r.consistent) == decs_merged(swept_roots(marked), d0));
            assert(minor_marking(*trace, old(self).roots_view(), marked));
            assert(r.young_count == surviving_young(marked).len());
        }
        r
    }

    /// Makes every young rooted entry mature: adds it to the mature heap and
    /// clears its `NEW` flag.
    fn promote(&mut self)
        requires
            old(self).wf(),
        ensures
            final(self).wf(),
            final(self).roots_view() == promoted_roots(old(self).roots_view()),
            final(self).mature_view() == promoted_heap(old(self).roots_view(), old(self).mature_view()),
            final(self).deferred_view() == old(self).deferred_view(),
            final(self).journal_count() == old(self).journal_count(),
    {
        let ghost m0 = self.roots@;
        let ghost h0 = self.mature.heap_view();
        let keys = map_keys(&self.roots);
        for i in 0..keys.len()
            invariant
                keys@.to_set() == m0.dom(),
                keys@.no_duplicates(),
                roots_at_rest(m0),
                heap_at_rest(self.mature.heap_view()),
                self.deferred@ == old(self).deferred@,
                self.journals@ == old(self).journals@,
                self.roots@.dom() == m0.dom(),
                forall|j: int| #![trigger keys@[j]]
                    0 <= j < i ==> self.roots@[keys@[j]] == promoted_roots(m0)[keys@[j]],
                forall|j: int| #![trigger keys@[j]]
                    i <= j < keys@.len() ==> self.roots@[keys@[j]] == m0[keys@[j]],
                forall|k: usize| #[trigger] self.mature.heap_view().contains_key(k) <==> (
                    h0.contains_key(k) || exists|j: int|
                        0 <= j < i && keys@[j] == k && is_promotable(m0[k])),
                forall|k: usize| #[trigger] self.mature.heap_view().contains_key(k) ==> (
                    self.mature.heap_view()[k] == if exists|j: int|
                        0 <= j < i && keys@[j] == k && is_promotable(m0[k]) {
                        ObjectMeta { vtable: m0[k].vtable & MARK_MASK }
                    } else {
                        h0[k]
                    }),
        {
            let k = keys[i];
            proof {
                assert(keys@.contains(k));
                assert(m0.contains_key(k));
            }
            let meta = *self.roots.get(&k).unwrap();
            let ghost h1 = self.mature.heap_view();
            if !meta.unsync_is_unrooted() && meta.is_new() {
                self.mature.add_object(k, meta.vtable);
                let mut aged = meta;
                aged.set_not_new();
                self.roots.insert(k, aged);
            }
            proof {
                assert(meta == m0[k]);
                assert(self.roots@.dom() =~= m0.dom());
                assert forall|j: int| #![trigger keys@[j]]
                    0 <= j < i + 1 implies self.roots@[keys@[j]] == promoted_roots(m0)[keys@[j]] by {
                    if j < i {
                        assert(keys@[j] != k);
                    }
                }
                assert forall|j: int| #![trigger keys@[j]]
                    i + 1 <= j < keys@.len() implies self.roots@[keys@[j]] == m0[keys@[j]] by {
                    assert(keys@[j] != k);
                }
                assert forall|x: usize| #[trigger] self.mature.heap_view().contains_key(x) <==> (
                    h0.contains_key(x) || exists|j: int|
                        0 <= j < i + 1 && keys@[j] == x && is_promotable(m0[x])) by {
                    if x == k && is_promotable(m0[x]) {
                        assert(keys@[i as int] == x);
                    }
                    if exists|j: int| 0 <= j < i + 1 && keys@[j] == x && is_promotable(m0[x]) {
                        let j = choose|j: int| 0 <= j < i + 1 && keys@[j] == x && is_promotable(m0[x]);
                        if j < i {
                            assert(h1.contains_key(x));
                        }
                    }
                }
                assert forall|x: usize| #[trigger] self.mature.heap_view().contains_key(x) implies (
                    self.mature.heap_view()[x] == if exists|j: int|
                        0 <= j < i + 1 && keys@[j] == x && is_promotable(m0[x]) {
                        ObjectMeta { vtable: m0[x].vtable & MARK_MASK }
                    } else {
                        h0[x]
                    }) by {
                    if x == k && is_promotable(m0[x]) {
                        assert(keys@[i as int] == x);
                    } else if x != k {
                        assert(h1.contains_key(x));
                        if exists|j: int| 0 <= j < i + 1 && keys@[j] == x && is_promotable(m0[x]) {
                            let j = choose|j: int| 0 <= j < i + 1 && keys@[j] == x && is_promotable(m0[x]);
                            assert(j < i);
                        }
                    } else {
                        assert(h1.contains_key(x));
                        if exists|j: int| 0 <= j < i + 1 && keys@[j] == x && is_promotable(m0[x]) {
                            let j = choose|j: int| 0 <= j < i + 1 && keys@[j] == x && is_promotable(m0[x]);
                            assert(keys@[j] == k);
                        }
                    }
                }
            }
        }
        proof {
            let mf = self.roots@;
            assert forall|k: usize| mf.contains_key(k) implies mf[k] == promoted_roots(m0)[k] by {
                assert(keys@.to_set().contains(k));
                let j = choose|j: int| 0 <= j < keys@.len() && keys@[j] == k;
                assert(keys@[j] == k);
            }
            assert(mf =~= promoted_roots(m0));
            let hf = self.mature.heap_view();
            let ph = promoted_heap(m0, h0);
            assert forall|k: usize| hf.contains_key(k) <==> ph.contains_key(k) by {
                if m0.contains_key(k) && is_promotable(m0[k]) {
                    assert(keys@.to_set().contains(k));
                    let j = choose|j: int| 0 <= j < keys@.len() && keys@[j] == k;
                    assert(keys@[j] == k);
                }
            }
            assert forall|k: usize| hf.contains_key(k) implies hf[k] == ph[k] by {
                if m0.contains_key(k) && is_promotable(m0[k]) {
                    assert(keys@.to_set().contains(k));
                    let j = choose|j: int| 0 <= j < keys@.len() && keys@[j] == k;
                    assert(keys@[j] == k);
                }
            }
            assert(hf =~= ph);
            assert forall|k: usize| #[trigger] mf.contains_key(k) implies !mf[k].spec_is_marked() by {
                let f = m0[k].flags;
                assert(f & 1usize == 0 ==> (f & !2usize) & 1usize == 0) by (bit_vector);
            }
        }
    }

    /// Runs a major collection: promotes the young rooted entries, then marks the
    /// mature heap from the rooted entries and sweeps it. Returns the objects to
    /// destroy.
    pub fn major_collection<F: Fn(Object) -> Vec<Object>>(&mut self, trace: &F) -> (r: Vec<Object>)
        requires
            old(self).wf(),
            trace_is_function(*trace),
        ensures
            final(self).wf(),
            final(self).roots_view() == promoted_roots(old(self).roots_view()),
            final(self).deferred_view() == old(self).deferred_view(),
            final(self).journal_count() == old(self).journal_count(),
            r@.no_duplicates(),
            r@.len() + final(self).mature_view().dom().len() == promoted_heap(
                old(self).roots_view(),
                old(self).mature_view(),
            ).dom().len(),
            exists|marked: Map<usize, ObjectMeta>|
                #![trigger swept_heap(marked)]
                {
                    let promoted = promoted_heap(old(self).roots_view(), old(self).mature_view());
                    &&& major_marking(*trace, final(self).roots_view(), promoted, marked)
                    &&& final(self).mature_view() == swept_heap(marked)
                    &&& forall|j: int| #![trigger r@[j]]
                        0 <= j < r@.len() ==> marked.contains_key(r@[j].key())
                            && !marked[r@[j].key()].spec_is_marked() && r@[j] == heap_object(
                            r@[j].key(),
                            promoted[r@[j].key()],
                        )
                    &&& forall|k: usize| #[trigger]
                        marked.contains_key(k) && !marked[k].spec_is_marked() ==> r@.contains(
                            heap_object(k, promoted[k]),
                        )
                },
    {
        self.promote();
        let (heap_size, dropped) = self.mature.collect(&self.roots, trace);
        self.logger.current_heap_size(heap_size);
        self.logger.add_dropped(dropped.len());
        dropped
    }

    /// The statistics logger.
    pub fn logger(&mut self) -> &mut S {
        &mut self.logger
    }

    /// Ends collection and hands back the statistics logger.
    pub fn shutdown(self) -> S {
        self.logger
    }
}

} // verus!
