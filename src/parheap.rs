//! The mature generation: objects that survived as roots into a major
//! collection, marked from the root map and swept when no mark reaches them.
use vstd::prelude::*;

use crate::constants::MARK_MASK;
use crate::heap::{RootMeta, key_in_range, lemma_key_round_trip, ptr_shift, HeapMap, Object, ObjectMeta, RootMap, TraceStack};
use crate::marking::{
    heap_child_covered, heap_children_covered, heap_closed, heap_marked_from, heap_object,
    heap_at_rest, keys_in_range, lemma_major_children_reachable, lemma_major_pending_concat, lemma_major_pending_pop,
    lemma_major_root_reachable, major_marks_reachable, major_pending_reachable, major_reachable, major_marking, swept_heap, trace_is_function,
};
use crate::youngheap::map_keys;

verus! {

broadcast use {vstd::std_specs::btree::group_btree_axioms, vstd::laws_cmp::group_laws_cmp};

/// Keys of the mature map whose entries are not marked.
pub open spec fn unmarked_objects(m: Map<usize, ObjectMeta>) -> Set<usize> {
    m.dom().filter(|k: usize| !m[k].spec_is_marked())
}

proof fn lemma_unmarked_objects_shrink(m: Map<usize, ObjectMeta>, k: usize)
    requires
        m.dom().finite(),
        m.contains_key(k),
        !m[k].spec_is_marked(),
    ensures
        unmarked_objects(m.insert(k, m[k].marked())) == unmarked_objects(m).remove(k),
        unmarked_objects(m).finite(),
        unmarked_objects(m.insert(k, m[k].marked())).len() < unmarked_objects(m).len(),
{
    m[k].lemma_marked();
    let m1 = m.insert(k, m[k].marked());
    assert(unmarked_objects(m1) =~= unmarked_objects(m).remove(k));
    m.dom().lemma_len_filter(|x: usize| !m[x].spec_is_marked());
    assert(unmarked_objects(m).contains(k));
}

/// After `c` is taken off the stack and its entry, if any, marked, every marked
/// traversible entry but a newly marked `c` is still covered.
proof fn lemma_heap_pop_step<F: Fn(Object) -> Vec<Object>>(
    trace: F,
    m: Map<usize, ObjectMeta>,
    m1: Map<usize, ObjectMeta>,
    s: Seq<Object>,
    c: Object,
)
    requires
        heap_closed(trace, m, s.push(c)),
        m1 == (if m.contains_key(c.key()) {
            m.insert(c.key(), m[c.key()].marked())
        } else {
            m
        }),
    ensures
        forall|k: usize|
            #![trigger m1[k]]
            m1.contains_key(k) && m1[k].spec_is_marked() && m1[k].spec_traversible() && !(k
                == c.key() && !m[k].spec_is_marked()) ==> heap_children_covered(trace, m1, s, k),
{
    assert forall|k: usize|
        #![trigger m1[k]]
        m1.contains_key(k) && m1[k].spec_is_marked() && m1[k].spec_traversible() && !(k == c.key()
            && !m[k].spec_is_marked()) implies heap_children_covered(trace, m1, s, k) by {
        if k == c.key() {
            m[k].lemma_marked();
        }
        assert(m1[k] == m[k]);
        assert(m[k].spec_is_marked() && m[k].spec_traversible());
        assert(heap_children_covered(trace, m, s.push(c), k));
        assert forall|r: Vec<Object>, i: int|
            #![trigger trace.ensures((heap_object(k, m1[k]),), r), r@[i]]
            trace.ensures((heap_object(k, m1[k]),), r) && 0 <= i < r@.len() implies heap_child_covered(
                m1,
                s,
                r@[i],
            ) by {
            let c2 = r@[i];
            assert(heap_child_covered(m, s.push(c), c2));
            if m.contains_key(c2.key()) && m[c2.key()].spec_is_marked() {
                if c2.key() == c.key() {
                    m[c2.key()].lemma_marked();
                }
            } else if m.contains_key(c2.key()) && s.push(c).contains(c2) {
                let j = choose|j: int| 0 <= j < s.push(c).len() && s.push(c)[j] == c2;
                if j < s.len() {
                    assert(s[j] == c2);
                } else {
                    m[c.key()].lemma_marked();
                }
            }
        }
    }
}

/// Pushing more objects keeps every covered entry covered.
proof fn lemma_heap_push_keeps<F: Fn(Object) -> Vec<Object>>(
    trace: F,
    m: Map<usize, ObjectMeta>,
    s: Seq<Object>,
    extra: Seq<Object>,
    k: usize,
)
    requires
        heap_children_covered(trace, m, s, k),
    ensures
        heap_children_covered(trace, m, s + extra, k),
{
    assert forall|r: Vec<Object>, i: int|
        #![trigger trace.ensures((heap_object(k, m[k]),), r), r@[i]]
        trace.ensures((heap_object(k, m[k]),), r) && 0 <= i < r@.len() implies heap_child_covered(
            m,
            s + extra,
            r@[i],
        ) by {
        let c2 = r@[i];
        assert(heap_child_covered(m, s, c2));
        if s.contains(c2) {
            let j = choose|j: int| 0 <= j < s.len() && s[j] == c2;
            assert((s + extra)[j] == c2);
        }
    }
}

/// The children just pushed for entry `k` cover it.
proof fn lemma_heap_pushed_covers<F: Fn(Object) -> Vec<Object>>(
    trace: F,
    m: Map<usize, ObjectMeta>,
    s: Seq<Object>,
    children: Vec<Object>,
    k: usize,
)
    requires
        trace_is_function(trace),
        trace.ensures((heap_object(k, m[k]),), children),
    ensures
        heap_children_covered(trace, m, s + children@, k),
{
    assert forall|r: Vec<Object>, i: int|
        #![trigger trace.ensures((heap_object(k, m[k]),), r), r@[i]]
        trace.ensures((heap_object(k, m[k]),), r) && 0 <= i < r@.len() implies heap_child_covered(
            m,
            s + children@,
            r@[i],
        ) by {
        assert(r@ == children@);
        assert((s + children@)[s.len() + i] == r@[i]);
    }
}

/// Marks everything reachable from the stack's objects through the mature map.
fn drain_heap<F: Fn(Object) -> Vec<Object>>(
    objects: &mut HeapMap,
    stack: &mut TraceStack,
    trace: &F,
    Ghost(rts): Ghost<Map<usize, RootMeta>>,
    Ghost(base): Ghost<Map<usize, ObjectMeta>>,
)
    requires
        trace_is_function(*trace),
        heap_closed(*trace, old(objects)@, old(stack)@),
        heap_marked_from(base, old(objects)@),
        forall|k: usize| #[trigger] base.contains_key(k) ==> !base[k].spec_is_marked(),
        major_marks_reachable(*trace, rts, base, old(objects)@),
        major_pending_reachable(*trace, rts, base, old(stack)@),
    ensures
        heap_marked_from(old(objects)@, final(objects)@),
        final(stack)@.len() == 0,
        heap_closed(*trace, final(objects)@, Seq::<Object>::empty()),
        heap_marked_from(base, final(objects)@),
        major_marks_reachable(*trace, rts, base, final(objects)@),
{
    let ghost m0 = objects@;
    loop
        invariant
            trace_is_function(*trace),
            heap_marked_from(m0, objects@),
            heap_closed(*trace, objects@, stack@),
            heap_marked_from(base, objects@),
            forall|k: usize| #[trigger] base.contains_key(k) ==> !base[k].spec_is_marked(),
            major_marks_reachable(*trace, rts, base, objects@),
            major_pending_reachable(*trace, rts, base, stack@),
        ensures
            heap_marked_from(m0, objects@),
            stack@.len() == 0,
            heap_closed(*trace, objects@, stack@),
            heap_marked_from(base, objects@),
            major_marks_reachable(*trace, rts, base, objects@),
        decreases unmarked_objects(objects@).len(), stack@.len(),
    {
        let ghost m = objects@;
        let ghost s_before = stack@;
        match stack.pop() {
            None => {
                break;
            },
            Some(c) => {
                let ghost s = stack@;
                proof {
                    assert(s_before == s.push(c));
                    lemma_major_pending_pop(*trace, rts, base, s, c);
                }
                let ck = c.ptr >> (ptr_shift() as usize);
                assert(ck == c.key());
                let found = objects.get(&ck);
                match found {
                    None => {
                        proof {
                            lemma_heap_pop_step(*trace, m, m, s, c);
                            assert(heap_closed(*trace, objects@, stack@));
                            assert(unmarked_objects(objects@).len() <= unmarked_objects(m).len());
                        }
                    },
                    Some(meta_ref) => {
                        let mut meta = *meta_ref;
                        let ghost old_meta = meta;
                        let needs = meta.mark_and_needs_trace();
                        objects.insert(ck, meta);
                        let ghost m1 = objects@;
                        proof {
                            old_meta.lemma_marked();
                            assert(old_meta == m[ck]);
                            assert(m1.dom() =~= m0.dom());
                            lemma_heap_pop_step(*trace, m, m1, s, c);
                            assert forall|k: usize| #[trigger] m0.contains_key(k) implies m1[k] == m0[k]
                                || m1[k] == m0[k].marked() by {
                                if k == ck {
                                    m0[k].lemma_marked();
                                }
                            }
                            if old_meta.spec_is_marked() {
                                assert(m1 =~= m);
                            } else {
                                lemma_unmarked_objects_shrink(m, ck);
                            }
                            base[ck].lemma_marked();
                            assert(m1[ck] == base[ck].marked());
                            assert forall|k: usize| #[trigger] base.contains_key(k) implies m1[k] == base[k]
                                || m1[k] == base[k].marked() by {}
                            assert(m1.dom() =~= base.dom());
                            assert forall|k: usize| #![trigger m1[k]]
                                m1.contains_key(k) && m1[k].spec_is_marked() implies major_reachable(*trace, rts, base, k) by {
                                if k != ck {
                                    assert(m1[k] == m[k]);
                                }
                            }
                        }
                        if needs {
                            let obj = Object::from_trie_ptr(ck, meta.vtable());
                            assert(obj == heap_object(ck, m1[ck]));
                            let children = trace(obj);
                            stack.from_roots(children.as_slice());
                            proof {
                                assert(heap_object(ck, m1[ck]) == heap_object(ck, base[ck]));
                                lemma_major_children_reachable(*trace, rts, base, ck, children);
                                lemma_major_pending_concat(*trace, rts, base, s, children@);
                                lemma_heap_pushed_covers(*trace, m1, s, children, ck);
                                assert forall|k: usize|
                                    #![trigger m1[k]]
                                    m1.contains_key(k) && m1[k].spec_is_marked() && m1[k].spec_traversible()
                                        implies heap_children_covered(*trace, m1, stack@, k) by {
                                    if k != ck {
                                        lemma_heap_push_keeps(*trace, m1, s, children@, k);
                                    }
                                }
                            }
                        } else {
                            proof {
                                assert(heap_closed(*trace, m1, stack@));
                            }
                        }
                    },
                }
            },
        }
    }
}

/// Marking one entry keeps every other marked traversible entry covered.
proof fn lemma_heap_mark_keeps<F: Fn(Object) -> Vec<Object>>(
    trace: F,
    m: Map<usize, ObjectMeta>,
    s: Seq<Object>,
    key: usize,
)
    requires
        heap_closed(trace, m, s),
        m.contains_key(key),
    ensures
        forall|k: usize|
            #![trigger m.insert(key, m[key].marked())[k]]
            m.insert(key, m[key].marked()).contains_key(k) && m.insert(key, m[key].marked())[k].spec_is_marked()
                && m.insert(key, m[key].marked())[k].spec_traversible() && !(k == key
                && !m[k].spec_is_marked()) ==> heap_children_covered(
                trace,
                m.insert(key, m[key].marked()),
                s,
                k,
            ),
{
    let m1 = m.insert(key, m[key].marked());
    m[key].lemma_marked();
    assert forall|k: usize|
        #![trigger m1[k]]
        m1.contains_key(k) && m1[k].spec_is_marked() && m1[k].spec_traversible() && !(k == key
            && !m[k].spec_is_marked()) implies heap_children_covered(trace, m1, s, k) by {
        assert(m1[k] == m[k]);
        assert(heap_children_covered(trace, m, s, k));
        assert forall|r: Vec<Object>, i: int|
            #![trigger trace.ensures((heap_object(k, m1[k]),), r), r@[i]]
            trace.ensures((heap_object(k, m1[k]),), r) && 0 <= i < r@.len() implies heap_child_covered(
                m1,
                s,
                r@[i],
            ) by {
            assert(heap_child_covered(m, s, r@[i]));
        }
    }
}

/// Marks every mature object that a rooted entry of `roots` stands for, and
/// everything reachable from one through the mature map.
fn mark<F: Fn(Object) -> Vec<Object>>(objects: &mut HeapMap, roots: &RootMap, trace: &F)
    requires
        trace_is_function(*trace),
        forall|k: usize| #[trigger] old(objects)@.contains_key(k) ==> !old(objects)@[k].spec_is_marked(),
    ensures
        heap_marked_from(old(objects)@, final(objects)@),
        forall|k: usize| #[trigger]
            old(objects)@.contains_key(k) && roots@.contains_key(k) && roots@[k].refcount > 0
                ==> final(objects)@[k].spec_is_marked(),
        heap_closed(*trace, final(objects)@, Seq::<Object>::empty()),
        (forall|k: usize| #[trigger] roots@.contains_key(k) ==> roots@[k].refcount == 0)
            ==> final(objects)@ == old(objects)@,
        major_marks_reachable(*trace, roots@, old(objects)@, final(objects)@),
{
    let ghost m0 = objects@;
    let keys = map_keys(roots);
    let mut stack = TraceStack::new();
    proof {
        assert(heap_closed(*trace, m0, stack@));
    }
    for i in 0..keys.len()
        invariant
            trace_is_function(*trace),
            keys@.to_set() == roots@.dom(),
            heap_marked_from(m0, objects@),
            stack@ == Seq::<Object>::empty(),
            heap_closed(*trace, objects@, stack@),
            forall|j: int| #![trigger keys@[j]]
                0 <= j < i && m0.contains_key(keys@[j]) && roots@[keys@[j]].refcount > 0
                    ==> objects@[keys@[j]].spec_is_marked(),
            (forall|k: usize| #[trigger] roots@.contains_key(k) ==> roots@[k].refcount == 0) ==> objects@ == m0,
            forall|k: usize| #[trigger] m0.contains_key(k) ==> !m0[k].spec_is_marked(),
            major_marks_reachable(*trace, roots@, m0, objects@),
    {
        let k = keys[i];
        let ghost m = objects@;
        proof {
            assert(keys@.contains(k));
        }
        let root = *roots.get(&k).unwrap();
        if !root.unsync_is_unrooted() {
            match objects.get(&k) {
                None => {},
                Some(meta_ref) => {
                    let meta = *meta_ref;
                    let mut marked = meta;
                    let needs = marked.mark_and_needs_trace();
                    objects.insert(k, marked);
                    let ghost m1 = objects@;
                    proof {
                        meta.lemma_marked();
                        lemma_heap_mark_keeps(*trace, m, stack@, k);
                        assert(m1.dom() =~= m0.dom());
                        assert forall|x: usize| #[trigger] m0.contains_key(x) implies m1[x] == m0[x]
                            || m1[x] == m0[x].marked() by {
                            if x == k {
                                m0[x].lemma_marked();
                            }
                        }
                        if meta.spec_is_marked() {
                            assert(m1 =~= m);
                        }
                        lemma_major_root_reachable(*trace, roots@, m0, k);
                        assert forall|x: usize| #![trigger m1[x]]
                            m1.contains_key(x) && m1[x].spec_is_marked() implies major_reachable(*trace, roots@, m0, x) by {
                            if x != k {
                                assert(m1[x] == m[x]);
                            }
                        }
                    }
                    if needs {
                        let obj = Object::from_trie_ptr(k, marked.vtable());
                        assert(obj == heap_object(k, m1[k]));
                        let children = trace(obj);
                        stack.from_roots(children.as_slice());
                        proof {
                            m0[k].lemma_marked();
                            assert(meta == m0[k] || meta == m0[k].marked());
                            assert(heap_object(k, m1[k]) == heap_object(k, m0[k]));
                            lemma_major_children_reachable(*trace, roots@, m0, k, children);
                            lemma_heap_pushed_covers(*trace, m1, Seq::<Object>::empty(), children, k);
                            assert(Seq::<Object>::empty() + children@ == stack@);
                            assert forall|x: usize|
                                #![trigger m1[x]]
                                m1.contains_key(x) && m1[x].spec_is_marked() && m1[x].spec_traversible()
                                    implies heap_children_covered(*trace, m1, stack@, x) by {
                                if x != k {
                                    lemma_heap_push_keeps(*trace, m1, Seq::<Object>::empty(), children@, x);
                                }
                            }
                        }
                        drain_heap(objects, &mut stack, trace, Ghost(roots@), Ghost(m0));
                        proof {
                            let m2 = objects@;
                            assert(stack@ =~= Seq::<Object>::empty());
                            assert forall|x: usize| #[trigger] m0.contains_key(x) implies m2[x] == m0[x]
                                || m2[x] == m0[x].marked() by {
                                m0[x].lemma_marked();
                                assert(m2[x] == m1[x] || m2[x] == m1[x].marked());
                            }
                        }
                    }
                },
            }
        }
        proof {
            let mf = objects@;
            assert forall|j: int| #![trigger keys@[j]]
                0 <= j < i + 1 && m0.contains_key(keys@[j]) && roots@[keys@[j]].refcount > 0
                    implies mf[keys@[j]].spec_is_marked() by {
                let kj = keys@[j];
                m0[kj].lemma_marked();
                if j < i {
                    assert(m[kj].spec_is_marked());
                    m[kj].lemma_marked();
                }
            }
        }
    }
    proof {
        let mf = objects@;
        assert forall|k: usize| #[trigger]
            m0.contains_key(k) && roots@.contains_key(k) && roots@[k].refcount > 0
                implies mf[k].spec_is_marked() by {
            assert(keys@.to_set().contains(k));
            let j = choose|j: int| 0 <= j < keys@.len() && keys@[j] == k;
            assert(keys@[j] == k);
        }
    }
}

/// The mature sweep: drops every unmarked object and unmarks the rest. Returns
/// the number of objects the map held and the objects to destroy.
fn sweep(objects: &mut HeapMap) -> (r: (usize, Vec<Object>))
    requires
        keys_in_range(old(objects)@),
    ensures
        final(objects)@ == swept_heap(old(objects)@),
        r.0 == old(objects)@.dom().len(),
        forall|j: int| #![trigger r.1@[j]]
            0 <= j < r.1@.len() ==> old(objects)@.contains_key(r.1@[j].key())
                && !old(objects)@[r.1@[j].key()].spec_is_marked() && r.1@[j] == heap_object(
                r.1@[j].key(),
                old(objects)@[r.1@[j].key()],
            ),
        forall|k: usize| #[trigger]
            old(objects)@.contains_key(k) && !old(objects)@[k].spec_is_marked() ==> r.1@.contains(
                heap_object(k, old(objects)@[k]),
            ),
        r.1@.no_duplicates(),
        r.1@.len() + final(objects)@.dom().len() == old(objects)@.dom().len(),
{
    let ghost m0 = objects@;
    let keys = map_keys(objects);
    proof {
        keys@.unique_seq_to_set();
    }
    let mut dropped: Vec<Object> = Vec::new();
    let mut count: usize = 0;
    let ghost mut picks: Seq<int> = Seq::empty();
    for i in 0..keys.len()
        invariant
            keys@.to_set() == m0.dom(),
            keys@.no_duplicates(),
            keys_in_range(m0),
            count == i,
            objects@.dom().subset_of(m0.dom()),
            objects@.dom().finite(),
            dropped@.len() + objects@.dom().len() == m0.dom().len(),
            forall|j: int| #![trigger keys@[j]]
                i <= j < keys@.len() ==> objects@.contains_key(keys@[j]) && objects@[keys@[j]]
                    == m0[keys@[j]],
            forall|j: int| #![trigger keys@[j]]
                0 <= j < i ==> (objects@.contains_key(keys@[j]) == swept_heap(m0).contains_key(
                    keys@[j],
                )) && (objects@.contains_key(keys@[j]) ==> objects@[keys@[j]] == swept_heap(
                    m0,
                )[keys@[j]]),
            picks.len() == dropped@.len(),
            forall|t: int| #![trigger picks[t]]
                0 <= t < picks.len() ==> 0 <= picks[t] < i && !m0[keys@[picks[t]]].spec_is_marked()
                    && dropped@[t] == heap_object(keys@[picks[t]], m0[keys@[picks[t]]]),
            forall|t: int, u: int| 0 <= t < u < picks.len() ==> picks[t] < picks[u],
            forall|j: int| #![trigger keys@[j]]
                0 <= j < i && !m0[keys@[j]].spec_is_marked() ==> exists|t: int|
                    0 <= t < picks.len() && picks[t] == j,
    {
        let k = keys[i];
        proof {
            assert(keys@.contains(k));
            assert(m0.contains_key(k));
        }
        let meta = *objects.get(&k).unwrap();
        let ghost picks0 = picks;
        let ghost dropped0 = dropped@;
        count = count + 1;
        if !meta.is_marked() {
            let obj = Object::from_trie_ptr(k, meta.vtable());
            dropped.push(obj);
            let ghost before_remove = objects@;
            objects.remove(&k);
            proof {
                assert(before_remove.dom().contains(k));
                assert(objects@.dom() =~= before_remove.dom().remove(k));
            }
            proof {
                picks = picks.push(i as int);
            }
        } else {
            let mut kept = meta;
            kept.unmark();
            let ghost before_insert = objects@;
            objects.insert(k, kept);
            proof {
                assert(before_insert.dom().contains(k));
                assert(objects@.dom() =~= before_insert.dom());
            }
        }
        proof {
            meta.lemma_unmarked();
            assert(meta == m0[k]);
            assert forall|t: int| #![trigger picks[t]]
                0 <= t < picks.len() implies 0 <= picks[t] < i + 1 && !m0[keys@[picks[t]]].spec_is_marked()
                    && dropped@[t] == heap_object(keys@[picks[t]], m0[keys@[picks[t]]]) by {
                if t < picks0.len() {
                    assert(picks[t] == picks0[t]);
                    assert(dropped@[t] == dropped0[t]);
                }
            }
            assert forall|j: int| #![trigger keys@[j]]
                i + 1 <= j < keys@.len() implies objects@.contains_key(keys@[j]) && objects@[keys@[j]]
                    == m0[keys@[j]] by {
                assert(keys@[j] != k);
            }
            assert forall|j: int| #![trigger keys@[j]]
                0 <= j < i + 1 implies (objects@.contains_key(keys@[j]) == swept_heap(
                    m0,
                ).contains_key(keys@[j])) && (objects@.contains_key(keys@[j]) ==> objects@[keys@[j]]
                    == swept_heap(m0)[keys@[j]]) by {
                if j < i {
                    assert(keys@[j] != k);
                }
            }
            assert forall|j: int| #![trigger keys@[j]]
                0 <= j < i + 1 && !m0[keys@[j]].spec_is_marked() implies exists|t: int|
                    0 <= t < picks.len() && picks[t] == j by {
                if j == i {
                    assert(picks[picks.len() - 1] == j);
                } else {
                    let t = choose|t: int| 0 <= t < picks0.len() && picks0[t] == j;
                    assert(picks[t] == picks0[t]);
                }
            }
        }
    }
    proof {
        let mf = objects@;
        let sw = swept_heap(m0);
        assert forall|k: usize| mf.contains_key(k) <==> sw.contains_key(k) by {
            if m0.contains_key(k) {
                assert(keys@.to_set().contains(k));
                let j = choose|j: int| 0 <= j < keys@.len() && keys@[j] == k;
                assert(keys@[j] == k);
            }
        }
        assert forall|k: usize| mf.contains_key(k) implies mf[k] == sw[k] by {
            assert(keys@.to_set().contains(k));
            let j = choose|j: int| 0 <= j < keys@.len() && keys@[j] == k;
            assert(keys@[j] == k);
        }
        assert(mf =~= sw);
        assert forall|j: int| #![trigger dropped@[j]]
            0 <= j < dropped@.len() implies m0.contains_key(dropped@[j].key())
                && !m0[dropped@[j].key()].spec_is_marked() && dropped@[j] == heap_object(
                dropped@[j].key(),
                m0[dropped@[j].key()],
            ) by {
            let kj = keys@[picks[j]];
            assert(keys@.contains(kj));
            assert(keys@.to_set().contains(kj));
            assert(m0.contains_key(kj));
            lemma_key_round_trip(kj);
        }
        assert forall|k: usize| #[trigger]
            m0.contains_key(k) && !m0[k].spec_is_marked() implies dropped@.contains(heap_object(k, m0[k])) by {
            assert(keys@.to_set().contains(k));
            let j = choose|j: int| 0 <= j < keys@.len() && keys@[j] == k;
            assert(keys@[j] == k);
            let t = choose|t: int| 0 <= t < picks.len() && picks[t] == j;
            assert(dropped@[t] == heap_object(k, m0[k]));
        }
        assert forall|a: int, b: int| 0 <= a < dropped@.len() && 0 <= b < dropped@.len() && a != b
            implies dropped@[a] != dropped@[b] by {
            let ka = keys@[picks[a]];
            let kb = keys@[picks[b]];
            assert(picks[a] != picks[b]);
            assert(ka != kb);
            assert(keys@.contains(ka));
            assert(keys@.contains(kb));
            assert(keys@.to_set().contains(ka));
            assert(keys@.to_set().contains(kb));
            assert(m0.contains_key(ka));
            assert(m0.contains_key(kb));
            lemma_key_round_trip(ka);
            lemma_key_round_trip(kb);
        }
    }
    (count, dropped)
}

/// The mature heap: metadata of every object that has been promoted and not yet
/// dropped.
pub struct ParHeap {
    num_threads: usize,
    objects: HeapMap,
}

impl ParHeap {
    /// The mature objects by address key.
    pub closed spec fn objects_view(&self) -> Map<usize, ObjectMeta> {
        self.objects@
    }

    /// Keys come from addresses, and no object is marked between collections.
    pub open spec fn wf(&self) -> bool {
        heap_at_rest(self.objects_view())
    }

    pub closed spec fn spec_num_threads(&self) -> usize {
        self.num_threads
    }

    /// An empty mature heap whose collections are meant to use `num_threads`
    /// workers.
    pub fn new(num_threads: usize) -> (r: ParHeap)
        ensures
            r.wf(),
            r.objects_view() == Map::<usize, ObjectMeta>::empty(),
            r.spec_num_threads() == num_threads,
    {
        ParHeap { num_threads, objects: HeapMap::new() }
    }
}

/// Collection operations of a mature heap.
pub trait CollectOps {
    /// The heap's objects by address key.
    spec fn heap_view(&self) -> Map<usize, ObjectMeta>;

    /// Adds the object at key `ptr`, unmarked.
    fn add_object(&mut self, ptr: usize, vtable: usize)
        requires
            heap_at_rest(old(self).heap_view()),
            key_in_range(ptr),
        ensures
            heap_at_rest(final(self).heap_view()),
            final(self).heap_view() == old(self).heap_view().insert(
                ptr,
                ObjectMeta { vtable: vtable & MARK_MASK },
            ),
    ;

    /// Marks from the rooted entries of `roots` and sweeps. Returns the number of
    /// objects the heap held and the objects to destroy: exactly those that the
    /// marking did not reach.
    fn collect<F: Fn(Object) -> Vec<Object>>(&mut self, roots: &RootMap, trace: &F) -> (r: (
        usize,
        Vec<Object>,
    ))
        requires
            heap_at_rest(old(self).heap_view()),
            trace_is_function(*trace),
        ensures
            heap_at_rest(final(self).heap_view()),
            r.0 == old(self).heap_view().dom().len(),
            r.1@.no_duplicates(),
            r.1@.len() + final(self).heap_view().dom().len() == old(self).heap_view().dom().len(),
            exists|marked: Map<usize, ObjectMeta>|
                {
                    &&& major_marking(*trace, roots@, old(self).heap_view(), marked)
                    &&& final(self).heap_view() == swept_heap(marked)
                    &&& forall|j: int| #![trigger r.1@[j]]
                        0 <= j < r.1@.len() ==> marked.contains_key(r.1@[j].key())
                            && !marked[r.1@[j].key()].spec_is_marked() && r.1@[j] == heap_object(
                            r.1@[j].key(),
                            old(self).heap_view()[r.1@[j].key()],
                        )
                    &&& forall|k: usize| #[trigger]
                        marked.contains_key(k) && !marked[k].spec_is_marked() ==> r.1@.contains(
                            heap_object(k, old(self).heap_view()[k]),
                        )
                },
    ;
}

impl CollectOps for ParHeap {
    open spec fn heap_view(&self) -> Map<usize, ObjectMeta> {
        self.objects_view()
    }

    fn add_object(&mut self, ptr: usize, vtable: usize) {
        let meta = ObjectMeta::new(vtable & MARK_MASK);
        proof {
            assert((vtable & !1usize) & 1usize == 0) by (bit_vector);
        }
        self.objects.insert(ptr, meta);
    }

    fn collect<F: Fn(Object) -> Vec<Object>>(&mut self, roots: &RootMap, trace: &F) -> (r: (
        usize,
        Vec<Object>,
    ))
    {
        let ghost before = self.objects@;
        mark(&mut self.objects, roots, trace);
        let ghost marked = self.objects@;
        proof {
            assert(major_marking(*trace, roots@, before, marked));
            assert forall|k: usize| #[trigger] marked.contains_key(k) implies key_in_range(k) by {
                assert(before.contains_key(k));
            }
            assert forall|k: usize| #[trigger] marked.contains_key(k) implies heap_object(k, marked[k])
                == heap_object(k, before[k]) by {
                before[k].lemma_marked();
            }
            assert(marked.dom().len() == before.dom().len());
        }
        let r = sweep(&mut self.objects);
        proof {
            let sw = self.objects@;
            assert forall|k: usize| #[trigger] sw.contains_key(k) implies !sw[k].spec_is_marked() by {
                marked[k].lemma_unmarked();
            }
            assert forall|k: usize| #[trigger] sw.contains_key(k) implies key_in_range(k) by {
                assert(before.contains_key(k));
            }
        }
        r
    }
}

} // verus!
