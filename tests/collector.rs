use mo_gc::{
    make_journal, MinorResult, Object, ParHeap, StatsLogger, YoungHeap, DEC, INC, NEW, NEW_INC,
    TRAVERSE_BIT,
};

struct CountingLogger {
    dropped: usize,
    heap_size: usize,
}

impl StatsLogger for CountingLogger {
    fn mark_start_time(&mut self) {}
    fn mark_end_time(&mut self) {}
    fn add_sleep(&mut self, _ms: usize) {}
    fn add_dropped(&mut self, count: usize) {
        self.dropped += count;
    }
    fn current_heap_size(&mut self, size: usize) {
        self.heap_size = size;
    }
    fn dump_to_stdout(&self) {}
}

const VT: usize = 0x100;
const A: usize = 0x1000;
const B: usize = 0x2000;
const C: usize = 0x3000;

// A points at B; nothing else points anywhere.
fn graph(o: Object) -> Vec<Object> {
    if o.ptr == A {
        vec![Object { ptr: B, vtable: VT }]
    } else {
        Vec::new()
    }
}

fn new_heap() -> YoungHeap<CountingLogger, ParHeap> {
    YoungHeap::new(2, ParHeap::new(2), CountingLogger { dropped: 0, heap_size: 0 })
}

fn feed(heap: &mut YoungHeap<CountingLogger, ParHeap>, records: &[Object]) -> usize {
    let (tx, rx) = make_journal::<Object>(4);
    for r in records {
        tx.send(*r);
    }
    heap.add_journal(rx);
    let n = heap.read_journals();
    drop(tx);
    n
}

fn ptrs(v: &[Object]) -> Vec<usize> {
    let mut p: Vec<usize> = v.iter().map(|o| o.ptr).collect();
    p.sort();
    p
}

#[test]
fn minor_drops_only_unreachable_young() {
    let mut heap = new_heap();
    let n = feed(
        &mut heap,
        &[
            Object::record(A, VT, NEW_INC, true),
            Object::record(B, VT, NEW, false),
            Object::record(C, VT, NEW, false),
        ],
    );
    assert_eq!(n, 3);
    let r: MinorResult = heap.minor_collection(&graph);
    assert!(r.consistent);
    assert_eq!(r.young_count, 2);
    assert_eq!(ptrs(&r.dropped), vec![C]);
    assert_eq!(r.dropped[0].vtable, VT);
    assert_eq!(heap.logger().dropped, 1);
}

#[test]
fn decrement_is_applied_after_the_cycle_that_saw_it() {
    let mut heap = new_heap();
    feed(&mut heap, &[Object::record(A, VT, NEW_INC, true), Object::record(B, VT, NEW, false)]);
    feed(&mut heap, &[Object::record(A, VT, DEC, false)]);
    // the decrement is deferred: A is still a root in this cycle
    let first = heap.minor_collection(&graph);
    assert!(first.consistent);
    assert!(first.dropped.is_empty());
    assert_eq!(first.young_count, 2);
    // now A has no root reference: A and B go
    let second = heap.minor_collection(&graph);
    assert_eq!(ptrs(&second.dropped), vec![A, B]);
    assert_eq!(second.young_count, 0);
}

#[test]
fn increment_before_allocation_creates_a_root() {
    let mut heap = new_heap();
    feed(&mut heap, &[Object::record(C, VT, INC, false)]);
    let r = heap.minor_collection(&graph);
    assert!(r.dropped.is_empty());
    assert_eq!(r.young_count, 0);
}

#[test]
fn decrement_without_root_reference_is_reported() {
    let mut heap = new_heap();
    feed(&mut heap, &[Object::record(B, VT, NEW, false), Object::record(C, VT, DEC, false)]);
    let r = heap.minor_collection(&graph);
    assert!(!r.consistent);
    assert_eq!(ptrs(&r.dropped), vec![B]);
}

#[test]
fn major_promotes_roots_and_later_drops_them() {
    let mut heap = new_heap();
    feed(&mut heap, &[Object::record(A, VT, NEW_INC, true), Object::record(B, VT, NEW, false)]);
    let r = heap.minor_collection(&graph);
    assert!(r.dropped.is_empty());
    // A is rooted and young: promoted, and kept by the mature sweep
    let dropped = heap.major_collection(&graph);
    assert!(dropped.is_empty());
    assert_eq!(heap.logger().heap_size, 1);
    feed(&mut heap, &[Object::record(A, VT, DEC, false)]);
    let r1 = heap.minor_collection(&graph);
    assert!(r1.consistent);
    // A, now mature, still marks B as a minor root would
    assert!(r1.dropped.is_empty());
    let r2 = heap.minor_collection(&graph);
    // A left the root map without being dropped there; B was reached from it
    assert!(r2.dropped.is_empty());
    let r3 = heap.minor_collection(&graph);
    assert_eq!(ptrs(&r3.dropped), vec![B]);
    let mature_dropped = heap.major_collection(&graph);
    assert_eq!(ptrs(&mature_dropped), vec![A]);
    assert_eq!(mature_dropped[0].vtable, VT);
}

#[test]
fn major_without_promotable_objects_keeps_mature_heap() {
    let mut heap = new_heap();
    feed(&mut heap, &[Object::record(B, VT, NEW, false)]);
    let dropped = heap.major_collection(&graph);
    assert!(dropped.is_empty());
    assert_eq!(heap.logger().heap_size, 0);
    let again = heap.major_collection(&graph);
    assert!(again.is_empty());
}

#[test]
fn shutdown_collections_reclaim_a_ring() {
    // a ring of three young objects, rooted through its first one only
    let ring = |o: Object| -> Vec<Object> {
        let next = if o.ptr == A {
            B
        } else if o.ptr == B {
            C
        } else {
            A
        };
        vec![Object { ptr: next, vtable: VT }]
    };
    let mut heap = new_heap();
    feed(
        &mut heap,
        &[
            Object::record(A, VT, NEW_INC, true),
            Object::record(B, VT, NEW, true),
            Object::record(C, VT, NEW, true),
            Object::record(A, VT, DEC, false),
        ],
    );
    let first = heap.minor_collection(&ring);
    assert!(first.dropped.is_empty());
    assert_eq!(first.young_count, 3);
    let last = heap.minor_collection(&ring);
    assert_eq!(ptrs(&last.dropped), vec![A, B, C]);
    let mature = heap.major_collection(&ring);
    assert!(mature.is_empty());
    let logger = heap.shutdown();
    assert_eq!(logger.dropped, 3);
}

#[test]
fn disconnected_journals_are_let_go() {
    let mut heap = new_heap();
    let (tx, rx) = make_journal::<Object>(4);
    tx.send(Object::record(A, VT, NEW, false));
    heap.add_journal(rx);
    assert_eq!(heap.num_journals(), 1);
    assert_eq!(heap.read_journals(), 1);
    assert_eq!(heap.num_journals(), 1);
    drop(tx);
    assert_eq!(heap.read_journals(), 0);
    assert_eq!(heap.num_journals(), 0);
}

#[test]
fn traverse_bit_decides_tracing() {
    // A is not traversible here: B is not reached and is dropped
    let mut heap = new_heap();
    feed(&mut heap, &[Object::record(A, VT, NEW_INC, false), Object::record(B, VT, NEW, false)]);
    let r = heap.minor_collection(&graph);
    assert_eq!(ptrs(&r.dropped), vec![B]);
    assert_eq!(TRAVERSE_BIT, 2);
}
