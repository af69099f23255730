use mo_gc::{
    next_sleep_dur, ptr_shift, wants_major_collection, Object, ObjectMeta, RootMeta, TraceOps,
    TraceStack, MARK_BIT, NEW_BIT, TRAVERSE_BIT,
};

#[test]
fn ptr_shift_is_log2_of_word_size() {
    let expected = if std::mem::size_of::<usize>() == 4 { 2 } else { 3 };
    assert_eq!(ptr_shift(), expected);
}

#[test]
fn object_from_key_restores_address() {
    let o = Object::from_trie_ptr(0x200, 0x1000);
    assert_eq!(o.ptr, 0x1000);
    assert_eq!(o.vtable, 0x1000);
}

#[test]
fn record_carries_kind_and_traverse_bit() {
    let r = Object::record(0x1000, 0x40, 3, true);
    assert_eq!(r.ptr, 0x1003);
    assert_eq!(r.vtable, 0x42);
    let plain = Object::record(0x1000, 0x40, 0, false);
    assert_eq!(plain.ptr, 0x1000);
    assert_eq!(plain.vtable, 0x40);
}

#[test]
fn root_meta_counts() {
    let mut m = RootMeta::one(0x40, NEW_BIT);
    assert_eq!(m.refcount, 1);
    m.inc();
    m.unsync_inc();
    assert_eq!(m.refcount, 3);
    m.dec();
    m.unsync_dec();
    m.dec();
    assert!(m.unsync_is_unrooted());
    let z = RootMeta::zero(0x40, 0);
    assert!(z.unsync_is_unrooted());
    assert_eq!(RootMeta::new(5, 1, 2), RootMeta { refcount: 5, vtable: 1, flags: 2 });
}

#[test]
fn root_meta_flags() {
    let mut m = RootMeta::zero(0x40 | TRAVERSE_BIT, NEW_BIT);
    assert!(m.is_new());
    assert!(m.is_new_and_unmarked());
    assert!(m.mark_and_needs_trace());
    assert_eq!(m.flags, NEW_BIT | MARK_BIT);
    assert!(!m.is_new_and_unmarked());
    // already marked: no second trace
    assert!(!m.mark_and_needs_trace());
    m.unmark();
    assert_eq!(m.flags, NEW_BIT);
    m.set_not_new();
    assert!(!m.is_new());
    assert_eq!(m.vtable(), 0x40);

    // not traversible: marked but never traced
    let mut leaf = RootMeta::zero(0x40, NEW_BIT);
    assert!(!leaf.mark_and_needs_trace());
    assert_eq!(leaf.flags, NEW_BIT | MARK_BIT);
}

#[test]
fn object_meta_flags() {
    let mut m = ObjectMeta::new(0x80 | TRAVERSE_BIT);
    assert!(!m.is_marked());
    assert!(m.mark_and_needs_trace());
    assert!(m.is_marked());
    assert!(!m.mark_and_needs_trace());
    assert_eq!(m.vtable(), 0x80);
    m.unmark();
    assert!(!m.is_marked());
    assert_eq!(m.vtable, 0x80 | TRAVERSE_BIT);

    let mut leaf = ObjectMeta::new(0x80);
    assert!(!leaf.mark_and_needs_trace());
    assert!(leaf.is_marked());
}

#[test]
fn trace_stack_is_last_in_first_out() {
    let mut s = TraceStack::new();
    assert_eq!(s.pop(), None);
    let a = Object { ptr: 8, vtable: 1 };
    let b = Object { ptr: 16, vtable: 2 };
    let c = Object { ptr: 24, vtable: 3 };
    s.push(a);
    s.from_roots(&[b, c]);
    s.push_to_trace(a);
    assert_eq!(s.pop(), Some(a));
    assert_eq!(s.pop(), Some(c));
    assert_eq!(s.pop(), Some(b));
    assert_eq!(s.pop(), Some(a));
    assert_eq!(s.pop(), None);
}

#[test]
fn sleep_backs_off_and_resets() {
    assert_eq!(next_sleep_dur(0, 0), 0);
    assert_eq!(next_sleep_dur(0, 1), 2);
    assert_eq!(next_sleep_dur(0, 40), 80);
    assert_eq!(next_sleep_dur(0, 64), 100);
    assert_eq!(next_sleep_dur(0, 100), 100);
    assert_eq!(next_sleep_dur(5, 100), 1);
}

#[test]
fn major_collection_needs_threshold_and_idle() {
    assert!(!wants_major_collection(1, 1 << 20));
    assert!(wants_major_collection(2, 1 << 20));
    assert!(!wants_major_collection(2, (1 << 20) - 1));
    assert!(!wants_major_collection(0, 1 << 21));
    assert!(wants_major_collection(100, 1 << 21));
}
