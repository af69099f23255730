//! Journal records, root and mature-object metadata, and the trace stack.
use std::collections::BTreeMap;

use vstd::prelude::*;

use crate::constants::{FLAGS_MASK, MARK_BIT, MARK_MASK, NEW_BIT, NEW_MASK, PTR_MASK, TRAVERSE_BIT};

verus! {

/// The number of always-zero low bits of a word-aligned address: the base-2
/// logarithm of the word size in bytes.
pub open spec fn word_shift() -> usize {
    if usize::BITS == 32 {
        2
    } else {
        3
    }
}

/// Addresses are word-aligned: the number of always-zero low bits, by which an
/// address is shifted to form a map key.
pub fn ptr_shift() -> (r: i32)
    ensures
        r as usize == word_shift(),
        r == 2 || r == 3,
{
    proof {
        broadcast use vstd::layout::layout_of_primitives;
        assert(usize::BITS == 32 || usize::BITS == 64);
    }
    if core::mem::size_of::<usize>() == 4 {
        2
    } else {
        3
    }
}

/// The map key of an address: the address without its always-zero low bits.
pub open spec fn key_of(ptr: usize) -> usize {
    ptr >> word_shift()
}

/// The address that a map key stands for.
pub open spec fn addr_of(key: usize) -> usize {
    (key << word_shift()) as usize
}

/// Keys made from an address are small enough to turn back into it.
pub open spec fn key_in_range(key: usize) -> bool {
    key <= (!0usize >> word_shift())
}

pub proof fn lemma_key_round_trip(key: usize)
    requires
        key_in_range(key),
    ensures
        key_of(addr_of(key)) == key,
{
    let s = word_shift();
    assert(s <= 3usize && key <= (!0usize >> s) ==> ((key << s) >> s) == key) by (bit_vector);
}

pub proof fn lemma_key_of_in_range(ptr: usize)
    ensures
        key_in_range(key_of(ptr)),
{
    let s = word_shift();
    assert((ptr >> s) <= (!0usize >> s)) by (bit_vector);
}

/// The root map: root metadata by address key.
pub type RootMap = BTreeMap<usize, RootMeta>;

/// The mature map: mature-object metadata by address key.
pub type HeapMap = BTreeMap<usize, ObjectMeta>;

/// A journal record, and the item of a trace stack: an object's address and its
/// trace dispatch word. In a record the two low bits of `ptr` carry the record kind.
#[derive(Clone, Copy, Debug, PartialEq, Eq, Structural)]
pub struct Object {
    pub ptr: usize,
    pub vtable: usize,
}

impl Object {
    /// The record kind held in the two low bits of the address word.
    pub open spec fn kind(self) -> usize {
        self.ptr & FLAGS_MASK
    }

    /// The map key of the record's address.
    pub open spec fn key(self) -> usize {
        key_of(self.ptr)
    }

    /// The object at map key `key`, with dispatch word `vtable`.
    pub open spec fn at_key(key: usize, vtable: usize) -> Object {
        Object { ptr: addr_of(key), vtable }
    }

    /// Rebuilds the object whose map key is `ptr`.
    pub fn from_trie_ptr(ptr: usize, vtable: usize) -> (r: Object)
        ensures
            r == Object::at_key(ptr, vtable),
    {
        let shift = ptr_shift();
        Object { ptr: ptr << (shift as usize), vtable }
    }

    /// The record for an object at `addr` of kind `flags`; `traverse` sets the
    /// traverse bit of the dispatch word.
    pub fn record(addr: usize, vtable: usize, flags: usize, traverse: bool) -> (r: Object)
        ensures
            r.ptr == addr | flags,
            r.vtable == (if traverse { vtable | TRAVERSE_BIT } else { vtable }),
    {
        let vt = if traverse { vtable | TRAVERSE_BIT } else { vtable };
        Object { ptr: addr | flags, vtable: vt }
    }
}

/// Root metadata: the root reference count, the trace dispatch word (with its
/// traverse bit) and the `NEW` and `MARK` flags.
#[derive(Clone, Copy, Debug, PartialEq, Eq, Structural)]
pub struct RootMeta {
    pub refcount: usize,
    pub vtable: usize,
    pub flags: usize,
}

impl RootMeta {
    pub open spec fn spec_is_new(self) -> bool {
        self.flags & NEW_BIT != 0
    }

    pub open spec fn spec_is_marked(self) -> bool {
        self.flags & MARK_BIT != 0
    }

    pub open spec fn spec_traversible(self) -> bool {
        self.vtable & TRAVERSE_BIT != 0
    }

    pub open spec fn spec_is_rooted(self) -> bool {
        self.refcount > 0
    }

    /// The same metadata with the mark bit set.
    pub open spec fn marked(self) -> RootMeta {
        RootMeta { flags: self.flags | MARK_BIT, ..self }
    }

    /// The same metadata with the mark bit cleared.
    pub open spec fn unmarked(self) -> RootMeta {
        RootMeta { flags: self.flags & MARK_MASK, ..self }
    }

    pub proof fn lemma_marked(self)
        ensures
            self.marked().spec_is_marked(),
            self.marked().spec_is_new() == self.spec_is_new(),
            self.marked().spec_traversible() == self.spec_traversible(),
            self.marked().marked() == self.marked(),
            self.spec_is_marked() ==> self.marked() == self,
    {
        let f = self.flags;
        assert((f | 1usize) & 1usize != 0 && ((f | 1usize) & 2usize) == (f & 2usize)) by (bit_vector);
        assert((f | 1usize) | 1usize == f | 1usize) by (bit_vector);
        assert(f & 1usize != 0 ==> (f | 1usize) == f) by (bit_vector);
    }

    pub proof fn lemma_unmarked(self)
        ensures
            !self.unmarked().spec_is_marked(),
            self.unmarked().spec_is_new() == self.spec_is_new(),
            !self.spec_is_marked() ==> self.unmarked() == self,
    {
        let f = self.flags;
        assert((f & !1usize) & 1usize == 0 && ((f & !1usize) & 2usize) == (f & 2usize)) by (bit_vector);
        assert(f & 1usize == 0 ==> (f & !1usize) == f) by (bit_vector);
    }

    pub fn new(refcount: usize, vtable: usize, flags: usize) -> (r: RootMeta)
        ensures
            r == (RootMeta { refcount, vtable, flags }),
    {
        RootMeta { refcount, vtable, flags }
    }

    /// Metadata with a reference count of one.
    pub fn one(vtable: usize, flags: usize) -> (r: RootMeta)
        ensures
            r == (RootMeta { refcount: 1, vtable, flags }),
    {
        Self::new(1, vtable, flags)
    }

    /// Metadata with a reference count of zero.
    pub fn zero(vtable: usize, flags: usize) -> (r: RootMeta)
        ensures
            r == (RootMeta { refcount: 0, vtable, flags }),
    {
        Self::new(0, vtable, flags)
    }

    /// Adds one root reference.
    pub fn inc(&mut self)
        requires
            old(self).refcount < usize::MAX,
        ensures
            *final(self) == (RootMeta { refcount: (old(self).refcount + 1) as usize, ..*old(self) }),
    {
        self.refcount = self.refcount + 1;
    }

    /// Removes one root reference.
    pub fn dec(&mut self)
        requires
            old(self).refcount > 0,
        ensures
            *final(self) == (RootMeta { refcount: (old(self).refcount - 1) as usize, ..*old(self) }),
    {
        self.refcount = self.refcount - 1;
    }

    /// Adds one root reference; the caller holds the only access.
    pub fn unsync_inc(&mut self)
        requires
            old(self).refcount < usize::MAX,
        ensures
            *final(self) == (RootMeta { refcount: (old(self).refcount + 1) as usize, ..*old(self) }),
    {
        let refcount = self.refcount;
        self.refcount = refcount + 1;
    }

    /// Removes one root reference; the caller holds the only access.
    pub fn unsync_dec(&mut self)
        requires
            old(self).refcount > 0,
        ensures
            *final(self) == (RootMeta { refcount: (old(self).refcount - 1) as usize, ..*old(self) }),
    {
        let refcount = self.refcount;
        self.refcount = refcount - 1;
    }

    /// True when no root reference is counted.
    pub fn unsync_is_unrooted(&self) -> (r: bool)
        ensures
            r == !self.spec_is_rooted(),
    {
        self.refcount == 0
    }

    /// True for a young object.
    pub fn is_new(&self) -> (r: bool)
        ensures
            r == self.spec_is_new(),
    {
        self.flags & NEW_BIT != 0
    }

    /// True for a young object whose mark bit is clear.
    pub fn is_new_and_unmarked(&self) -> (r: bool)
        ensures
            r == (self.spec_is_new() && !self.spec_is_marked()),
    {
        let f = self.flags;
        proof {
            assert((f & 3usize == 2usize) == (f & 2usize != 0 && f & 1usize == 0)) by (bit_vector);
            assert(1usize | 2usize == 3usize) by (bit_vector);
        }
        self.flags & (MARK_BIT | NEW_BIT) == NEW_BIT
    }

    /// Makes the object a mature one.
    pub fn set_not_new(&mut self)
        ensures
            *final(self) == (RootMeta { flags: old(self).flags & NEW_MASK, ..*old(self) }),
            !final(self).spec_is_new(),
            final(self).spec_is_marked() == old(self).spec_is_marked(),
    {
        let f = self.flags;
        proof {
            assert((f & !2usize) & 2usize == 0 && ((f & !2usize) & 1usize) == (f & 1usize)) by (bit_vector);
        }
        self.flags = self.flags & NEW_MASK;
    }

    /// Sets the mark bit; true when it was clear and the object can hold managed
    /// references, that is when it must be traced.
    pub fn mark_and_needs_trace(&mut self) -> (r: bool)
        ensures
            *final(self) == old(self).marked(),
            final(self).spec_is_marked(),
            final(self).spec_is_new() == old(self).spec_is_new(),
            r == (!old(self).spec_is_marked() && old(self).spec_traversible()),
    {
        let flags = self.flags;
        proof {
            assert((flags | 1usize) & 1usize != 0 && ((flags | 1usize) & 2usize) == (flags & 2usize)) by (bit_vector);
            assert(flags & 1usize != 0 ==> (flags | 1usize) == flags) by (bit_vector);
        }
        let was_unmarked = flags & MARK_BIT == 0;
        if was_unmarked {
            self.flags = flags | MARK_BIT;
        }
        was_unmarked && self.vtable & TRAVERSE_BIT != 0
    }

    /// Clears the mark bit.
    pub fn unmark(&mut self)
        ensures
            *final(self) == old(self).unmarked(),
            !final(self).spec_is_marked(),
            final(self).spec_is_new() == old(self).spec_is_new(),
    {
        let f = self.flags;
        proof {
            assert((f & !1usize) & 1usize == 0 && ((f & !1usize) & 2usize) == (f & 2usize)) by (bit_vector);
        }
        self.flags = self.flags & MARK_MASK;
    }

    /// The dispatch word without its flag bits.
    pub fn vtable(&self) -> (r: usize)
        ensures
            r == self.vtable & PTR_MASK,
    {
        self.vtable & PTR_MASK
    }
}

/// Metadata of a mature object: its dispatch word, whose bit 0 is the mark bit
/// and bit 1 the traverse bit.
#[derive(Clone, Copy, Debug, PartialEq, Eq, Structural)]
pub struct ObjectMeta {
    pub vtable: usize,
}

impl ObjectMeta {
    pub open spec fn spec_is_marked(self) -> bool {
        self.vtable & MARK_BIT != 0
    }

    pub open spec fn spec_traversible(self) -> bool {
        self.vtable & TRAVERSE_BIT != 0
    }

    pub open spec fn marked(self) -> ObjectMeta {
        ObjectMeta { vtable: self.vtable | MARK_BIT }
    }

    pub open spec fn unmarked(self) -> ObjectMeta {
        ObjectMeta { vtable: self.vtable & MARK_MASK }
    }

    pub proof fn lemma_marked(self)
        ensures
            self.marked().spec_is_marked(),
            self.marked().spec_traversible() == self.spec_traversible(),
            self.marked().vtable & PTR_MASK == self.vtable & PTR_MASK,
            self.marked().marked() == self.marked(),
            self.spec_is_marked() ==> self.marked() == self,
    {
        let f = self.vtable;
        assert((f | 1usize) & 1usize != 0 && ((f | 1usize) & 2usize) == (f & 2usize)) by (bit_vector);
        assert((f | 1usize) | 1usize == f | 1usize) by (bit_vector);
        assert(f & 1usize != 0 ==> (f | 1usize) == f) by (bit_vector);
        assert((f | 1usize) & !3usize == f & !3usize) by (bit_vector);
    }

    pub proof fn lemma_unmarked(self)
        ensures
            !self.unmarked().spec_is_marked(),
            self.unmarked().spec_traversible() == self.spec_traversible(),
            self.unmarked().vtable & PTR_MASK == self.vtable & PTR_MASK,
            !self.spec_is_marked() ==> self.unmarked() == self,
    {
        let f = self.vtable;
        assert((f & !1usize) & 1usize == 0 && ((f & !1usize) & 2usize) == (f & 2usize)) by (bit_vector);
        assert(f & 1usize == 0 ==> (f & !1usize) == f) by (bit_vector);
        assert((f & !1usize) & !3usize == f & !3usize) by (bit_vector);
    }

    pub fn new(vtable: usize) -> (r: ObjectMeta)
        ensures
            r == (ObjectMeta { vtable }),
    {
        ObjectMeta { vtable }
    }

    /// Sets the mark bit; true when it was clear and the object can hold managed
    /// references.
    pub fn mark_and_needs_trace(&mut self) -> (r: bool)
        ensures
            *final(self) == old(self).marked(),
            final(self).spec_is_marked(),
            final(self).spec_traversible() == old(self).spec_traversible(),
            r == (!old(self).spec_is_marked() && old(self).spec_traversible()),
    {
        let vtable = self.vtable;
        proof {
            assert((vtable | 1usize) & 1usize != 0 && ((vtable | 1usize) & 2usize) == (vtable & 2usize)) by (bit_vector);
            assert(vtable & 1usize != 0 ==> (vtable | 1usize) == vtable) by (bit_vector);
        }
        let was_unmarked = vtable & MARK_BIT == 0;
        if was_unmarked {
            self.vtable = vtable | MARK_BIT;
        }
        was_unmarked && vtable & TRAVERSE_BIT != 0
    }

    pub fn is_marked(&self) -> (r: bool)
        ensures
            r == self.spec_is_marked(),
    {
        self.vtable & MARK_BIT != 0
    }

    /// Clears the mark bit.
    pub fn unmark(&mut self)
        ensures
            *final(self) == old(self).unmarked(),
            !final(self).spec_is_marked(),
            final(self).spec_traversible() == old(self).spec_traversible(),
    {
        let v = self.vtable;
        proof {
            assert((v & !1usize) & 1usize == 0 && ((v & !1usize) & 2usize) == (v & 2usize)) by (bit_vector);
        }
        self.vtable = v & MARK_MASK;
    }

    /// The dispatch word without its mark and traverse bits.
    pub fn vtable(&self) -> (r: usize)
        ensures
            r == self.vtable & PTR_MASK,
    {
        self.vtable & PTR_MASK
    }
}

/// A stack of objects still to be traced during one marking walk.
pub struct TraceStack {
    stack: Vec<Object>,
}

impl View for TraceStack {
    type V = Seq<Object>;

    closed spec fn view(&self) -> Seq<Object> {
        self.stack@
    }
}

/// What a traced object uses to hand over its outgoing managed references.
pub trait TraceOps {
    spec fn pending(&self) -> Seq<Object>;

    /// Queues `object` to be traced.
    fn push_to_trace(&mut self, object: Object)
        ensures
            final(self).pending() == old(self).pending().push(object),
    ;
}

impl TraceStack {
    pub fn new() -> (r: TraceStack)
        ensures
            r@ == Seq::<Object>::empty(),
    {
        TraceStack { stack: Vec::new() }
    }

    pub fn push(&mut self, obj: Object)
        ensures
            final(self)@ == old(self)@.push(obj),
    {
        self.stack.push(obj);
    }

    /// Takes the most recently pushed object.
    pub fn pop(&mut self) -> (r: Option<Object>)
        ensures
            old(self)@.len() == 0 ==> r.is_none() && final(self)@ == old(self)@,
            old(self)@.len() > 0 ==> r == Some(old(self)@.last()) && final(self)@ == old(self)@.drop_last(),
    {
        self.stack.pop()
    }

    /// Pushes the objects of `slice`, in order.
    pub fn from_roots(&mut self, slice: &[Object])
        ensures
            final(self)@ == old(self)@ + slice@,
    {
        let mut i: usize = 0;
        let ghost start = self@;
        while i < slice.len()
            invariant
                i <= slice@.len(),
                self@ == start + slice@.subrange(0, i as int),
            decreases slice@.len() - i,
        {
            self.stack.push(slice[i]);
            i = i + 1;
            assert(slice@.subrange(0, i as int) == slice@.subrange(0, i - 1).push(slice@[i - 1]));
        }
        assert(slice@.subrange(0, slice@.len() as int) == slice@);
    }
}

impl TraceOps for TraceStack {
    open spec fn pending(&self) -> Seq<Object> {
        self@
    }

    fn push_to_trace(&mut self, object: Object) {
        self.stack.push(object);
    }
}

/// Implemented by every type the collector manages: tells whether a value can hold
/// managed references, and hands each of them to a trace stack.
pub trait Trace {
    /// True when values of this type can hold managed references.
    fn traversible(&self) -> bool {
        false
    }

    /// Pushes every outgoing managed reference of `self` onto `stack`.
    fn trace(&self, _stack: &mut TraceStack) {
    }
}

impl Trace for usize {}

impl Trace for isize {}

impl Trace for i8 {}

impl Trace for u8 {}

impl Trace for i16 {}

impl Trace for u16 {}

impl Trace for i32 {}

impl Trace for u32 {}

impl Trace for i64 {}

impl Trace for u64 {}

impl<'a> Trace for &'a str {}

impl Trace for String {}

} // verus!
