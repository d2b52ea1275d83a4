use vstd::prelude::*;

use core::marker::PhantomData;

use crate::de_bruijn::DeBruijn;
use crate::object::fields_cache;
use crate::object::flagged;
use crate::object::lemma_flag_set_clear;
use crate::object::lemma_fields_cache_agree;
use crate::object::name_of;
use crate::object::object_wf;
use crate::object::payload_len;
use crate::object::variable_index_of;
use crate::object::Flags;
use crate::object::Header;
use crate::object::Kind;
use crate::object::Object;
use crate::object::Payload;

verus! {

/// Brand of a heap: an invariant lifetime, unique to each heap, that its
/// handles carry too. A handle of one heap cannot be passed to another.
pub type HeapId<'h> = PhantomData<&'h mut &'h ()>;

/// Number of variable objects that every heap interns.
pub const INTERNED_VARIABLE_COUNT: usize = 16;

/// Address of a dangling handle: well aligned, and beyond every object.
pub const DANGLING_ADDRESS: usize = usize::MAX - 7;

/// Handle to an object with no guarantees.
///
/// Its address names a slot of the heap's arena. Nothing ensures that the
/// slot holds an object: every use states that it does.
#[derive(Clone, Copy, Debug)]
pub struct UnsafeHandle<'h> {
    pointer: usize,
    heap_id: HeapId<'h>,
}

impl<'h> UnsafeHandle<'h> {
    /// The address that the handle holds.
    pub closed spec fn addr(self) -> usize {
        self.pointer
    }

    /// Create a dangling handle, used only to fill slots that are overwritten
    /// before anything reads them.
    pub fn dangling() -> (r: UnsafeHandle<'h>)
        ensures
            r.addr() == DANGLING_ADDRESS,
    {
        UnsafeHandle { pointer: usize::MAX - 7, heap_id: PhantomData }
    }

    /// Create a handle from an address.
    pub fn new(pointer: usize) -> (r: UnsafeHandle<'h>)
        ensures
            r.addr() == pointer,
    {
        UnsafeHandle { pointer, heap_id: PhantomData }
    }

    /// The address that the handle holds.
    pub fn as_ptr(self) -> (r: usize)
        ensures
            r == self.addr(),
    {
        self.pointer
    }

    /// The header of the object that the handle refers to.
    pub fn header(self, heap: &Heap<'h>) -> (r: Header)
        requires
            heap.holds(self),
        ensures
            r == heap.object(self).header,
    {
        heap.objects[self.pointer].header
    }

    /// The payload of the object that the handle refers to.
    pub fn payload<'a>(self, heap: &'a Heap<'h>) -> (r: &'a Payload<'h>)
        requires
            heap.holds(self),
        ensures
            *r == heap.object(self).payload,
    {
        &heap.objects[self.pointer].payload
    }
}

impl<'h> PartialEq for UnsafeHandle<'h> {
    /// Handles are equal when their addresses are.
    fn eq(&self, other: &UnsafeHandle<'h>) -> (r: bool) {
        self.pointer == other.pointer
    }
}

impl<'h> Eq for UnsafeHandle<'h> {}

impl<'h> vstd::std_specs::cmp::PartialEqSpecImpl for UnsafeHandle<'h> {
    open spec fn obeys_eq_spec() -> bool {
        true
    }

    open spec fn eq_spec(&self, other: &UnsafeHandle<'h>) -> bool {
        self.addr() == other.addr()
    }
}

/// Handle to an object whose `PINNED` flag is set while the handle is in use.
///
/// The collector neither destroys nor moves a pinned object, so its payload
/// may be borrowed.
#[derive(Clone, Copy, Debug)]
pub struct PinnedHandle<'h, 'p> {
    handle: UnsafeHandle<'h>,
    pin_frame: PhantomData<&'p ()>,
}

impl<'h, 'p> PinnedHandle<'h, 'p> {
    /// The object that is pinned.
    pub closed spec fn target(self) -> UnsafeHandle<'h> {
        self.handle
    }

    /// Convert the pinned handle to the underlying handle.
    pub fn as_unsafe_handle(self) -> (r: UnsafeHandle<'h>)
        ensures
            r == self.target(),
    {
        self.handle
    }

    /// The header of the pinned object.
    pub fn header(self, heap: &Heap<'h>) -> (r: Header)
        requires
            heap.holds(self.target()),
        ensures
            r == heap.object(self.target()).header,
    {
        self.handle.header(heap)
    }

    /// The payload of the pinned object.
    pub fn payload<'a>(self, heap: &'a Heap<'h>) -> (r: &'a Payload<'h>)
        requires
            heap.holds(self.target()),
        ensures
            *r == heap.object(self.target()).payload,
    {
        self.handle.payload(heap)
    }
}

/// Handle to a slot that holds an unsafe handle: a root slot on the heap's
/// scope stack, or a field slot inside an object.
///
/// The collector rewrites such slots when it moves objects, so reading the
/// slot always yields a handle to the current place of the object.
#[derive(Clone, Copy, Debug)]
pub struct ScopedHandle<'h, 's> {
    owner: Option<UnsafeHandle<'h>>,
    index: usize,
    scope: PhantomData<&'s ()>,
}

impl<'h, 's> ScopedHandle<'h, 's> {
    /// The object whose fields hold the slot; `None` for a root slot.
    pub closed spec fn spec_owner(self) -> Option<UnsafeHandle<'h>> {
        self.owner
    }

    /// The position of the slot among the roots or among the owner's fields.
    pub closed spec fn spec_index(self) -> usize {
        self.index
    }

    /// Create a handle to the slot at `index` of the roots (owner `None`) or
    /// of the fields of `owner`.
    pub(crate) fn new(owner: Option<UnsafeHandle<'h>>, index: usize) -> (r: ScopedHandle<'h, 's>)
        ensures
            r.spec_owner() == owner,
            r.spec_index() == index,
    {
        ScopedHandle { owner, index, scope: PhantomData }
    }

    /// The handle that the slot holds now.
    pub fn as_unsafe_handle(self, heap: &Heap<'h>) -> (r: UnsafeHandle<'h>)
        requires
            heap.slot_valid(self),
        ensures
            r == heap.slot_value(self),
    {
        match self.owner {
            None => heap.roots[self.index],
            Some(o) => heap.objects[o.pointer].payload.fields[self.index],
        }
    }

    /// Make this root slot refer to the object that `other` refers to.
    pub fn copy_from(self, heap: &mut Heap<'h>, other: ScopedHandle<'h, 's>)
        requires
            old(heap).wf(),
            old(heap).is_root(self),
            old(heap).slot_valid(other),
        ensures
            final(heap).root_written(
                *old(heap),
                self.spec_index() as int,
                old(heap).slot_value(other),
            ),
            final(heap).evolved_from(*old(heap)),
    {
        proof {
            heap.lemma_slot_value_held(other);
        }
        let h = other.as_unsafe_handle(heap);
        self.copy_from_unsafe_handle(heap, h);
    }

    /// Make this root slot refer to the object that `other` refers to.
    pub fn copy_from_unsafe_handle(self, heap: &mut Heap<'h>, other: UnsafeHandle<'h>)
        requires
            old(heap).wf(),
            old(heap).is_root(self),
            old(heap).holds(other),
        ensures
            final(heap).root_written(*old(heap), self.spec_index() as int, other),
            final(heap).evolved_from(*old(heap)),
    {
        heap.roots[self.index] = other;
        proof {
            assert forall|i: int| 0 <= i < heap.roots().len() implies heap.holds(
                #[trigger] heap.roots()[i],
            ) by {
                if i != self.index as int {
                    assert(heap.roots()[i] == old(heap).roots()[i]);
                }
            }
            assert(heap.objects_wf());
            assert(heap.interned_wf());
            assert forall|k: int| 0 <= k < heap.frames().len() implies #[trigger] heap.frames()[k]
                <= heap.roots().len() by {
                assert(old(heap).frames()[k] <= old(heap).roots().len());
            }
        }
    }

    /// Pin the object that the slot refers to, pass a pinned handle to it to
    /// `then`, and unpin it when `then` returns.
    ///
    /// An object that is pinned already stays pinned, and its flags are left
    /// to the outer pin.
    pub fn with_pin<F, R>(self, heap: &mut Heap<'h>, then: F) -> (r: R) where
        F: for<'p> FnOnce(&mut Heap<'h>, PinnedHandle<'h, 'p>) -> R,
        requires
            old(heap).wf(),
            old(heap).slot_valid(self),
            forall|g: &mut Heap<'h>, p: PinnedHandle|
                g.wf() && p.target() == old(heap).slot_value(self) && g.flags_set(
                    *old(heap),
                    p.target(),
                    old(heap).object(p.target()).header.flags.with(Flags::spec_pinned()),
                ) ==> then.requires((g, p)),
            forall|g: &mut Heap<'h>, p: PinnedHandle, r: R| #[trigger]
                then.ensures((g, p), r) ==> final(g).evolved_from(*g),
        ensures
            exists|g: &mut Heap<'h>, p: PinnedHandle|
                {
                    let o = old(heap).slot_value(self);
                    let was = old(heap).object(o).header.flags;
                    &&& g.wf()
                    &&& p.target() == o
                    &&& g.flags_set(*old(heap), o, was.with(Flags::spec_pinned()))
                    &&& g.object(o).header.flags.has(Flags::spec_pinned())
                    &&& #[trigger] then.ensures((g, p), r)
                    &&& if was.has(Flags::spec_pinned()) {
                        *final(heap) == *final(g)
                    } else {
                        final(heap).flags_set(
                            *final(g),
                            o,
                            final(g).object(o).header.flags.without(Flags::spec_pinned()),
                        )
                    }
                },
            final(heap).evolved_from(*old(heap)),
            !old(heap).object(old(heap).slot_value(self)).header.flags.has(Flags::spec_pinned())
                ==> !final(heap).object(old(heap).slot_value(self)).header.flags.has(
                Flags::spec_pinned(),
            ),
    {
        proof {
            heap.lemma_slot_value_held(self);
        }
        let o = self.as_unsafe_handle(heap);
        let ghost before = *heap;
        let was = heap.objects[o.pointer].header.flags;
        let already = was.contains(Flags::pinned());
        proof {
            lemma_flag_set_clear(was);
        }
        if !already {
            let mut f = was;
            f.insert(Flags::pinned());
            heap.objects[o.pointer].header.flags = f;
        }
        proof {
            assert(heap.objects() =~= before.objects().update(
                o.addr() as int,
                flagged(before.object(o), was.with(Flags::spec_pinned())),
            ));
            Heap::lemma_flags_set_wf(before, *heap, o, was.with(Flags::spec_pinned()));
        }
        let p = PinnedHandle { handle: o, pin_frame: PhantomData };
        proof {
            assert(heap.wf());
            assert(p.target() == old(heap).slot_value(self));
            assert(heap.flags_set(
                *old(heap),
                p.target(),
                old(heap).object(p.target()).header.flags.with(Flags::spec_pinned()),
            ));
        }
        let r = then(heap, p);
        let ghost inner = *heap;
        if !already {
            let mut f = heap.objects[o.pointer].header.flags;
            proof {
                lemma_flag_set_clear(f);
            }
            f.remove(Flags::pinned());
            heap.objects[o.pointer].header.flags = f;
            proof {
                assert(heap.objects() =~= inner.objects().update(
                    o.addr() as int,
                    flagged(
                        inner.object(o),
                        inner.object(o).header.flags.without(Flags::spec_pinned()),
                    ),
                ));
                Heap::lemma_flags_set_wf(
                    inner,
                    *heap,
                    o,
                    inner.object(o).header.flags.without(Flags::spec_pinned()),
                );
            }
        }
        r
    }

    /// A copy of the header of the object that the slot refers to.
    pub fn header(self, heap: &Heap<'h>) -> (r: Header)
        requires
            heap.wf(),
            heap.slot_valid(self),
        ensures
            r == heap.object(heap.slot_value(self)).header,
    {
        proof {
            heap.lemma_slot_value_held(self);
        }
        self.as_unsafe_handle(heap).header(heap)
    }
}

/// A run of consecutive slots that are treated as roots: slots of a scope on
/// the heap's stack, or the argument slots of a pinned application.
///
/// The only way to obtain a scope of roots is one of the `with_new_*_scope`
/// methods of [`Heap`], which push it before and pop it after the function
/// that uses it.
#[derive(Clone, Copy, Debug)]
pub struct Scope<'h, 's> {
    owner: Option<UnsafeHandle<'h>>,
    start: usize,
    len: usize,
    scope: PhantomData<&'s ()>,
}

impl<'h, 's> Scope<'h, 's> {
    /// The positions of the scope's slots fit in `usize`.
    #[verifier::type_invariant]
    spec fn inv(self) -> bool {
        self.start as int + self.len as int <= usize::MAX
    }

    /// The object whose fields hold the slots; `None` for root slots.
    pub closed spec fn spec_owner(self) -> Option<UnsafeHandle<'h>> {
        self.owner
    }

    /// The position of the first slot.
    pub closed spec fn spec_start(self) -> usize {
        self.start
    }

    /// The number of slots.
    pub closed spec fn spec_len(self) -> usize {
        self.len
    }

    /// Whether `s` is the handle to slot `i` of the scope.
    pub open spec fn is_slot(self, i: int, s: ScopedHandle<'h, 's>) -> bool {
        &&& s.spec_owner() == self.spec_owner()
        &&& s.spec_index() == self.spec_start() + i
    }

    /// Create a view of `len` slots from position `start` of the roots (owner
    /// `None`) or of the fields of `owner`.
    pub(crate) fn new(owner: Option<UnsafeHandle<'h>>, start: usize, len: usize) -> (r: Scope<
        'h,
        's,
    >)
        requires
            start + len <= usize::MAX,
        ensures
            r.spec_owner() == owner,
            r.spec_start() == start,
            r.spec_len() == len,
    {
        Scope { owner, start, len, scope: PhantomData }
    }

    /// The number of slots.
    pub fn len(&self) -> (r: usize)
        ensures
            r == self.spec_len(),
    {
        self.len
    }

    /// The handle to slot `index`, or `None` when the index is out of range.
    pub fn get(&self, index: usize) -> (r: Option<ScopedHandle<'h, 's>>)
        ensures
            index < self.spec_len() ==> (r matches Some(s) && self.is_slot(index as int, s)),
            index >= self.spec_len() ==> r is None,
    {
        if index < self.len {
            Some(self.get_unchecked(index))
        } else {
            None
        }
    }

    /// The handle to slot `index`, which must be in range.
    pub fn get_unchecked(&self, index: usize) -> (r: ScopedHandle<'h, 's>)
        requires
            index < self.spec_len(),
        ensures
            self.is_slot(index as int, r),
    {
        proof {
            use_type_invariant(self);
        }
        ScopedHandle { owner: self.owner, index: self.start + index, scope: PhantomData }
    }

    /// The handles to all slots, in order.
    pub fn iter(&self) -> (r: Vec<ScopedHandle<'h, 's>>)
        ensures
            r@.len() == self.spec_len(),
            forall|i: int| 0 <= i < r@.len() ==> self.is_slot(i, #[trigger] r@[i]),
    {
        let mut r: Vec<ScopedHandle<'h, 's>> = Vec::new();
        let mut i: usize = 0;
        while i < self.len
            invariant
                i <= self.spec_len(),
                r@.len() == i,
                forall|j: int| 0 <= j < r@.len() ==> self.is_slot(j, #[trigger] r@[j]),
            decreases self.spec_len() - i,
        {
            r.push(self.get_unchecked(i));
            i = i + 1;
        }
        r
    }
}

/// Collection of objects that may point to each other, with the stack of
/// scopes whose slots are its roots and the objects it interns.
///
/// Each heap carries its own brand `'h`, chosen by [`Heap::with_new`], the
/// only way to obtain a heap; its handles carry the same brand, so mixing
/// handles of two heaps does not compile.
pub struct Heap<'h> {
    objects: Vec<Object<'h>>,
    roots: Vec<UnsafeHandle<'h>>,
    frames: Vec<usize>,
    interned_null: UnsafeHandle<'h>,
    interned_variables: Vec<UnsafeHandle<'h>>,
    heap_id: HeapId<'h>,
}

/// The name of the interned Null symbol.
pub open spec fn null_name<'h>() -> Seq<u8> {
    seq![78u8, 117u8, 108u8, 108u8]
}

impl<'h> Heap<'h> {
    /// The objects of the heap, by address.
    pub closed spec fn objects(self) -> Seq<Object<'h>> {
        self.objects@
    }

    /// The root slots of all scopes on the stack, outermost scope first.
    pub closed spec fn roots(self) -> Seq<UnsafeHandle<'h>> {
        self.roots@
    }

    /// For each scope on the stack, outermost first, where its slots start
    /// among the roots.
    pub closed spec fn frames(self) -> Seq<usize> {
        self.frames@
    }

    /// The interned Null symbol.
    pub closed spec fn null(self) -> UnsafeHandle<'h> {
        self.interned_null
    }

    /// The interned variables, by De Bruijn index.
    pub closed spec fn interned(self) -> Seq<UnsafeHandle<'h>> {
        self.interned_variables@
    }

    /// Whether `h` refers to an object of this heap.
    pub open spec fn holds(self, h: UnsafeHandle<'h>) -> bool {
        (h.addr() as int) < self.objects().len()
    }

    /// The object that `h` refers to.
    pub open spec fn object(self, h: UnsafeHandle<'h>) -> Object<'h> {
        self.objects()[h.addr() as int]
    }

    /// Whether `s` is a root slot of a scope on the stack.
    pub open spec fn is_root<'s>(self, s: ScopedHandle<'h, 's>) -> bool {
        &&& s.spec_owner() is None
        &&& (s.spec_index() as int) < self.roots().len()
    }

    /// Whether `s` names an existing slot.
    pub open spec fn slot_valid<'s>(self, s: ScopedHandle<'h, 's>) -> bool {
        match s.spec_owner() {
            None => (s.spec_index() as int) < self.roots().len(),
            Some(o) => self.holds(o) && (s.spec_index() as int) < self.object(
                o,
            ).payload.fields@.len(),
        }
    }

    /// The handle that slot `s` holds.
    pub open spec fn slot_value<'s>(self, s: ScopedHandle<'h, 's>) -> UnsafeHandle<'h> {
        match s.spec_owner() {
            None => self.roots()[s.spec_index() as int],
            Some(o) => self.object(o).payload.fields@[s.spec_index() as int],
        }
    }

    /// Every object is well formed for its kind.
    pub open spec fn objects_wf(self) -> bool {
        forall|i: int| 0 <= i < self.objects().len() ==> object_wf(self.objects(), i)
    }

    /// Every root refers to an object, and the scopes nest in order.
    pub open spec fn roots_wf(self) -> bool {
        &&& forall|i: int| 0 <= i < self.roots().len() ==> self.holds(#[trigger] self.roots()[i])
        &&& forall|k: int|
            0 <= k < self.frames().len() ==> #[trigger] self.frames()[k] <= self.roots().len()
        &&& forall|k: int, l: int|
            0 <= k <= l < self.frames().len() ==> #[trigger] self.frames()[k]
                <= #[trigger] self.frames()[l]
    }

    /// The interned objects exist: the Null symbol, and one variable for each
    /// De Bruijn index below `INTERNED_VARIABLE_COUNT`.
    pub open spec fn interned_wf(self) -> bool {
        &&& self.holds(self.null())
        &&& name_of(self.object(self.null())) == Some(null_name())
        &&& self.interned().len() == INTERNED_VARIABLE_COUNT
        &&& forall|d: int|
            0 <= d < INTERNED_VARIABLE_COUNT ==> {
                &&& self.holds(#[trigger] self.interned()[d])
                &&& variable_index_of(self.object(self.interned()[d])) == Some(d as u32)
            }
    }

    /// The heap is well formed.
    pub open spec fn wf(self) -> bool {
        &&& self.objects_wf()
        &&& self.roots_wf()
        &&& self.interned_wf()
    }

    /// `self` has the roots, scopes and interned objects of `other`.
    pub open spec fn same_roots(self, other: Heap<'h>) -> bool {
        &&& self.roots() == other.roots()
        &&& self.frames() == other.frames()
        &&& self.null() == other.null()
        &&& self.interned() == other.interned()
    }

    /// `self` is `before` with root slot `i` holding `v`.
    pub open spec fn root_written(self, before: Heap<'h>, i: int, v: UnsafeHandle<'h>) -> bool {
        &&& self.objects() == before.objects()
        &&& self.roots() == before.roots().update(i, v)
        &&& self.frames() == before.frames()
        &&& self.null() == before.null()
        &&& self.interned() == before.interned()
    }

    /// `self` is well formed and came from `before` by operations that keep
    /// the scope stack as it was and only add objects.
    pub open spec fn evolved_from(self, before: Heap<'h>) -> bool {
        &&& self.wf()
        &&& self.frames() == before.frames()
        &&& self.roots().len() == before.roots().len()
        &&& self.objects().len() >= before.objects().len()
        &&& self.null() == before.null()
        &&& self.interned() == before.interned()
    }

    /// A slot of a well-formed heap refers to an object of the heap.
    pub proof fn lemma_slot_value_held<'s>(self, s: ScopedHandle<'h, 's>)
        requires
            self.wf(),
            self.slot_valid(s),
        ensures
            self.holds(self.slot_value(s)),
    {
        if let Some(o) = s.spec_owner() {
            let i = o.addr() as int;
            assert(object_wf(self.objects(), i));
            let fields = self.object(o).payload.fields@;
            assert(fields[s.spec_index() as int].addr() < i);
        }
    }

    /// Whether every slot of `sc` exists.
    pub open spec fn scope_valid<'s>(self, sc: Scope<'h, 's>) -> bool {
        match sc.spec_owner() {
            None => sc.spec_start() + sc.spec_len() <= self.roots().len(),
            Some(o) => self.holds(o) && sc.spec_start() + sc.spec_len()
                <= self.object(o).payload.fields@.len(),
        }
    }

    /// The handle that slot `i` of `sc` holds.
    pub open spec fn scope_value<'s>(self, sc: Scope<'h, 's>, i: int) -> UnsafeHandle<'h> {
        match sc.spec_owner() {
            None => self.roots()[sc.spec_start() + i],
            Some(o) => self.object(o).payload.fields@[sc.spec_start() + i],
        }
    }

    /// `self` is `before` with one more scope of `n` root slots on the stack,
    /// each holding the interned Null symbol.
    pub open spec fn frame_pushed(self, before: Heap<'h>, n: nat) -> bool {
        &&& self.objects() == before.objects()
        &&& self.frames() == before.frames().push(before.roots().len() as usize)
        &&& self.roots() == before.roots() + Seq::new(n, |_i: int| before.null())
        &&& self.null() == before.null()
        &&& self.interned() == before.interned()
    }

    /// `self` is `inner` with the innermost scope popped off the stack.
    pub open spec fn frame_popped(self, inner: Heap<'h>) -> bool {
        &&& inner.frames().len() > 0
        &&& self.objects() == inner.objects()
        &&& self.frames() == inner.frames().drop_last()
        &&& self.roots() == inner.roots().subrange(0, inner.frames().last() as int)
        &&& self.null() == inner.null()
        &&& self.interned() == inner.interned()
    }

    /// Every slot of a freshly pushed scope holds the interned Null symbol.
    pub proof fn lemma_fresh_slots_null(before: Heap<'h>, after: Heap<'h>, n: nat)
        requires
            after.frame_pushed(before, n),
        ensures
            after.roots().len() == before.roots().len() + n,
            forall|i: int|
                before.roots().len() <= i < after.roots().len() ==> #[trigger] after.roots()[i]
                    == after.null(),
    {
        assert forall|i: int| before.roots().len() <= i < after.roots().len() implies
            #[trigger] after.roots()[i] == after.null() by {
            let fresh = Seq::new(n, |_j: int| before.null());
            assert(after.roots()[i] == fresh[i - before.roots().len()]);
        }
    }

    /// Scopes are popped in reverse order of pushing: when code run inside a
    /// scope keeps the stack as it found it, popping afterwards removes exactly
    /// that scope, and the outer slots keep what the inner code left in them.
    pub proof fn lemma_scope_lifo(
        before: Heap<'h>,
        pushed: Heap<'h>,
        inner: Heap<'h>,
        after: Heap<'h>,
        n: nat,
    )
        requires
            before.roots().len() <= usize::MAX,
            pushed.frame_pushed(before, n),
            inner.evolved_from(pushed),
            after.frame_popped(inner),
        ensures
            after.frames() == before.frames(),
            after.roots().len() == before.roots().len(),
            after.roots() == inner.roots().subrange(0, before.roots().len() as int),
            after.objects() == inner.objects(),
    {
        assert(inner.frames() == before.frames().push(before.roots().len() as usize));
        assert(inner.frames().last() == before.roots().len() as usize);
        assert(after.frames() =~= before.frames());
    }

    /// Push a scope of `n` root slots that hold the interned Null symbol.
    fn push_frame(&mut self, n: usize)
        requires
            old(self).wf(),
        ensures
            final(self).frame_pushed(*old(self), n as nat),
            final(self).wf(),
    {
        let ghost before = *self;
        let start = self.roots.len();
        self.frames.push(start);
        let mut i: usize = 0;
        while i < n
            invariant
                i <= n,
                self.objects() == before.objects(),
                self.frames() == before.frames().push(start),
                self.roots() == before.roots() + Seq::new(i as nat, |_j: int| before.null()),
                self.null() == before.null(),
                self.interned() == before.interned(),
                start == before.roots().len(),
            decreases n - i,
        {
            let null = self.interned_null;
            self.roots.push(null);
            i = i + 1;
            proof {
                let fresh = Seq::new(i as nat, |_j: int| before.null());
                assert(self.roots() =~= before.roots() + fresh);
            }
        }
        proof {
            assert forall|k: int| 0 <= k < self.roots().len() implies self.holds(
                #[trigger] self.roots()[k],
            ) by {
                if k >= before.roots().len() {
                    assert(self.roots()[k] == before.null());
                } else {
                    assert(self.roots()[k] == before.roots()[k]);
                }
            }
            assert forall|k: int| 0 <= k < self.frames().len() implies #[trigger] self.frames()[k]
                <= self.roots().len() by {
                if k < before.frames().len() {
                    assert(self.frames()[k] == before.frames()[k]);
                }
            }
            assert forall|k: int, l: int| 0 <= k <= l < self.frames().len() implies
                #[trigger] self.frames()[k] <= #[trigger] self.frames()[l] by {
                if l < before.frames().len() {
                    assert(self.frames()[k] == before.frames()[k]);
                    assert(self.frames()[l] == before.frames()[l]);
                } else if k < before.frames().len() {
                    assert(self.frames()[k] == before.frames()[k]);
                }
            }
        }
    }

    /// Pop the innermost scope off the stack.
    fn pop_frame(&mut self)
        requires
            old(self).wf(),
            old(self).frames().len() > 0,
        ensures
            final(self).frame_popped(*old(self)),
            final(self).wf(),
    {
        let ghost before = *self;
        let start = self.frames.pop().unwrap();
        self.roots.truncate(start);
        proof {
            assert(before.frames()[before.frames().len() - 1] <= before.roots().len());
            assert forall|k: int| 0 <= k < self.frames().len() implies #[trigger] self.frames()[k]
                <= self.roots().len() by {
                assert(self.frames()[k] == before.frames()[k]);
                assert(before.frames()[k] <= before.frames()[before.frames().len() - 1]);
            }
            assert forall|k: int, l: int| 0 <= k <= l < self.frames().len() implies
                #[trigger] self.frames()[k] <= #[trigger] self.frames()[l] by {
                assert(self.frames()[k] == before.frames()[k]);
                assert(self.frames()[l] == before.frames()[l]);
            }
            assert forall|i: int| 0 <= i < self.roots().len() implies self.holds(
                #[trigger] self.roots()[i],
            ) by {
                assert(self.roots()[i] == before.roots()[i]);
            }
        }
    }

    /// Create a scope of `size` root slots, each holding the interned Null
    /// symbol, pass it to `then`, and pop it when `then` returns.
    pub fn with_new_boxed_scope<F, R>(&mut self, size: usize, then: F) -> (r: R) where
        F: for<'s> FnOnce(&mut Heap<'h>, Scope<'h, 's>) -> R,
        requires
            old(self).wf(),
            old(self).roots().len() + size <= usize::MAX,
            forall|g: &mut Heap<'h>, sc: Scope|
                g.wf() && g.frame_pushed(*old(self), size as nat) && sc.spec_owner() is None
                    && sc.spec_start() == old(self).roots().len() && sc.spec_len() == size
                    ==> then.requires((g, sc)),
            forall|g: &mut Heap<'h>, sc: Scope, r: R| #[trigger]
                then.ensures((g, sc), r) ==> final(g).evolved_from(*g),
        ensures
            exists|g: &mut Heap<'h>, sc: Scope|
                {
                    &&& g.wf()
                    &&& g.frame_pushed(*old(self), size as nat)
                    &&& sc.spec_owner() is None
                    &&& sc.spec_start() == old(self).roots().len()
                    &&& sc.spec_len() == size
                    &&& #[trigger] then.ensures((g, sc), r)
                    &&& final(self).frame_popped(*final(g))
                },
            final(self).evolved_from(*old(self)),
    {
        let start = self.roots.len();
        self.push_frame(size);
        let sc = Scope { owner: None, start, len: size, scope: PhantomData };
        let ghost pushed = *self;
        let r = then(self, sc);
        let ghost inner = *self;
        self.pop_frame();
        proof {
            assert(inner.frames() == pushed.frames());
            assert(self.frames() =~= old(self).frames());
        }
        r
    }

    /// Create a scope of `N` root slots, each holding the interned Null
    /// symbol, pass the handles to its slots to `then`, and pop it when
    /// `then` returns.
    pub fn with_new_array_scope<F, R, const N: usize>(&mut self, then: F) -> (r: R) where
        F: for<'s> FnOnce(&mut Heap<'h>, [ScopedHandle<'h, 's>; N]) -> R,
        requires
            old(self).wf(),
            old(self).roots().len() + N <= usize::MAX,
            forall|g: &mut Heap<'h>, hs: [ScopedHandle; N]|
                g.wf() && g.frame_pushed(*old(self), N as nat) && (forall|i: int|
                    0 <= i < N ==> (#[trigger] hs[i]).spec_owner() is None && hs[i].spec_index()
                        == old(self).roots().len() + i) ==> then.requires((g, hs)),
            forall|g: &mut Heap<'h>, hs: [ScopedHandle; N], r: R| #[trigger]
                then.ensures((g, hs), r) ==> final(g).evolved_from(*g),
        ensures
            exists|g: &mut Heap<'h>, hs: [ScopedHandle; N]|
                {
                    &&& g.wf()
                    &&& g.frame_pushed(*old(self), N as nat)
                    &&& forall|i: int|
                        0 <= i < N ==> (#[trigger] hs[i]).spec_owner() is None && hs[i].spec_index()
                            == old(self).roots().len() + i
                    &&& #[trigger] then.ensures((g, hs), r)
                    &&& final(self).frame_popped(*final(g))
                },
            final(self).evolved_from(*old(self)),
    {
        let start = self.roots.len();
        self.push_frame(N);
        let first = ScopedHandle { owner: None, index: start, scope: PhantomData };
        let mut hs: [ScopedHandle<'h, '_>; N] = [first; N];
        let mut i: usize = 0;
        while i < N
            invariant
                i <= N,
                start + N <= usize::MAX,
                forall|j: int|
                    0 <= j < i ==> (#[trigger] hs[j]).spec_owner() is None && hs[j].spec_index()
                        == start + j,
            decreases N - i,
        {
            hs[i] = ScopedHandle { owner: None, index: start + i, scope: PhantomData };
            i = i + 1;
        }
        let ghost pushed = *self;
        let r = then(self, hs);
        let ghost inner = *self;
        self.pop_frame();
        proof {
            assert(inner.frames() == pushed.frames());
            assert(self.frames() =~= old(self).frames());
        }
        r
    }

    /// A heap as `with_new` hands it out: no scope on the stack, and only the
    /// interned objects allocated.
    pub open spec fn is_fresh(self) -> bool {
        &&& self.roots().len() == 0
        &&& self.frames().len() == 0
        &&& self.objects().len() == 1 + INTERNED_VARIABLE_COUNT
    }

    /// Create a heap, pass it to `then`, and drop it when `then` returns.
    ///
    /// The Null symbol and the small variables are interned before `then` is
    /// called.
    pub fn with_new<F, R>(then: F) -> (r: R) where F: for<'x> FnOnce(&mut Heap<'x>) -> R,
        requires
            forall|g: &mut Heap| g.wf() && g.is_fresh() ==> then.requires((g,)),
        ensures
            exists|g: &mut Heap| g.wf() && g.is_fresh() && #[trigger] then.ensures((g,), r),
    {
        let mut heap = Heap {
            objects: Vec::new(),
            roots: Vec::new(),
            frames: Vec::new(),
            interned_null: UnsafeHandle::dangling(),
            interned_variables: Vec::new(),
            heap_id: PhantomData,
        };
        let name: Vec<u8> = vec![78u8, 117u8, 108u8, 108u8];
        let null = match heap.alloc_symbol(name.as_slice()) {
            Ok(h) => h,
            Err(_) => UnsafeHandle::dangling(),
        };
        heap.interned_null = null;
        proof {
            assert(name@ == null_name());
        }
        let mut i: usize = 0;
        while i < INTERNED_VARIABLE_COUNT
            invariant
                i <= INTERNED_VARIABLE_COUNT,
                heap.objects_wf(),
                heap.roots().len() == 0,
                heap.frames().len() == 0,
                heap.objects().len() == 1 + i,
                heap.holds(heap.null()),
                name_of(heap.object(heap.null())) == Some(null_name()),
                heap.interned().len() == i,
                forall|d: int|
                    0 <= d < i ==> {
                        &&& heap.holds(#[trigger] heap.interned()[d])
                        &&& variable_index_of(heap.object(heap.interned()[d])) == Some(d as u32)
                    },
            decreases INTERNED_VARIABLE_COUNT - i,
        {
            let ghost prev = heap;
            let h = heap.alloc_variable(DeBruijn(i as u32));
            heap.interned_variables.push(h);
            proof {
                assert(heap.objects()[prev.objects().len() as int] == heap.objects().last());
                assert forall|d: int| 0 <= d < i + 1 implies {
                    &&& heap.holds(#[trigger] heap.interned()[d])
                    &&& variable_index_of(heap.object(heap.interned()[d])) == Some(d as u32)
                } by {
                    if d < i {
                        assert(heap.interned()[d] == prev.interned()[d]);
                        let a = heap.interned()[d].addr() as int;
                        assert(heap.objects().subrange(0, prev.objects().len() as int)[a]
                            == heap.objects()[a]);
                    }
                }
                let a = prev.null().addr() as int;
                let kept = heap.objects().subrange(0, prev.objects().len() as int);
                assert(kept[a] == heap.objects()[a]);
            }
            i = i + 1;
        }
        proof {
            assert(heap.roots_wf());
            assert(heap.interned_wf());
        }
        let g = &mut heap;
        proof {
            assert(g.wf() && g.is_fresh());
        }
        then(g)
    }

    /// The interned Null object, with which every new root slot starts.
    pub fn interned_null(&self) -> (r: UnsafeHandle<'h>)
        ensures
            r == self.null(),
    {
        self.interned_null
    }

    /// The interned variable with the given De Bruijn index, or `None` when
    /// the index is not below `INTERNED_VARIABLE_COUNT`.
    pub fn interned_variable(&self, de_bruijn: DeBruijn) -> (r: Option<UnsafeHandle<'h>>)
        requires
            self.interned_wf(),
        ensures
            de_bruijn.0 < INTERNED_VARIABLE_COUNT ==> r == Some(
                self.interned()[de_bruijn.0 as int],
            ),
            de_bruijn.0 >= INTERNED_VARIABLE_COUNT ==> r is None,
    {
        if (de_bruijn.0 as usize) < INTERNED_VARIABLE_COUNT {
            Some(self.interned_variables[de_bruijn.0 as usize])
        } else {
            None
        }
    }

    /// `self` is `before` with one object added, and root slot `into`
    /// referring to it.
    pub open spec fn stored_new<'s>(self, before: Heap<'h>, into: ScopedHandle<'h, 's>) -> bool {
        &&& into.spec_owner() is None
        &&& self.objects().len() == before.objects().len() + 1
        &&& self.objects().subrange(0, before.objects().len() as int) == before.objects()
        &&& self.roots() == before.roots().update(
            into.spec_index() as int,
            self.roots()[into.spec_index() as int],
        )
        &&& self.roots()[into.spec_index() as int].addr() == before.objects().len()
        &&& self.frames() == before.frames()
        &&& self.null() == before.null()
        &&& self.interned() == before.interned()
    }

    /// `self` is `before` with the flags of object `o` replaced by `f`.
    pub open spec fn flags_set(self, before: Heap<'h>, o: UnsafeHandle<'h>, f: Flags) -> bool {
        &&& self.objects() == before.objects().update(o.addr() as int, flagged(before.object(o), f))
        &&& self.same_roots(before)
    }

    /// Changing the flags of an object keeps the heap well formed.
    pub proof fn lemma_flags_set_wf(
        before: Heap<'h>,
        after: Heap<'h>,
        o: UnsafeHandle<'h>,
        f: Flags,
    )
        requires
            before.wf(),
            before.holds(o),
            after.flags_set(before, o, f),
        ensures
            after.evolved_from(before),
    {
        let a = before.objects();
        let b = after.objects();
        assert forall|i: int| 0 <= i < b.len() implies object_wf(b, i) by {
            assert(object_wf(a, i));
            let fields = a[i].payload.fields@;
            if a[i].header.kind == Kind::Application {
                assert forall|j: int| 0 <= j < fields.len() implies {
                    let k = (#[trigger] fields[j]).addr() as int;
                    &&& k < a.len()
                    &&& k < b.len()
                    &&& a[k].header.free_cache == b[k].header.free_cache
                } by {
                    let k = fields[j].addr() as int;
                    assert(k < i);
                }
                lemma_fields_cache_agree(a, b, fields);
            }
        }
        assert forall|d: int| 0 <= d < INTERNED_VARIABLE_COUNT implies {
            &&& after.holds(#[trigger] after.interned()[d])
            &&& variable_index_of(after.object(after.interned()[d])) == Some(d as u32)
        } by {
            assert(before.holds(before.interned()[d]));
        }
        assert forall|i: int| 0 <= i < after.roots().len() implies after.holds(
            #[trigger] after.roots()[i],
        ) by {
            assert(before.holds(before.roots()[i]));
        }
    }

    /// Appending a well-formed object keeps every object well formed.
    proof fn lemma_push_keeps_wf(objs: Seq<Object<'h>>, o: Object<'h>)
        requires
            forall|i: int| 0 <= i < objs.len() ==> object_wf(objs, i),
            object_wf(objs.push(o), objs.len() as int),
        ensures
            forall|i: int| 0 <= i < objs.len() + 1 ==> object_wf(objs.push(o), i),
    {
        let next = objs.push(o);
        assert forall|i: int| 0 <= i < objs.len() + 1 implies object_wf(next, i) by {
            if i < objs.len() {
                assert(object_wf(objs, i));
                assert(next[i] == objs[i]);
                let fields = objs[i].payload.fields@;
                if objs[i].header.kind == Kind::Application {
                    assert forall|j: int| 0 <= j < fields.len() implies {
                        let k = (#[trigger] fields[j]).addr() as int;
                        &&& k < objs.len()
                        &&& k < next.len()
                        &&& objs[k].header.free_cache == next[k].header.free_cache
                    } by {
                        let k = fields[j].addr() as int;
                        assert(k < i);
                        assert(next[k] == objs[k]);
                    }
                    lemma_fields_cache_agree(objs, next, fields);
                }
            }
        }
    }

    /// Allocate an object with the given header and payload.
    ///
    /// The object must be complete and well formed: its fields refer to
    /// objects that exist already. Running out of memory aborts the process.
    pub fn alloc_object(&mut self, payload_size: usize, header: Header, payload: Payload<'h>) -> (r:
        UnsafeHandle<'h>)
        requires
            old(self).objects_wf(),
            payload_size == payload_len(payload),
            object_wf(
                old(self).objects().push(Object { header, payload }),
                old(self).objects().len() as int,
            ),
        ensures
            r.addr() == old(self).objects().len(),
            final(self).objects() == old(self).objects().push(Object { header, payload }),
            final(self).same_roots(*old(self)),
            final(self).objects_wf(),
    {
        proof {
            Heap::lemma_push_keeps_wf(self.objects@, Object { header, payload });
        }
        let pointer = self.objects.len();
        self.objects.push(Object { header, payload });
        UnsafeHandle { pointer, heap_id: PhantomData }
    }

    /// Allocate an object as [`alloc_object`](Heap::alloc_object) does, and
    /// make the root slot `into` refer to it.
    pub fn new<'s>(
        &mut self,
        into: ScopedHandle<'h, 's>,
        payload_size: usize,
        header: Header,
        payload: Payload<'h>,
    )
        requires
            old(self).wf(),
            old(self).is_root(into),
            payload_size == payload_len(payload),
            object_wf(
                old(self).objects().push(Object { header, payload }),
                old(self).objects().len() as int,
            ),
        ensures
            final(self).stored_new(*old(self), into),
            final(self).object(final(self).slot_value(into)) == (Object { header, payload }),
            final(self).evolved_from(*old(self)),
    {
        let h = self.alloc_object(payload_size, header, payload);
        into.copy_from_unsafe_handle(self, h);
        proof {
            assert(self.objects().subrange(0, old(self).objects().len() as int) =~= old(
                self,
            ).objects());
        }
    }
}

} // verus!
