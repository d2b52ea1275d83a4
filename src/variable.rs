use vstd::prelude::*;

use crate::de_bruijn::DeBruijn;
use crate::de_bruijn::FreeCache;
use crate::heap::Heap;
use crate::heap::ScopedHandle;
use crate::heap::UnsafeHandle;
use crate::heap::INTERNED_VARIABLE_COUNT;
use crate::object::object_wf;
use crate::object::variable_index_of;
use crate::object::Flags;
use crate::object::Header;
use crate::object::Kind;
use crate::object::Object;
use crate::object::Payload;

verus! {

/// Whether `o` is a fresh variable object with De Bruijn index `d`.
pub open spec fn is_new_variable<'h>(o: Object<'h>, d: u32) -> bool {
    &&& o.header.kind == Kind::Variable
    &&& o.header.flags == Flags::spec_empty()
    &&& o.header.free_cache == FreeCache::spec_empty().inserted(d)
    &&& o.header.extra == d
    &&& o.payload.bytes@.len() == 0
    &&& o.payload.fields@.len() == 0
}

/// `after` is `before` once root slot `into` refers to a variable with index
/// `d`: the interned one for a small index, else a new object.
pub open spec fn variable_stored<'h, 's>(
    after: Heap<'h>,
    before: Heap<'h>,
    into: ScopedHandle<'h, 's>,
    d: u32,
) -> bool {
    if d < INTERNED_VARIABLE_COUNT {
        after.root_written(before, into.spec_index() as int, before.interned()[d as int])
    } else {
        &&& after.stored_new(before, into)
        &&& is_new_variable(after.object(after.slot_value(into)), d)
    }
}

/// The header and payload of a variable object.
fn variable_parts<'h>(de_bruijn: DeBruijn) -> (r: (Header, Payload<'h>))
    ensures
        is_new_variable(Object { header: r.0, payload: r.1 }, de_bruijn.0),
{
    let header = Header {
        kind: Kind::Variable,
        flags: Flags::empty(),
        free_cache: FreeCache::empty().insert(de_bruijn),
        extra: de_bruijn.0,
    };
    (header, Payload { bytes: Vec::new(), fields: Vec::new() })
}

impl<'h> Heap<'h> {
    /// Allocate a variable with the given De Bruijn index, even when an
    /// interned one exists.
    pub(crate) fn alloc_variable(&mut self, de_bruijn: DeBruijn) -> (r: UnsafeHandle<'h>)
        requires
            old(self).objects_wf(),
        ensures
            r.addr() == old(self).objects().len(),
            final(self).objects().len() == old(self).objects().len() + 1,
            final(self).objects().subrange(0, old(self).objects().len() as int) == old(
                self,
            ).objects(),
            is_new_variable(final(self).objects().last(), de_bruijn.0),
            final(self).same_roots(*old(self)),
            final(self).objects_wf(),
    {
        let (header, payload) = variable_parts(de_bruijn);
        let h = self.alloc_object(0, header, payload);
        proof {
            assert(self.objects().subrange(0, old(self).objects().len() as int) =~= old(
                self,
            ).objects());
        }
        h
    }

    /// Create a variable with the given De Bruijn index, and make root slot
    /// `into` refer to it.
    ///
    /// For a small index the interned object is used and nothing is
    /// allocated.
    pub fn new_variable<'s>(&mut self, into: ScopedHandle<'h, 's>, de_bruijn: DeBruijn)
        requires
            old(self).wf(),
            old(self).is_root(into),
        ensures
            variable_stored(*final(self), *old(self), into, de_bruijn.0),
            final(self).evolved_from(*old(self)),
    {
        match self.interned_variable(de_bruijn) {
            Some(h) => into.copy_from_unsafe_handle(self, h),
            None => self.new_variable_not_interned(into, de_bruijn),
        }
    }

    /// Create a new variable object with the given De Bruijn index, and make
    /// root slot `into` refer to it.
    pub fn new_variable_not_interned<'s>(&mut self, into: ScopedHandle<'h, 's>, de_bruijn: DeBruijn)
        requires
            old(self).wf(),
            old(self).is_root(into),
        ensures
            final(self).stored_new(*old(self), into),
            is_new_variable(final(self).object(final(self).slot_value(into)), de_bruijn.0),
            final(self).evolved_from(*old(self)),
    {
        let (header, payload) = variable_parts(de_bruijn);
        proof {
            let objs = old(self).objects().push(Object { header, payload });
            assert(object_wf(objs, old(self).objects().len() as int));
        }
        self.new(into, 0, header, payload);
    }
}

impl<'h, 's> ScopedHandle<'h, 's> {
    /// The De Bruijn index of the variable that the slot refers to, or `None`
    /// when the object is not a variable.
    pub fn as_variable(self, heap: &Heap<'h>) -> (r: Option<DeBruijn>)
        requires
            heap.wf(),
            heap.slot_valid(self),
        ensures
            match variable_index_of(heap.object(heap.slot_value(self))) {
                Some(d) => r == Some(DeBruijn(d)),
                None => r is None,
            },
    {
        let header = self.header(heap);
        match header.kind {
            Kind::Variable => Some(DeBruijn(header.extra)),
            _ => None,
        }
    }
}

/// A variable made with index `d` reads back as `d`.
pub proof fn lemma_variable_round_trip<'h, 's>(
    before: Heap<'h>,
    after: Heap<'h>,
    into: ScopedHandle<'h, 's>,
    d: u32,
)
    requires
        before.wf(),
        before.is_root(into),
        variable_stored(after, before, into, d),
    ensures
        after.slot_valid(into),
        variable_index_of(after.object(after.slot_value(into))) == Some(d),
{
}

/// For a small index, the slot refers to the interned variable, the very
/// handle that `interned_variable` returns.
pub proof fn lemma_interned_variable_identity<'h, 's>(
    before: Heap<'h>,
    after: Heap<'h>,
    into: ScopedHandle<'h, 's>,
    d: u32,
)
    requires
        before.wf(),
        before.is_root(into),
        d < INTERNED_VARIABLE_COUNT,
        variable_stored(after, before, into, d),
    ensures
        after.slot_value(into) == after.interned()[d as int],
        after.objects() == before.objects(),
{
}

} // verus!
