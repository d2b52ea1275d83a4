use vstd::prelude::*;

use crate::de_bruijn::FreeCache;
use crate::heap::Heap;
use crate::heap::PinnedHandle;
use crate::heap::ScopedHandle;
use crate::heap::UnsafeHandle;
use crate::object::name_of;
use crate::object::Flags;
use crate::object::Header;
use crate::object::Kind;
use crate::object::Object;
use crate::object::Payload;

verus! {

/// Raised when attempting to create a symbol with a name that is too long.
#[derive(Clone, Copy, Debug, PartialEq, Eq, Structural)]
pub struct SymbolLenError;

/// Whether `o` is a fresh symbol object named `name`.
pub open spec fn is_new_symbol<'h>(o: Object<'h>, name: Seq<u8>) -> bool {
    &&& o.header.kind == Kind::Symbol
    &&& o.header.flags == Flags::spec_empty()
    &&& o.header.free_cache == FreeCache::spec_empty()
    &&& o.header.extra == name.len()
    &&& o.payload.bytes@ == name
    &&& o.payload.fields@.len() == 0
}

/// The name that `as_symbol` reads through `p`.
pub open spec fn symbol_name<'h, 'p>(heap: Heap<'h>, p: PinnedHandle<'h, 'p>) -> Option<Seq<u8>> {
    name_of(heap.object(p.target()))
}

impl<'h> Heap<'h> {
    /// Allocate a symbol with the given name.
    ///
    /// Fails, leaving the heap as it was, when the length of the name does not
    /// fit in a `u32`.
    pub fn alloc_symbol(&mut self, name: &[u8]) -> (r: Result<UnsafeHandle<'h>, SymbolLenError>)
        requires
            old(self).objects_wf(),
        ensures
            name@.len() > u32::MAX ==> r is Err && *final(self) == *old(self),
            name@.len() <= u32::MAX ==> {
                &&& r matches Ok(h)
                &&& h.addr() == old(self).objects().len()
                &&& final(self).objects().len() == old(self).objects().len() + 1
                &&& final(self).objects().subrange(0, old(self).objects().len() as int) == old(
                    self,
                ).objects()
                &&& is_new_symbol(final(self).objects().last(), name@)
                &&& final(self).same_roots(*old(self))
            },
            final(self).objects_wf(),
    {
        if name.len() > 0xFFFF_FFFF {
            return Err(SymbolLenError);
        }
        let header = Header {
            kind: Kind::Symbol,
            flags: Flags::empty(),
            free_cache: FreeCache::empty(),
            extra: name.len() as u32,
        };
        let payload = Payload { bytes: vstd::slice::slice_to_vec(name), fields: Vec::new() };
        let h = self.alloc_object(name.len(), header, payload);
        proof {
            assert(self.objects().subrange(0, old(self).objects().len() as int) =~= old(
                self,
            ).objects());
        }
        Ok(h)
    }

    /// Create a symbol with the given name, and make root slot `into` refer
    /// to it.
    ///
    /// Fails, leaving the heap as it was, when the length of the name does not
    /// fit in a `u32`.
    pub fn new_symbol<'s>(&mut self, into: ScopedHandle<'h, 's>, name: &[u8]) -> (r: Result<
        (),
        SymbolLenError,
    >)
        requires
            old(self).wf(),
            old(self).is_root(into),
        ensures
            name@.len() > u32::MAX ==> r is Err && *final(self) == *old(self),
            name@.len() <= u32::MAX ==> {
                &&& r is Ok
                &&& final(self).stored_new(*old(self), into)
                &&& is_new_symbol(final(self).object(final(self).slot_value(into)), name@)
            },
            final(self).evolved_from(*old(self)),
    {
        if name.len() > 0xFFFF_FFFF {
            return Err(SymbolLenError);
        }
        let header = Header {
            kind: Kind::Symbol,
            flags: Flags::empty(),
            free_cache: FreeCache::empty(),
            extra: name.len() as u32,
        };
        let payload = Payload { bytes: vstd::slice::slice_to_vec(name), fields: Vec::new() };
        self.new(into, name.len(), header, payload);
        Ok(())
    }
}

impl<'h, 'p> PinnedHandle<'h, 'p> {
    /// The name of the pinned symbol, or `None` when the object is not a
    /// symbol.
    pub fn as_symbol<'a>(self, heap: &'a Heap<'h>) -> (r: Option<&'a [u8]>)
        requires
            heap.wf(),
            heap.holds(self.target()),
        ensures
            match r {
                Some(s) => symbol_name(*heap, self) == Some(s@),
                None => symbol_name(*heap, self) is None,
            },
    {
        let header = self.header(heap);
        match header.kind {
            Kind::Symbol => Some(self.payload(heap).bytes.as_slice()),
            _ => None,
        }
    }
}

/// A symbol made from `name` and read back through a pinned handle to the
/// slot it was stored in yields exactly `name`.
pub proof fn lemma_symbol_round_trip<'h, 'p, 's>(
    before: Heap<'h>,
    after: Heap<'h>,
    into: ScopedHandle<'h, 's>,
    name: Seq<u8>,
    p: PinnedHandle<'h, 'p>,
)
    requires
        after.stored_new(before, into),
        is_new_symbol(after.object(after.slot_value(into)), name),
        p.target() == after.slot_value(into),
    ensures
        symbol_name(after, p) == Some(name),
{
}

} // verus!
