use vstd::prelude::*;

use crate::de_bruijn::FreeCache;
use crate::heap::UnsafeHandle;

verus! {

/// Size in bytes of one handle slot in an object's payload.
pub const HANDLE_SIZE: u32 = 8;

/// Determines the meaning of the extra and payload fields of an object.
#[derive(Clone, Copy, Debug, PartialEq, Eq, Structural)]
pub enum Kind {
    Symbol,
    Variable,
    Application,
}

/// Various flags that an object may have.
#[derive(Clone, Copy, Debug, PartialEq, Eq, Structural)]
pub struct Flags {
    bits: u8,
}

impl Flags {
    /// The flags with nothing set.
    pub closed spec fn spec_empty() -> Flags {
        Flags { bits: 0 }
    }

    /// Set on objects that are reachable from roots during a collection.
    pub closed spec fn spec_marked() -> Flags {
        Flags { bits: 1 }
    }

    /// As long as an object has this flag, the collector will not
    /// destroy or relocate it.
    pub closed spec fn spec_pinned() -> Flags {
        Flags { bits: 2 }
    }

    /// The byte that represents the flags.
    pub closed spec fn spec_bits(self) -> u8 {
        self.bits
    }

    /// Whether every flag of `other` is set in `self`.
    pub closed spec fn has(self, other: Flags) -> bool {
        self.bits & other.bits == other.bits
    }

    /// `self` with the flags of `other` set.
    pub closed spec fn with(self, other: Flags) -> Flags {
        Flags { bits: self.bits | other.bits }
    }

    /// `self` with the flags of `other` cleared.
    pub closed spec fn without(self, other: Flags) -> Flags {
        Flags { bits: self.bits & !other.bits }
    }

    /// The flags with nothing set.
    pub fn empty() -> (r: Flags)
        ensures
            r == Flags::spec_empty(),
    {
        Flags { bits: 0 }
    }

    /// The flag set on objects that are reachable during a collection.
    pub fn marked() -> (r: Flags)
        ensures
            r == Flags::spec_marked(),
    {
        Flags { bits: 1 }
    }

    /// The flag that keeps the collector from moving or freeing an object.
    pub fn pinned() -> (r: Flags)
        ensures
            r == Flags::spec_pinned(),
    {
        Flags { bits: 2 }
    }

    /// The byte that represents the flags.
    pub fn bits(self) -> (r: u8)
        ensures
            r == self.spec_bits(),
    {
        self.bits
    }

    /// Whether every flag of `other` is set in `self`.
    pub fn contains(self, other: Flags) -> (r: bool)
        ensures
            r == self.has(other),
    {
        self.bits & other.bits == other.bits
    }

    /// Set the flags of `other`.
    pub fn insert(&mut self, other: Flags)
        ensures
            *final(self) == old(self).with(other),
    {
        self.bits = self.bits | other.bits;
    }

    /// Clear the flags of `other`.
    pub fn remove(&mut self, other: Flags)
        ensures
            *final(self) == old(self).without(other),
    {
        self.bits = self.bits & !other.bits;
    }
}

/// Setting a flag makes it present, clearing it makes it absent, and
/// neither touches the other flags.
pub proof fn lemma_flag_set_clear(f: Flags)
    ensures
        f.with(Flags::spec_pinned()).has(Flags::spec_pinned()),
        !f.without(Flags::spec_pinned()).has(Flags::spec_pinned()),
        f.with(Flags::spec_pinned()).has(Flags::spec_marked()) == f.has(Flags::spec_marked()),
        f.without(Flags::spec_pinned()).has(Flags::spec_marked()) == f.has(Flags::spec_marked()),
        f.has(Flags::spec_pinned()) ==> f.with(Flags::spec_pinned()) == f,
        !f.has(Flags::spec_pinned()) ==> f.with(Flags::spec_pinned()).without(Flags::spec_pinned())
            == f,
{
    let b = f.bits;
    assert((b | 2u8) & 2u8 == 2u8) by (bit_vector);
    assert((b & !2u8) & 2u8 != 2u8) by (bit_vector);
    assert(((b | 2u8) & 1u8 == 1u8) == (b & 1u8 == 1u8)) by (bit_vector);
    assert(((b & !2u8) & 1u8 == 1u8) == (b & 1u8 == 1u8)) by (bit_vector);
    assert(b & 2u8 == 2u8 ==> b | 2u8 == b) by (bit_vector);
    assert(b & 2u8 != 2u8 ==> (b | 2u8) & !2u8 == b) by (bit_vector);
}

/// Metadata at the very start of each object.
#[derive(Clone, Copy, Debug)]
pub struct Header {
    /// See [`Kind`].
    pub kind: Kind,
    /// See [`Flags`].
    pub flags: Flags,
    /// See [`FreeCache`].
    pub free_cache: FreeCache,
    /// Four bytes whose meaning depends on the kind: the name length of a
    /// symbol, the De Bruijn index of a variable, the field count of an
    /// application.
    pub extra: u32,
}

/// Kind-dependent contents that follow the header.
pub struct Payload<'h> {
    /// The raw bytes of a symbol's name.
    pub bytes: Vec<u8>,
    /// The handle slots of an application: the function, then the arguments.
    pub fields: Vec<UnsafeHandle<'h>>,
}

/// In-memory representation of an object.
pub struct Object<'h> {
    /// See [`Header`].
    pub header: Header,
    /// See [`Payload`].
    pub payload: Payload<'h>,
}

/// The size in bytes of a payload.
pub open spec fn payload_len<'h>(p: Payload<'h>) -> int {
    p.bytes@.len() + HANDLE_SIZE * p.fields@.len()
}

/// The union of the free caches of the objects that `fields` refer to,
/// starting from the empty cache.
pub open spec fn fields_cache<'h>(objs: Seq<Object<'h>>, fields: Seq<UnsafeHandle<'h>>) -> FreeCache
    decreases fields.len(),
{
    if fields.len() == 0 {
        FreeCache::spec_empty()
    } else {
        fields_cache(objs, fields.drop_last()).united(
            objs[fields.last().addr() as int].header.free_cache,
        )
    }
}

/// Whether the object at position `i` of `objs` is well formed for its kind.
/// An application refers only to objects that come before it.
pub open spec fn object_wf<'h>(objs: Seq<Object<'h>>, i: int) -> bool {
    let o = objs[i];
    let h = o.header;
    let p = o.payload;
    match h.kind {
        Kind::Symbol => {
            &&& h.extra == p.bytes@.len()
            &&& p.fields@.len() == 0
            &&& h.free_cache == FreeCache::spec_empty()
        },
        Kind::Variable => {
            &&& p.bytes@.len() == 0
            &&& p.fields@.len() == 0
            &&& h.free_cache == FreeCache::spec_empty().inserted(h.extra)
        },
        Kind::Application => {
            &&& p.bytes@.len() == 0
            &&& p.fields@.len() == h.extra
            &&& h.extra >= 1
            &&& HANDLE_SIZE * p.fields@.len() <= u32::MAX
            &&& forall|j: int| 0 <= j < p.fields@.len() ==> (#[trigger] p.fields@[j]).addr() < i
            &&& h.free_cache == fields_cache(objs, p.fields@)
        },
    }
}

/// The name of a symbol object; `None` for other kinds.
pub open spec fn name_of<'h>(o: Object<'h>) -> Option<Seq<u8>> {
    if o.header.kind == Kind::Symbol {
        Some(o.payload.bytes@)
    } else {
        None
    }
}

/// The De Bruijn index of a variable object; `None` for other kinds.
pub open spec fn variable_index_of<'h>(o: Object<'h>) -> Option<u32> {
    if o.header.kind == Kind::Variable {
        Some(o.header.extra)
    } else {
        None
    }
}

/// `o` with its flags replaced by `f`.
pub open spec fn flagged<'h>(o: Object<'h>, f: Flags) -> Object<'h> {
    Object {
        header: Header {
            kind: o.header.kind,
            flags: f,
            free_cache: o.header.free_cache,
            extra: o.header.extra,
        },
        payload: o.payload,
    }
}

/// `fields_cache` only reads the free caches of the objects named.
pub proof fn lemma_fields_cache_agree<'h>(
    a: Seq<Object<'h>>,
    b: Seq<Object<'h>>,
    fields: Seq<UnsafeHandle<'h>>,
)
    requires
        forall|j: int|
            0 <= j < fields.len() ==> {
                let k = (#[trigger] fields[j]).addr() as int;
                &&& k < a.len()
                &&& k < b.len()
                &&& a[k].header.free_cache == b[k].header.free_cache
            },
    ensures
        fields_cache(a, fields) == fields_cache(b, fields),
    decreases fields.len(),
{
    if fields.len() > 0 {
        let rest = fields.drop_last();
        assert forall|j: int| 0 <= j < rest.len() implies {
            let k = (#[trigger] rest[j]).addr() as int;
            &&& k < a.len()
            &&& k < b.len()
            &&& a[k].header.free_cache == b[k].header.free_cache
        } by {
            assert(rest[j] == fields[j]);
        }
        lemma_fields_cache_agree(a, b, rest);
        assert(fields.last() == fields[fields.len() - 1]);
    }
}

} // verus!
