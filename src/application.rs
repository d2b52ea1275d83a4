use vstd::prelude::*;

use crate::de_bruijn::FreeCache;
use crate::heap::Heap;
use crate::heap::PinnedHandle;
use crate::heap::Scope;
use crate::heap::ScopedHandle;
use crate::heap::UnsafeHandle;
use crate::object::fields_cache;
use crate::object::lemma_fields_cache_agree;
use crate::object::object_wf;
use crate::object::Flags;
use crate::object::Header;
use crate::object::Kind;
use crate::object::Object;
use crate::object::Payload;
use crate::object::HANDLE_SIZE;

verus! {

/// Raised when attempting to create an application with too many arguments.
#[derive(Clone, Copy, Debug, PartialEq, Eq, Structural)]
pub struct NumArgumentsError;

/// Whether an application with `n` arguments can be made: its field count
/// and its payload size fit in a `u32`.
pub open spec fn arguments_fit<'h>(n: int) -> bool {
    (n + 1) * HANDLE_SIZE <= u32::MAX
}

/// The handles that an application of `function` to `arguments` stores, as
/// the slots hold them in `heap`: the function, then the arguments in order.
pub open spec fn field_values<'h, 's>(
    heap: Heap<'h>,
    function: ScopedHandle<'h, 's>,
    arguments: Seq<ScopedHandle<'h, 's>>,
) -> Seq<UnsafeHandle<'h>> {
    seq![heap.slot_value(function)] + arguments.map_values(|a: ScopedHandle| heap.slot_value(a))
}

/// Whether `o` is a fresh application of `function` to `arguments`, made
/// when the heap was `before`. Its free cache is the union of the free caches
/// of the function and of every argument.
pub open spec fn is_new_application<'h, 's>(
    before: Heap<'h>,
    o: Object<'h>,
    function: ScopedHandle<'h, 's>,
    arguments: Seq<ScopedHandle<'h, 's>>,
) -> bool {
    &&& o.header.kind == Kind::Application
    &&& o.header.flags == Flags::spec_empty()
    &&& o.header.extra == arguments.len() + 1
    &&& o.payload.bytes@.len() == 0
    &&& o.payload.fields@ == field_values(before, function, arguments)
    &&& o.header.free_cache == fields_cache(before.objects(), o.payload.fields@)
}

/// The payload size of an application with `num_arguments` arguments: one
/// handle slot for the function and one for each argument.
pub fn payload_size(num_arguments: usize) -> (r: Result<u32, NumArgumentsError>)
    ensures
        arguments_fit(num_arguments as int) ==> r == Ok::<u32, NumArgumentsError>(
            ((num_arguments + 1) * HANDLE_SIZE) as u32,
        ),
        !arguments_fit(num_arguments as int) ==> r is Err,
{
    if num_arguments > 0xFFFF_FFFF {
        return Err(NumArgumentsError);
    }
    let as_u32 = num_arguments as u32;
    match as_u32.checked_add(1) {
        None => Err(NumArgumentsError),
        Some(num_fields) => match num_fields.checked_mul(HANDLE_SIZE) {
            None => Err(NumArgumentsError),
            Some(size) => Ok(size),
        },
    }
}

impl<'h> Heap<'h> {
    /// The header and payload of an application of `function` to
    /// `arguments`.
    fn application_parts<'s>(
        &self,
        function: ScopedHandle<'h, 's>,
        arguments: &[ScopedHandle<'h, 's>],
    ) -> (r: (Header, Payload<'h>))
        requires
            self.wf(),
            self.slot_valid(function),
            forall|i: int| 0 <= i < arguments@.len() ==> self.slot_valid(#[trigger] arguments@[i]),
            arguments_fit(arguments@.len() as int),
        ensures
            is_new_application(*self, Object { header: r.0, payload: r.1 }, function, arguments@),
            object_wf(
                self.objects().push(Object { header: r.0, payload: r.1 }),
                self.objects().len() as int,
            ),
    {
        proof {
            self.lemma_slot_value_held(function);
        }
        let f = function.as_unsafe_handle(self);
        let mut cache = FreeCache::empty().union(f.header(self).free_cache);
        let mut fields: Vec<UnsafeHandle<'h>> = Vec::new();
        fields.push(f);
        proof {
            assert(fields@.drop_last() =~= Seq::<UnsafeHandle<'h>>::empty());
            assert(fields@.last() == f);
            assert(fields_cache(self.objects(), Seq::<UnsafeHandle<'h>>::empty())
                == FreeCache::spec_empty());
            assert(fields@ =~= field_values(*self, function, arguments@.subrange(0, 0)));
        }
        let mut i: usize = 0;
        while i < arguments.len()
            invariant
                self.wf(),
                forall|k: int|
                    0 <= k < arguments@.len() ==> self.slot_valid(#[trigger] arguments@[k]),
                i <= arguments@.len(),
                fields@ == field_values(*self, function, arguments@.subrange(0, i as int)),
                forall|k: int| 0 <= k < fields@.len() ==> self.holds(#[trigger] fields@[k]),
                cache == fields_cache(self.objects(), fields@),
            decreases arguments@.len() - i,
        {
            proof {
                self.lemma_slot_value_held(arguments@[i as int]);
            }
            let a = arguments[i].as_unsafe_handle(self);
            cache = cache.union(a.header(self).free_cache);
            let ghost prev = fields@;
            fields.push(a);
            i = i + 1;
            proof {
                assert(fields@.drop_last() =~= prev);
                assert(arguments@.subrange(0, i as int).map_values(
                    |x: ScopedHandle<'h, 's>| self.slot_value(x),
                ) =~= arguments@.subrange(0, i - 1 as int).map_values(
                    |x: ScopedHandle<'h, 's>| self.slot_value(x),
                ).push(self.slot_value(arguments@[i - 1])));
                assert(fields@ =~= field_values(*self, function, arguments@.subrange(0, i as int)));
            }
        }
        proof {
            assert(arguments@.subrange(0, arguments@.len() as int) =~= arguments@);
        }
        let header = Header {
            kind: Kind::Application,
            flags: Flags::empty(),
            free_cache: cache,
            extra: (arguments.len() + 1) as u32,
        };
        let payload = Payload { bytes: Vec::new(), fields };
        proof {
            let o = Object { header, payload };
            let objs = self.objects().push(o);
            lemma_fields_cache_agree(self.objects(), objs, payload.fields@);
            assert forall|j: int| 0 <= j < payload.fields@.len() implies (
            #[trigger] payload.fields@[j]).addr() < self.objects().len() by {
                assert(self.holds(payload.fields@[j]));
            }
            assert(objs[self.objects().len() as int] == o);
        }
        (header, payload)
    }

    /// Allocate an application of `function` to `arguments`.
    ///
    /// Fails, leaving the heap as it was, when the field count or the payload
    /// size does not fit in a `u32`.
    pub fn alloc_application<'s>(
        &mut self,
        function: ScopedHandle<'h, 's>,
        arguments: &[ScopedHandle<'h, 's>],
    ) -> (r: Result<UnsafeHandle<'h>, NumArgumentsError>)
        requires
            old(self).wf(),
            old(self).slot_valid(function),
            forall|i: int|
                0 <= i < arguments@.len() ==> old(self).slot_valid(#[trigger] arguments@[i]),
        ensures
            !arguments_fit(arguments@.len() as int) ==> r is Err && *final(self) == *old(self),
            arguments_fit(arguments@.len() as int) ==> {
                &&& r matches Ok(h)
                &&& h.addr() == old(self).objects().len()
                &&& final(self).objects().len() == old(self).objects().len() + 1
                &&& final(self).objects().subrange(0, old(self).objects().len() as int) == old(
                    self,
                ).objects()
                &&& is_new_application(
                    *old(self),
                    final(self).objects().last(),
                    function,
                    arguments@,
                )
                &&& final(self).same_roots(*old(self))
            },
            final(self).evolved_from(*old(self)),
    {
        let size = match payload_size(arguments.len()) {
            Ok(size) => size,
            Err(e) => return Err(e),
        };
        let (header, payload) = self.application_parts(function, arguments);
        let h = self.alloc_object(size as usize, header, payload);
        proof {
            assert(self.objects().subrange(0, old(self).objects().len() as int) =~= old(
                self,
            ).objects());
        }
        Ok(h)
    }

    /// Create an application of `function` to `arguments`, and make root
    /// slot `into` refer to it.
    ///
    /// Fails, leaving the heap as it was, when the field count or the payload
    /// size does not fit in a `u32`.
    pub fn new_application<'s>(
        &mut self,
        into: ScopedHandle<'h, 's>,
        function: ScopedHandle<'h, 's>,
        arguments: &[ScopedHandle<'h, 's>],
    ) -> (r: Result<(), NumArgumentsError>)
        requires
            old(self).wf(),
            old(self).is_root(into),
            old(self).slot_valid(function),
            forall|i: int|
                0 <= i < arguments@.len() ==> old(self).slot_valid(#[trigger] arguments@[i]),
        ensures
            !arguments_fit(arguments@.len() as int) ==> r is Err && *final(self) == *old(self),
            arguments_fit(arguments@.len() as int) ==> {
                &&& r is Ok
                &&& final(self).stored_new(*old(self), into)
                &&& is_new_application(
                    *old(self),
                    final(self).object(final(self).slot_value(into)),
                    function,
                    arguments@,
                )
            },
            final(self).evolved_from(*old(self)),
    {
        let size = match payload_size(arguments.len()) {
            Ok(size) => size,
            Err(e) => return Err(e),
        };
        let (header, payload) = self.application_parts(function, arguments);
        self.new(into, size as usize, header, payload);
        Ok(())
    }
}

impl<'h, 'p> PinnedHandle<'h, 'p> {
    /// The function slot and the scope of argument slots of the pinned
    /// application, or `None` when the object is not an application.
    pub fn as_application(self, heap: &Heap<'h>) -> (r: Option<
        (ScopedHandle<'h, 'p>, Scope<'h, 'p>),
    >)
        requires
            heap.wf(),
            heap.holds(self.target()),
        ensures
            heap.object(self.target()).header.kind == Kind::Application ==> {
                &&& r matches Some((f, args))
                &&& f.spec_owner() == Some(self.target())
                &&& f.spec_index() == 0
                &&& args.spec_owner() == Some(self.target())
                &&& args.spec_start() == 1
                &&& args.spec_len() + 1 == heap.object(self.target()).payload.fields@.len()
                &&& heap.slot_valid(f)
                &&& heap.scope_valid(args)
            },
            heap.object(self.target()).header.kind != Kind::Application ==> r is None,
    {
        let header = self.header(heap);
        match header.kind {
            Kind::Application => {
                let h = self.as_unsafe_handle();
                proof {
                    assert(object_wf(heap.objects(), h.addr() as int));
                }
                let function = ScopedHandle::new(Some(h), 0);
                let arguments = Scope::new(Some(h), 1, (header.extra - 1) as usize);
                Some((function, arguments))
            },
            _ => None,
        }
    }
}

/// An application read back through a pinned handle yields the function and
/// the arguments it was made from, in order.
pub proof fn lemma_application_round_trip<'h, 's>(
    before: Heap<'h>,
    after: Heap<'h>,
    into: ScopedHandle<'h, 's>,
    function: ScopedHandle<'h, 's>,
    arguments: Seq<ScopedHandle<'h, 's>>,
    f: ScopedHandle<'h, 's>,
    args: Scope<'h, 's>,
)
    requires
        after.stored_new(before, into),
        is_new_application(before, after.object(after.slot_value(into)), function, arguments),
        f.spec_owner() == Some(after.slot_value(into)),
        f.spec_index() == 0,
        args.spec_owner() == Some(after.slot_value(into)),
        args.spec_start() == 1,
        args.spec_len() + 1 == after.object(after.slot_value(into)).payload.fields@.len(),
    ensures
        after.slot_value(f) == before.slot_value(function),
        args.spec_len() == arguments.len(),
        forall|i: int|
            0 <= i < arguments.len() ==> after.scope_value(args, i) == before.slot_value(
                #[trigger] arguments[i],
            ),
{
    let fields = after.object(after.slot_value(into)).payload.fields@;
    assert(fields[0] == before.slot_value(function));
    assert forall|i: int| 0 <= i < arguments.len() implies after.scope_value(args, i)
        == before.slot_value(#[trigger] arguments[i]) by {
        assert(fields[1 + i] == arguments.map_values(|a: ScopedHandle| before.slot_value(a))[i]);
    }
}

/// The free cache of an application is the union of the free caches of its
/// function and of each argument, the unknown state absorbing.
pub proof fn lemma_application_free_cache<'h, 's>(
    before: Heap<'h>,
    o: Object<'h>,
    function: ScopedHandle<'h, 's>,
    arguments: Seq<ScopedHandle<'h, 's>>,
)
    requires
        is_new_application(before, o, function, arguments),
    ensures
        o.header.free_cache == fields_cache(
            before.objects(),
            field_values(before, function, arguments),
        ),
{
}

} // verus!
