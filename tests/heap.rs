use aurum_vm::application::payload_size;
use aurum_vm::DeBruijn;
use aurum_vm::Flags;
use aurum_vm::FreeCache;
use aurum_vm::Heap;
use aurum_vm::Kind;
use aurum_vm::NumArgumentsError;
use aurum_vm::ScopedHandle;
use aurum_vm::UnsafeHandle;
use aurum_vm::UnsafeRefCell;

#[test]
fn symbol_roundtrip() {
    let names: [&[u8]; 4] = [b"", b"Add", b"Pi", &[0u8, 255, 7, 7, 128]];
    for name in names.iter() {
        Heap::with_new(|heap: &mut Heap| {
            heap.with_new_array_scope(|heap: &mut Heap, [handle]: [ScopedHandle; 1]| {
                heap.new_symbol(handle, name).unwrap();
                handle.with_pin(heap, |heap: &mut Heap, p| {
                    assert_eq!(p.as_symbol(heap), Some(*name));
                    assert_eq!(p.header(heap).extra as usize, name.len());
                });
            });
        });
    }
}

#[test]
fn variable_roundtrip() {
    for &d in [0u32, 1, 5, 15, 16, 17, 1000, u32::MAX].iter() {
        let de_bruijn = DeBruijn(d);
        Heap::with_new(|heap: &mut Heap| {
            heap.with_new_array_scope(|heap: &mut Heap, [handle]: [ScopedHandle; 1]| {
                heap.new_variable(handle, de_bruijn);
                assert_eq!(handle.as_variable(heap), Some(de_bruijn));
                let header = handle.header(heap);
                assert_eq!(header.kind, Kind::Variable);
                assert_eq!(header.free_cache, FreeCache::empty().insert(de_bruijn));
            });
        });
    }
}

#[test]
fn application_roundtrip() {
    let cases: [(u32, &[u32]); 4] = [
        (0, &[]),
        (7, &[1, 2, 3]),
        (40, &[0, 100, 15, 16, u32::MAX]),
        (2, &[9; 31]),
    ];
    for &(function_db, argument_db) in cases.iter() {
        Heap::with_new(|heap: &mut Heap| {
            heap.with_new_array_scope(|heap: &mut Heap, [application, function]: [ScopedHandle; 2]| {
                heap.with_new_boxed_scope(argument_db.len(), |heap: &mut Heap, arguments| {
                    heap.new_variable(function, DeBruijn(function_db));
                    for (&a, h) in argument_db.iter().zip(arguments.iter()) {
                        heap.new_variable(h, DeBruijn(a));
                    }
                    heap.new_application(application, function, &arguments.iter()).unwrap();
                    application.with_pin(heap, |heap: &mut Heap, p| {
                        let (f, args) = p.as_application(heap).unwrap();
                        assert_eq!(f.as_unsafe_handle(heap), function.as_unsafe_handle(heap));
                        let got: Vec<UnsafeHandle> =
                            args.iter().iter().map(|s| s.as_unsafe_handle(heap)).collect();
                        let want: Vec<UnsafeHandle> =
                            arguments.iter().iter().map(|s| s.as_unsafe_handle(heap)).collect();
                        assert_eq!(got, want);
                        assert_eq!(args.len(), argument_db.len());
                    });
                });
            });
        });
    }
}

#[test]
fn build_add_pi_x() {
    Heap::with_new(|heap: &mut Heap| {
        heap.with_new_array_scope(|heap: &mut Heap, [add, pi, x, app]: [ScopedHandle; 4]| {
            heap.new_symbol(add, b"Add").unwrap();
            heap.new_symbol(pi, b"Pi").unwrap();
            heap.new_variable(x, DeBruijn(0));
            heap.new_application(app, add, &[pi, x]).unwrap();
            let result = app.with_pin(heap, |heap: &mut Heap, p| {
                let (f, args) = p.as_application(heap).unwrap();
                assert_eq!(f.as_unsafe_handle(heap), add.as_unsafe_handle(heap));
                assert_eq!(args.len(), 2);
                assert_eq!(args.get(0).unwrap().as_unsafe_handle(heap), pi.as_unsafe_handle(heap));
                assert_eq!(args.get(1).unwrap().as_unsafe_handle(heap), x.as_unsafe_handle(heap));
                assert!(args.get(2).is_none());
                args.get(0).unwrap().with_pin(heap, |heap: &mut Heap, q| {
                    assert_eq!(q.as_symbol(heap), Some(&b"Pi"[..]));
                });
                true
            });
            assert!(result);
            let header = app.header(heap);
            assert_eq!(header.kind, Kind::Application);
            assert_eq!(header.extra, 3);
            assert_eq!(header.free_cache, FreeCache::empty().insert(DeBruijn(0)));
        });
    });
}

#[test]
fn interning_observed() {
    Heap::with_new(|heap: &mut Heap| {
        heap.with_new_array_scope(|heap: &mut Heap, [v]: [ScopedHandle; 1]| {
            heap.new_variable(v, DeBruijn(5));
            assert_eq!(Some(v.as_unsafe_handle(heap)), heap.interned_variable(DeBruijn(5)));
            heap.new_variable(v, DeBruijn(5));
            assert_eq!(Some(v.as_unsafe_handle(heap)), heap.interned_variable(DeBruijn(5)));
        });
    });
}

#[test]
fn interned_variable_boundary() {
    Heap::with_new(|heap: &mut Heap| {
        assert!(heap.interned_variable(DeBruijn(15)).is_some());
        assert!(heap.interned_variable(DeBruijn(16)).is_none());
        heap.with_new_array_scope(|heap: &mut Heap, [a, b]: [ScopedHandle; 2]| {
            heap.new_variable(a, DeBruijn(15));
            assert_eq!(Some(a.as_unsafe_handle(heap)), heap.interned_variable(DeBruijn(15)));
            heap.new_variable(b, DeBruijn(16));
            let first = b.as_unsafe_handle(heap);
            heap.new_variable(b, DeBruijn(16));
            assert_ne!(b.as_unsafe_handle(heap), first);
            assert_eq!(b.as_variable(heap), Some(DeBruijn(16)));
            heap.new_variable_not_interned(a, DeBruijn(3));
            assert_ne!(Some(a.as_unsafe_handle(heap)), heap.interned_variable(DeBruijn(3)));
            assert_eq!(a.as_variable(heap), Some(DeBruijn(3)));
        });
    });
}

#[test]
fn scope_slots_start_null() {
    Heap::with_new(|heap: &mut Heap| {
        let null = heap.interned_null();
        heap.with_new_array_scope(|heap: &mut Heap, hs: [ScopedHandle; 3]| {
            for h in hs.iter() {
                assert_eq!(h.as_unsafe_handle(heap), null);
            }
            heap.with_new_boxed_scope(5, |heap: &mut Heap, scope| {
                assert_eq!(scope.len(), 5);
                for h in scope.iter() {
                    assert_eq!(h.as_unsafe_handle(heap), null);
                }
                assert!(scope.get(5).is_none());
            });
        });
        heap.with_new_array_scope(|heap: &mut Heap, [h]: [ScopedHandle; 1]| {
            h.with_pin(heap, |heap: &mut Heap, p| {
                assert_eq!(p.as_symbol(heap), Some(&b"Null"[..]));
            });
        });
    });
}

#[test]
fn nested_scopes() {
    Heap::with_new(|heap: &mut Heap| {
        heap.with_new_array_scope(|heap: &mut Heap, [a, b]: [ScopedHandle; 2]| {
            heap.new_symbol(a, b"a").unwrap();
            heap.new_symbol(b, b"b").unwrap();
            let (ha, hb) = (a.as_unsafe_handle(heap), b.as_unsafe_handle(heap));
            heap.with_new_boxed_scope(3, |heap: &mut Heap, inner| {
                let names: [&[u8]; 3] = [b"c", b"d", b"e"];
                for (h, name) in inner.iter().iter().zip(names.iter()) {
                    heap.new_symbol(*h, name).unwrap();
                }
                for (h, name) in inner.iter().iter().zip(names.iter()) {
                    h.with_pin(heap, |heap: &mut Heap, p| {
                        assert_eq!(p.as_symbol(heap), Some(*name));
                    });
                }
                a.with_pin(heap, |heap: &mut Heap, p| {
                    assert_eq!(p.as_symbol(heap), Some(&b"a"[..]));
                });
            });
            assert_eq!(a.as_unsafe_handle(heap), ha);
            assert_eq!(b.as_unsafe_handle(heap), hb);
            b.with_pin(heap, |heap: &mut Heap, p| {
                assert_eq!(p.as_symbol(heap), Some(&b"b"[..]));
            });
        });
    });
}

#[test]
fn application_free_cache_aggregation() {
    Heap::with_new(|heap: &mut Heap| {
        heap.with_new_array_scope(
            |heap: &mut Heap, [f, x1, x3, x9, x5, app]: [ScopedHandle; 6]| {
                heap.new_symbol(f, b"F").unwrap();
                heap.new_variable(x1, DeBruijn(1));
                heap.new_variable(x3, DeBruijn(3));
                heap.new_variable(x9, DeBruijn(9));
                heap.new_variable(x5, DeBruijn(5));
                heap.new_application(app, f, &[x1, x3, x9]).unwrap();
                assert_eq!(app.header(heap).free_cache, FreeCache::unknown());
                heap.new_application(app, f, &[x1, x3, x5]).unwrap();
                let cache = app.header(heap).free_cache;
                assert_eq!(cache.bits(), 0b0010_1010);
                for d in 0u32..8 {
                    assert_eq!(cache.contains(DeBruijn(d)), Some(d == 1 || d == 3 || d == 5));
                }
            },
        );
    });
}

#[test]
fn application_without_arguments() {
    Heap::with_new(|heap: &mut Heap| {
        heap.with_new_array_scope(|heap: &mut Heap, [f, app]: [ScopedHandle; 2]| {
            heap.new_symbol(f, b"F").unwrap();
            heap.new_application(app, f, &[]).unwrap();
            let header = app.header(heap);
            assert_eq!(header.extra, 1);
            assert_eq!(header.free_cache, FreeCache::empty());
            app.with_pin(heap, |heap: &mut Heap, p| {
                let (function, args) = p.as_application(heap).unwrap();
                assert_eq!(function.as_unsafe_handle(heap), f.as_unsafe_handle(heap));
                assert_eq!(args.len(), 0);
                assert!(p.as_symbol(heap).is_none());
            });
        });
    });
}

#[test]
fn application_size_boundary() {
    assert_eq!(payload_size(0), Ok(8));
    assert_eq!(payload_size(2), Ok(24));
    assert_eq!(payload_size(536_870_910), Ok(4_294_967_288));
    assert_eq!(payload_size(536_870_911), Err(NumArgumentsError));
    assert_eq!(payload_size(usize::MAX), Err(NumArgumentsError));
}

#[test]
fn pin_lifetime() {
    Heap::with_new(|heap: &mut Heap| {
        heap.with_new_array_scope(|heap: &mut Heap, [s]: [ScopedHandle; 1]| {
            heap.new_symbol(s, b"S").unwrap();
            assert!(!s.header(heap).flags.contains(Flags::pinned()));
            s.with_pin(heap, |heap: &mut Heap, p| {
                assert!(p.header(heap).flags.contains(Flags::pinned()));
                s.with_pin(heap, |heap: &mut Heap, q| {
                    assert!(q.header(heap).flags.contains(Flags::pinned()));
                    assert_eq!(q.as_unsafe_handle(), p.as_unsafe_handle());
                });
                assert!(p.header(heap).flags.contains(Flags::pinned()));
            });
            assert!(!s.header(heap).flags.contains(Flags::pinned()));
        });
    });
}

#[test]
fn copy_between_slots() {
    Heap::with_new(|heap: &mut Heap| {
        heap.with_new_array_scope(|heap: &mut Heap, [a, b]: [ScopedHandle; 2]| {
            heap.new_symbol(a, b"A").unwrap();
            assert_ne!(a.as_unsafe_handle(heap), b.as_unsafe_handle(heap));
            b.copy_from(heap, a);
            assert_eq!(a.as_unsafe_handle(heap), b.as_unsafe_handle(heap));
            let null = heap.interned_null();
            a.copy_from_unsafe_handle(heap, null);
            assert_eq!(a.as_unsafe_handle(heap), null);
            assert_ne!(b.as_unsafe_handle(heap), null);
        });
    });
}

#[test]
fn handle_addresses() {
    let h = UnsafeHandle::new(24);
    assert_eq!(h.as_ptr(), 24);
    assert_eq!(h, UnsafeHandle::new(24));
    assert_ne!(h, UnsafeHandle::dangling());
    assert_eq!(UnsafeHandle::dangling().as_ptr() % 8, 0);
}

#[test]
fn ref_cell_borrow() {
    let mut cell = UnsafeRefCell::new(vec![1u32, 2]);
    {
        let guard = cell.borrow_mut();
        assert_eq!(guard.get().len(), 2);
        guard.into_mut().push(3);
    }
    assert_eq!(cell.into_inner(), vec![1, 2, 3]);
}
