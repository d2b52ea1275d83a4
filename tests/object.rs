use aurum_vm::DeBruijn;
use aurum_vm::Flags;
use aurum_vm::FreeCache;
use aurum_vm::Header;

#[test]
fn mod_header_size() {
    assert_eq!(std::mem::size_of::<Header>(), 8);
}

#[test]
fn header_size() {
    assert_eq!(std::mem::size_of::<Header>(), 8);
    assert_eq!(std::mem::align_of::<Header>(), 4);
}

#[test]
fn free_cache_answers_true() {
    for d in 0u32..8 {
        let de_bruijn = DeBruijn(d);
        let cache = FreeCache::empty().insert(de_bruijn);
        assert_eq!(cache.contains(de_bruijn), Some(true));
    }
}

#[test]
fn free_cache_answers_false() {
    let checks = [0u32, 1, 2, 3, 4, 5, 6, 7, 8, 9, 100, u32::MAX];
    for insert in 0u32..8 {
        for &check in checks.iter() {
            if insert == check {
                continue;
            }
            let cache = FreeCache::empty().insert(DeBruijn(insert));
            assert_eq!(cache.contains(DeBruijn(check)), Some(false));
        }
    }
}

#[test]
fn free_cache_answers_none() {
    for &d in [0u32, 3, 7, 8, 1000, u32::MAX].iter() {
        assert_eq!(FreeCache::unknown().contains(DeBruijn(d)), None);
    }
}

#[test]
fn free_cache_becomes_unknown() {
    for &d in [8u32, 9, 16, 255, 256, u32::MAX].iter() {
        let de_bruijn = DeBruijn(d);
        let cache = FreeCache::empty().insert(de_bruijn);
        assert_eq!(cache, FreeCache::unknown());
        assert_eq!(cache.contains(de_bruijn), None);
    }
}

#[test]
fn free_cache_insert_sets_one_bit() {
    let cache = FreeCache::empty().insert(DeBruijn(3));
    assert_eq!(cache.bits(), 0b0000_1000);
    let cache = cache.insert(DeBruijn(0));
    assert_eq!(cache.bits(), 0b0000_1001);
    assert_eq!(cache.insert(DeBruijn(0)), cache);
}

#[test]
fn free_cache_union_absorbs_unknown() {
    let a = FreeCache::empty().insert(DeBruijn(1));
    let b = FreeCache::empty().insert(DeBruijn(5));
    assert_eq!(a.union(b).bits(), 0b0010_0010);
    assert_eq!(a.union(FreeCache::unknown()), FreeCache::unknown());
    assert_eq!(FreeCache::unknown().union(b), FreeCache::unknown());
    assert_eq!(FreeCache::unknown().insert(DeBruijn(2)), FreeCache::unknown());
    assert_eq!(FreeCache::empty().bits(), 0);
    assert_eq!(FreeCache::unknown().bits(), 0xFF);
}

#[test]
fn flags_insert_and_remove() {
    let mut f = Flags::empty();
    assert!(!f.contains(Flags::pinned()));
    f.insert(Flags::pinned());
    assert!(f.contains(Flags::pinned()));
    assert!(!f.contains(Flags::marked()));
    f.insert(Flags::marked());
    f.remove(Flags::pinned());
    assert!(!f.contains(Flags::pinned()));
    assert!(f.contains(Flags::marked()));
    assert_eq!(f.bits(), 1);
    assert_eq!(Flags::pinned().bits(), 2);
}
