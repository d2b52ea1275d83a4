use vstd::prelude::*;

verus! {

/// A De Bruijn index references a variable.
#[derive(Clone, Copy, Debug, PartialEq, Eq, Structural)]
pub struct DeBruijn(pub u32);

/// Set of variables that are free in an object.
///
/// Variables with a De Bruijn index less than 8 are stored as one bit each.
/// Inserting a variable with a larger index puts the cache in the "unknown"
/// state (all bits set), from which it can no longer answer questions.
/// Unless the cache is unknown, it is exact: no false positives and no false
/// negatives, also for indices of 8 and more (which it never holds).
#[derive(Clone, Copy, Debug, PartialEq, Eq, Structural)]
pub struct FreeCache {
    bits: u8,
}

impl FreeCache {
    /// The free variables cache with no variables.
    pub closed spec fn spec_empty() -> FreeCache {
        FreeCache { bits: 0 }
    }

    /// The free variables cache in the "unknown" state.
    pub closed spec fn spec_unknown() -> FreeCache {
        FreeCache { bits: 0xFF }
    }

    /// The free variables cache with no variables.
    pub fn empty() -> (r: FreeCache)
        ensures
            r == FreeCache::spec_empty(),
    {
        FreeCache { bits: 0 }
    }

    /// The free variables cache in the "unknown" state.
    pub fn unknown() -> (r: FreeCache)
        ensures
            r == FreeCache::spec_unknown(),
    {
        FreeCache { bits: 0xFF }
    }

    /// The byte that represents the cache.
    pub closed spec fn spec_bits(self) -> u8 {
        self.bits
    }

    /// The cache after inserting the variable with index `d`.
    pub closed spec fn inserted(self, d: u32) -> FreeCache {
        if d >= 8 {
            FreeCache::spec_unknown()
        } else {
            FreeCache { bits: self.bits | (1u8 << (d as u8)) }
        }
    }

    /// What the cache answers for the variable with index `d`:
    /// `None` when unknown, else whether the variable is free.
    pub closed spec fn lookup(self, d: u32) -> Option<bool> {
        if self.bits == 0xFF {
            None
        } else if d >= 8 {
            Some(false)
        } else {
            Some(self.bits & (1u8 << (d as u8)) != 0)
        }
    }

    /// The union of two caches; the unknown state absorbs everything.
    pub closed spec fn united(self, other: FreeCache) -> FreeCache {
        FreeCache { bits: self.bits | other.bits }
    }

    /// The byte that represents the cache (0xFF is the unknown state).
    pub fn bits(self) -> (r: u8)
        ensures
            r == self.spec_bits(),
    {
        self.bits
    }

    /// Insert a variable into the free variables cache.
    ///
    /// If the variable has a De Bruijn index larger than 7,
    /// the cache in the unknown state is returned.
    #[must_use]
    pub fn insert(self, de_bruijn: DeBruijn) -> (r: FreeCache)
        ensures
            r == self.inserted(de_bruijn.0),
    {
        if de_bruijn.0 >= 8 {
            FreeCache::unknown()
        } else {
            FreeCache { bits: self.bits | (1u8 << (de_bruijn.0 as u8)) }
        }
    }

    /// Check whether the free variables cache contains a variable.
    ///
    /// Returns `None` in the unknown state, else whether the variable is free.
    pub fn contains(self, de_bruijn: DeBruijn) -> (r: Option<bool>)
        ensures
            r == self.lookup(de_bruijn.0),
    {
        if self.bits == 0xFF {
            None
        } else if de_bruijn.0 >= 8 {
            Some(false)
        } else {
            Some(self.bits & (1u8 << (de_bruijn.0 as u8)) != 0)
        }
    }

    /// The union of two caches, with the unknown state absorbing.
    #[must_use]
    pub fn union(self, other: FreeCache) -> (r: FreeCache)
        ensures
            r == self.united(other),
    {
        FreeCache { bits: self.bits | other.bits }
    }
}

/// A variable inserted into the empty cache is reported present, and every
/// other variable is reported absent.
pub proof fn lemma_insert_exact(d: u32, e: u32)
    requires
        d < 8,
    ensures
        FreeCache::spec_empty().inserted(d).lookup(d) == Some(true),
        e != d ==> FreeCache::spec_empty().inserted(d).lookup(e) == Some(false),
{
    let s = d as u8;
    assert((0u8 | (1u8 << s)) & (1u8 << s) != 0 && (0u8 | (1u8 << s)) != 0xFF) by (bit_vector)
        requires
            s < 8,
    ;
    if e != d && e < 8 {
        let t = e as u8;
        assert((0u8 | (1u8 << s)) & (1u8 << t) == 0) by (bit_vector)
            requires
                s < 8,
                t < 8,
                s != t,
        ;
    }
}

/// Inserting a variable with an index of 8 or more yields the unknown state,
/// the unknown state answers nothing, and it absorbs inserts and unions.
pub proof fn lemma_unknown_absorbing(d: u32, c: FreeCache)
    ensures
        d >= 8 ==> FreeCache::spec_empty().inserted(d) == FreeCache::spec_unknown(),
        FreeCache::spec_unknown().lookup(d) is None,
        FreeCache::spec_unknown().inserted(d) == FreeCache::spec_unknown(),
        c.united(FreeCache::spec_unknown()) == FreeCache::spec_unknown(),
        FreeCache::spec_unknown().united(c) == FreeCache::spec_unknown(),
{
    let b = c.bits;
    assert(b | 0xFFu8 == 0xFFu8 && 0xFFu8 | b == 0xFFu8) by (bit_vector);
    if d < 8 {
        let s = d as u8;
        assert(0xFFu8 | (1u8 << s) == 0xFFu8) by (bit_vector);
    }
}

} // verus!
