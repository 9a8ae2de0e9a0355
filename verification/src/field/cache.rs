//! Fields built once per `(p, m)` and handed out again on later requests.

use vstd::prelude::*;
use crate::error::{GaloisError, Result};
use crate::field::factory::{GaloisField, new_contract};
use crate::field::big_field::{BigGaloisField, big_new_contract};
use crate::arith::{is_prime_spec, npow};

verus! {

/// Fields already built, keyed by characteristic and degree.
pub struct FieldCache {
    entries: Vec<(u64, u32, GaloisField)>,
    big_entries: Vec<(u64, u32, BigGaloisField)>,
}

impl FieldCache {
    pub closed spec fn entries_view(&self) -> Seq<(u64, u32, GaloisField)> {
        self.entries@
    }

    pub closed spec fn big_entries_view(&self) -> Seq<(u64, u32, BigGaloisField)> {
        self.big_entries@
    }

    /// Every entry is what `GaloisField::new` builds for its key, every big entry is a
    /// well-formed field of its key, and keys do not repeat.
    pub open spec fn wf(&self) -> bool {
        &&& forall|i: int| 0 <= i < self.big_entries_view().len() ==> (#[trigger] self.big_entries_view()[i]).2.wf()
            && self.big_entries_view()[i].2.p() == self.big_entries_view()[i].0
            && self.big_entries_view()[i].2.m() == self.big_entries_view()[i].1
        &&& forall|i: int| 0 <= i < self.entries_view().len() ==>
            new_contract((#[trigger] self.entries_view()[i]).0, self.entries_view()[i].1, Ok(self.entries_view()[i].2))
        &&& forall|i: int, j: int| 0 <= i < j < self.entries_view().len() ==>
            (#[trigger] self.entries_view()[i]).0 != (#[trigger] self.entries_view()[j]).0
            || self.entries_view()[i].1 != self.entries_view()[j].1
    }

    /// The cached field of `(p, m)`, if any.
    pub open spec fn lookup(&self, p: u64, m: u32) -> Option<GaloisField> {
        if exists|i: int| 0 <= i < self.entries_view().len() && (#[trigger] self.entries_view()[i]).0 == p
            && self.entries_view()[i].1 == m {
            let i = choose|i: int| 0 <= i < self.entries_view().len() && (#[trigger] self.entries_view()[i]).0 == p
                && self.entries_view()[i].1 == m;
            Some(self.entries_view()[i].2)
        } else {
            None
        }
    }

    /// An empty cache.
    pub fn new() -> (r: Self)
        ensures
            r.wf(),
            r.entries_view().len() == 0,
    {
        FieldCache { entries: Vec::new(), big_entries: Vec::new() }
    }

    fn find(&self, p: u64, m: u32) -> (r: Option<usize>)
        requires
            self.wf(),
        ensures
            r matches Some(i) ==> i < self.entries_view().len() && self.entries_view()[i as int].0 == p
                && self.entries_view()[i as int].1 == m && self.lookup(p, m) == Some(self.entries_view()[i as int].2),
            r is None ==> self.lookup(p, m) is None,
    {
        let mut i: usize = 0;
        while i < self.entries.len()
            invariant
                self.wf(),
                i <= self.entries@.len(),
                forall|j: int| 0 <= j < i ==> !((#[trigger] self.entries@[j]).0 == p && self.entries@[j].1 == m),
            decreases self.entries@.len() - i,
        {
            if self.entries[i].0 == p && self.entries[i].1 == m {
                proof {
                    let k = choose|k: int| 0 <= k < self.entries_view().len() && (#[trigger] self.entries_view()[k]).0 == p
                        && self.entries_view()[k].1 == m;
                    if k != i {
                        if k < i {
                            assert(!((self.entries@[k]).0 == p && self.entries@[k].1 == m));
                        } else {
                            assert(self.entries_view()[i as int].0 != self.entries_view()[k].0
                                || self.entries_view()[i as int].1 != self.entries_view()[k].1);
                        }
                    }
                }
                return Some(i);
            }
            i = i + 1;
        }
        None
    }
}

/// A clone of a field is what `GaloisField::new` builds whenever the field is.
proof fn lemma_contract_equiv(p: u64, m: u32, f: GaloisField, g: GaloisField)
    requires
        new_contract(p, m, Ok(f)),
        g.equiv(&f),
    ensures
        new_contract(p, m, Ok(g)),
{
    g.lemma_equiv_wf(&f);
}

/// GF(p^m) as `GaloisField::new` builds it, built once per cache: a later request for the
/// same `(p, m)` gets the cached field.
pub fn cached_field(cache: &mut FieldCache, p: u64, m: u32) -> (r: Result<GaloisField>)
    requires
        old(cache).wf(),
    ensures
        final(cache).wf(),
        new_contract(p, m, r),
        old(cache).lookup(p, m) matches Some(f) ==> (r matches Ok(g) && g.equiv(&f)) && *final(cache) == *old(cache),
        old(cache).lookup(p, m) is None && r is Ok ==> (final(cache).lookup(p, m) matches Some(f) && f.equiv(&r->Ok_0)),
        old(cache).lookup(p, m) is None && r is Ok ==> final(cache).entries_view()
            == old(cache).entries_view().push(final(cache).entries_view().last()),
        r is Err ==> *final(cache) == *old(cache),
{
    match cache.find(p, m) {
        Some(i) => {
            let f = cache.entries[i].2.clone();
            proof { lemma_contract_equiv(p, m, cache.entries@[i as int].2, f); }
            return Ok(f);
        },
        None => {},
    }
    let field = match GaloisField::new_uncached(p, m) {
        Ok(f) => f,
        Err(e) => { return Err(e); },
    };
    let stored = field.clone();
    proof { lemma_contract_equiv(p, m, field, stored); }
    let ghost before = cache.entries@;
    cache.entries.push((p, m, stored));
    proof {
        let n = before.len() as int;
        assert(cache.entries@[n].0 == p && cache.entries@[n].1 == m);
        assert forall|i: int, j: int| 0 <= i < j < cache.entries@.len() implies
            (#[trigger] cache.entries@[i]).0 != (#[trigger] cache.entries@[j]).0
            || cache.entries@[i].1 != cache.entries@[j].1 by {
            if j == n {
                assert(before[i] == cache.entries@[i]);
                assert(!(before[i].0 == p && before[i].1 == m));
            } else {
                assert(before[i] == cache.entries@[i] && before[j] == cache.entries@[j]);
            }
        }
        let k = choose|k: int| 0 <= k < cache.entries_view().len() && (#[trigger] cache.entries_view()[k]).0 == p
            && cache.entries_view()[k].1 == m;
        if k != n {
            assert(before[k] == cache.entries@[k]);
        }
        assert(cache.big_entries_view() == old(cache).big_entries_view());
    }
    Ok(field)
}

/// GF(order) for a prime power `order`, through the cache.
pub fn cached_field_from_order(cache: &mut FieldCache, order: u64) -> (r: Result<GaloisField>)
    requires
        old(cache).wf(),
    ensures
        final(cache).wf(),
        order < 2 ==> r == Err::<GaloisField, GaloisError>(GaloisError::InvalidOrder(order)),
        order >= 2 && !crate::poly::integer::is_prime_power_spec(order as nat) ==> r == Err::<GaloisField, GaloisError>(
            GaloisError::UnfactorizableOrder(order)),
        order >= 2 && crate::poly::integer::is_prime_power_spec(order as nat) ==> (exists|p: u64, m: u32|
            is_prime_spec(p as nat) && m >= 1 && npow(p as nat, m as nat) == order && #[trigger] new_contract(p, m, r)),
{
    let (p, m) = match crate::poly::integer::factor_prime_power(order) {
        Ok(pm) => pm,
        Err(e) => { return Err(e); },
    };
    cached_field(cache, p, m)
}

/// Empties the cache.
pub fn clear_field_cache(cache: &mut FieldCache)
    ensures
        final(cache).wf(),
        final(cache).entries_view().len() == 0,
        final(cache).big_entries_view().len() == 0,
{
    cache.entries = Vec::new();
    cache.big_entries = Vec::new();
}

/// GF(p^m) with arbitrary-precision elements, built once per cache: the first request for
/// `(p, m)` builds it from `row` as `BigGaloisField::new_uncached` does and stores it; a later
/// request gets a copy of the stored field.
pub fn cached_big_field(cache: &mut FieldCache, p: u64, m: u32, row: Result<(Vec<u32>, Vec<u64>)>) -> (r: Result<BigGaloisField>)
    requires
        old(cache).wf(),
        m < 0x3fff_ffff,
    ensures
        final(cache).wf(),
        (exists|i: int| 0 <= i < old(cache).big_entries_view().len() && (#[trigger] old(cache).big_entries_view()[i]).0 == p
            && old(cache).big_entries_view()[i].1 == m) ==> (r matches Ok(g) && g.wf() && g.p() == p && g.m() == m
            && *final(cache) == *old(cache)),
        !(exists|i: int| 0 <= i < old(cache).big_entries_view().len() && (#[trigger] old(cache).big_entries_view()[i]).0 == p
            && old(cache).big_entries_view()[i].1 == m) ==> big_new_contract(p, m, row, r),
{
    let mut i: usize = 0;
    while i < cache.big_entries.len()
        invariant
            cache.wf(),
            i <= cache.big_entries@.len(),
            forall|j: int| 0 <= j < i ==> !((#[trigger] cache.big_entries@[j]).0 == p && cache.big_entries@[j].1 == m),
        decreases cache.big_entries@.len() - i,
    {
        if cache.big_entries[i].0 == p && cache.big_entries[i].1 == m {
            assert(cache.big_entries_view()[i as int].2.wf());
            return Ok(cache.big_entries[i].2.clone());
        }
        i = i + 1;
    }
    let field = match BigGaloisField::new_uncached(p, m, row) {
        Ok(f) => f,
        Err(e) => { return Err(e); },
    };
    let stored = field.clone();
    let ghost before = cache.big_entries@;
    cache.big_entries.push((p, m, stored));
    proof {
        assert forall|k: int| 0 <= k < cache.big_entries_view().len() implies (#[trigger] cache.big_entries_view()[k]).2.wf()
            && cache.big_entries_view()[k].2.p() == cache.big_entries_view()[k].0
            && cache.big_entries_view()[k].2.m() == cache.big_entries_view()[k].1 by {
            if k < before.len() {
                assert(before[k] == cache.big_entries@[k]);
            }
        }
        assert(cache.entries_view() == old(cache).entries_view());
    }
    Ok(field)
}

} // verus!
