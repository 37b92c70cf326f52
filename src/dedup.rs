use crate::item::Loaded;
use crate::route::lemma_filter_push;
use vstd::prelude::*;

verus! {

/// The set of fingerprints of items that an earlier run has already indexed.
pub struct DedupCache {
    seen: Vec<u64>,
}

impl View for DedupCache {
    type V = Set<u64>;

    closed spec fn view(&self) -> Set<u64> {
        self.seen@.to_set()
    }
}

/// An item is dropped by the cache filter when it loaded and its fingerprint
/// is already known; items that failed to load always pass.
pub open spec fn is_cached(seen: Set<u64>, x: Loaded) -> bool {
    match x {
        Ok(item) => seen.contains(item.fingerprint),
        Err(_) => false,
    }
}

pub open spec fn unseen_pred(seen: Set<u64>) -> spec_fn(Loaded) -> bool {
    |x: Loaded| !is_cached(seen, x)
}

impl DedupCache {
    /// A cache that knows no fingerprint.
    pub fn new() -> (r: DedupCache)
        ensures
            r.wf(),
            r@ == Set::<u64>::empty(),
    {
        let r = DedupCache { seen: Vec::new() };
        assert(r@ =~= Set::<u64>::empty());
        r
    }

    /// Whether `fingerprint` has been recorded.
    pub fn contains(&self, fingerprint: u64) -> (r: bool)
        ensures
            r == self@.contains(fingerprint),
    {
        let mut i: usize = 0;
        while i < self.seen.len()
            invariant
                i <= self.seen@.len(),
                forall|k: int| 0 <= k < i ==> self.seen@[k] != fingerprint,
            decreases self.seen.len() - i,
        {
            if self.seen[i] == fingerprint {
                assert(self.seen@.contains(fingerprint));
                return true;
            }
            i += 1;
        }
        false
    }

    /// Records `fingerprint` as seen.
    pub fn insert(&mut self, fingerprint: u64)
        requires
            old(self).wf(),
        ensures
            final(self).wf(),
            final(self)@ == old(self)@.insert(fingerprint),
    {
        if !self.contains(fingerprint) {
            self.seen.push(fingerprint);
            proof {
                assert forall|a: int, b: int|
                    0 <= a < b < self.seen@.len() implies self.seen@[a] != self.seen@[b] by {
                    if b == self.seen@.len() - 1 {
                        assert(old(self).seen@.contains(self.seen@[a]));
                    }
                }
            }
        }
        assert forall|a: u64| self.seen@.contains(a) <==> old(self)@.insert(fingerprint).contains(a) by {
            if a == fingerprint && !old(self).seen@.contains(a) {
                assert(self.seen@[self.seen@.len() - 1] == a);
            }
            if old(self).seen@.contains(a) {
                let j = choose|j: int| 0 <= j < old(self).seen@.len() && old(self).seen@[j] == a;
                assert(self.seen@[j] == a);
            }
        }
        assert(self@ =~= old(self)@.insert(fingerprint));
    }

    /// The number of recorded fingerprints.
    pub fn len(&self) -> (r: usize)
        requires
            self.wf(),
        ensures
            r == self@.len(),
    {
        proof {
            self.seen@.unique_seq_to_set();
        }
        self.seen.len()
    }

    /// No fingerprint is held twice.
    pub closed spec fn wf(&self) -> bool {
        self.seen@.no_duplicates()
    }
}

/// The cache policy when the cache itself may be unreachable: `Some(true)`
/// means the fingerprint is known, `Some(false)` that it is not, `None` that
/// the cache could not be asked. Only a known fingerprint stops an item.
pub fn admits(lookup: Option<bool>) -> (r: bool)
    ensures
        r == (lookup != Some(true)),
{
    !matches!(lookup, Some(true))
}

/// Drops the items whose fingerprint the cache already holds, keeping the
/// order of the rest; items that failed to load pass through.
pub fn filter_cached(items: Vec<Loaded>, cache: &DedupCache) -> (r: Vec<Loaded>)
    ensures
        r@ == items@.filter(unseen_pred(cache@)),
{
    let ghost all = items@;
    let ghost f = unseen_pred(cache@);
    let mut rest = items;
    let mut kept: Vec<Loaded> = Vec::new();
    proof {
        reveal(Seq::filter);
        assert(all.subrange(0, 0).filter(f) =~= Seq::<Loaded>::empty());
    }
    while rest.len() > 0
        invariant
            f == unseen_pred(cache@),
            rest.len() <= all.len(),
            rest@ == all.subrange(all.len() - rest.len(), all.len() as int),
            kept@ == all.subrange(0, all.len() - rest.len()).filter(f),
        decreases rest.len(),
    {
        let ghost k = all.len() - rest.len();
        let x = rest.remove(0);
        proof {
            assert(all.subrange(0, k + 1) =~= all.subrange(0, k).push(x));
            lemma_filter_push(all.subrange(0, k), x, f);
            assert(rest@ =~= all.subrange(k + 1, all.len() as int));
        }
        let cached = match &x {
            Ok(item) => cache.contains(item.fingerprint),
            Err(_) => false,
        };
        if !cached {
            kept.push(x);
        }
    }
    proof {
        assert(all.subrange(0, all.len() as int) =~= all);
    }
    kept
}

} // verus!
