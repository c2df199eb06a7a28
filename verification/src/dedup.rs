//! Claim-based deduplication.
//!
//! The store keys on the canonical location string. [`DedupStore::claim`]
//! is the single test-and-mark step that grants exactly one caller the
//! right to fetch a location: it reports whether the location was new and
//! marks it claimed either way. A record is persisted with
//! [`DedupStore::put`] only for a location its caller claimed, once.
//! Callers that share the store serialize whole calls (one critical
//! section per operation); [`lemma_claim_at_most_once`] states that any
//! number of serialized claims of one location grant it exactly once.

use vstd::prelude::*;

verus! {

/// The persisted records as a map, later entries overriding earlier ones.
pub open spec fn records_view(entries: Seq<(String, String)>) -> Map<Seq<char>, Seq<char>>
    decreases entries.len(),
{
    if entries.len() == 0 {
        Map::<Seq<char>, Seq<char>>::empty()
    } else {
        records_view(entries.drop_last()).insert(entries.last().0@, entries.last().1@)
    }
}

/// The deduplication store: the set of claimed locations and the
/// persisted records, both keyed by canonical location string.
pub struct DedupStore {
    claimed: Vec<String>,
    records: Vec<(String, String)>,
}

impl DedupStore {
    /// The set of claimed locations.
    pub closed spec fn claimed_set(&self) -> Set<Seq<char>> {
        Set::new(
            |x: Seq<char>|
                exists|i: int| 0 <= i < self.claimed@.len() && self.claimed@[i]@ == x,
        )
    }

    /// The persisted records.
    pub closed spec fn records_map(&self) -> Map<Seq<char>, Seq<char>> {
        records_view(self.records@)
    }

    /// An empty store: nothing claimed, nothing recorded.
    pub fn new() -> (s: Self)
        ensures
            s.claimed_set() == Set::<Seq<char>>::empty(),
            s.records_map() == Map::<Seq<char>, Seq<char>>::empty(),
    {
        let s = DedupStore { claimed: Vec::new(), records: Vec::new() };
        proof {
            assert(s.claimed_set() =~= Set::<Seq<char>>::empty());
        }
        s
    }

    /// Whether `loc` has been claimed (by a prior claim or a prior store).
    pub fn contains(&self, loc: &String) -> (r: bool)
        ensures
            r == self.claimed_set().contains(loc@),
    {
        let mut i: usize = 0;
        while i < self.claimed.len()
            invariant
                i <= self.claimed@.len(),
                forall|j: int| 0 <= j < i ==> self.claimed@[j]@ != loc@,
            decreases self.claimed@.len() - i,
        {
            if self.claimed[i].eq(loc) {
                proof {
                    assert(self.claimed@[i as int]@ == loc@);
                }
                return true;
            }
            i = i + 1;
        }
        proof {
            assert(!self.claimed_set().contains(loc@)) by {
                if exists|j: int| 0 <= j < self.claimed@.len() && self.claimed@[j]@ == loc@ {
                    let j = choose|j: int|
                        0 <= j < self.claimed@.len() && self.claimed@[j]@ == loc@;
                    assert(self.claimed@[j]@ != loc@);
                }
            }
        }
        false
    }

    /// The one atomic test-and-mark: reports whether `loc` was unclaimed,
    /// and leaves it claimed either way. The caller that is granted `true`
    /// owns the unique right to fetch `loc`.
    pub fn claim(&mut self, loc: String) -> (granted: bool)
        ensures
            granted == !old(self).claimed_set().contains(loc@),
            final(self).claimed_set() == old(self).claimed_set().insert(loc@),
            final(self).records_map() == old(self).records_map(),
    {
        if self.contains(&loc) {
            proof {
                assert(self.claimed_set() =~= self.claimed_set().insert(loc@));
            }
            return false;
        }
        let ghost before = self.claimed@;
        let ghost lv = loc@;
        self.claimed.push(loc);
        proof {
            assert forall|x: Seq<char>|
                self.claimed_set().contains(x) implies old(self).claimed_set().insert(
                lv,
            ).contains(x) by {
                let i = choose|i: int|
                    0 <= i < self.claimed@.len() && self.claimed@[i]@ == x;
                if i < before.len() {
                    assert(before[i]@ == x);
                } else {
                    assert(x == lv);
                }
            }
            assert forall|x: Seq<char>|
                old(self).claimed_set().insert(lv).contains(x) implies self.claimed_set().contains(
                x,
            ) by {
                if x == lv {
                    assert(self.claimed@[before.len() as int]@ == x);
                } else {
                    let i = choose|i: int| 0 <= i < before.len() && before[i]@ == x;
                    assert(self.claimed@[i]@ == x);
                }
            }
            assert(self.claimed_set() =~= old(self).claimed_set().insert(lv));
        }
        true
    }

    /// Persists the fetched body for `loc`. Called only for a location the
    /// caller itself claimed, and at most once for it.
    pub fn put(&mut self, loc: &String, body: &String)
        requires
            old(self).claimed_set().contains(loc@),
            !old(self).records_map().contains_key(loc@),
        ensures
            final(self).records_map() == old(self).records_map().insert(loc@, body@),
            final(self).claimed_set() == old(self).claimed_set(),
    {
        let ghost before = self.records@;
        self.records.push((loc.clone(), body.clone()));
        proof {
            assert(self.records@.drop_last() =~= before);
        }
    }

    /// The recorded body for `loc`, if one was persisted.
    pub fn get(&self, loc: &String) -> (r: Option<&String>)
        ensures
            match r {
                Some(v) => self.records_map().contains_key(loc@) && v@ == self.records_map()[loc@],
                None => !self.records_map().contains_key(loc@),
            },
    {
        let mut i: usize = self.records.len();
        proof {
            assert(self.records@.take(i as int) =~= self.records@);
        }
        while i > 0
            invariant
                i <= self.records@.len(),
                records_view(self.records@).contains_key(loc@) == records_view(
                    self.records@.take(i as int),
                ).contains_key(loc@),
                records_view(self.records@).contains_key(loc@) ==> records_view(
                    self.records@,
                )[loc@] == records_view(self.records@.take(i as int))[loc@],
            decreases i,
        {
            proof {
                assert(self.records@.take(i as int).drop_last() =~= self.records@.take(i - 1));
                assert(self.records@.take(i as int).last() == self.records@[i - 1]);
            }
            i = i - 1;
            if self.records[i].0.eq(loc) {
                proof {
                    assert(self.records@[i as int].0@ == loc@);
                    assert(records_view(self.records@.take(i + 1)).contains_key(loc@));
                    assert(records_view(self.records@.take(i + 1))[loc@] == self.records@[
                        i as int
                    ].1@);
                }
                return Some(&self.records[i].1);
            }
            proof {
                assert(self.records@[i as int].0@ != loc@);
            }
        }
        proof {
            assert(self.records@.take(0int) =~= Seq::<(String, String)>::empty());
        }
        None
    }
}

/// How many of `n` serialized claims of the location `k`, starting from
/// the claimed-set `s`, are granted.
pub open spec fn claims_granted(s: Set<Seq<char>>, k: Seq<char>, n: nat) -> nat
    decreases n,
{
    if n == 0 {
        0
    } else {
        (if s.contains(k) {
            0nat
        } else {
            1nat
        }) + claims_granted(s.insert(k), k, (n - 1) as nat)
    }
}

/// At-most-once claim: however many callers claim one location, exactly
/// one claim is granted — the first, and only when the location was not
/// already claimed. The store serializes claims, so `n` concurrent
/// callers are `n` successive claims in some order, and this covers every
/// order.
pub proof fn lemma_claim_at_most_once(s: Set<Seq<char>>, k: Seq<char>, n: nat)
    ensures
        claims_granted(s, k, n) == if n > 0 && !s.contains(k) {
            1nat
        } else {
            0nat
        },
    decreases n,
{
    if n > 0 {
        lemma_claim_at_most_once(s.insert(k), k, (n - 1) as nat);
        assert(s.insert(k).contains(k));
    }
}

} // verus!
