//! The frontier: pending locations and the live-work counter.
//!
//! Entries are pushed only after a successful claim, so no location is
//! ever pending twice. The live-work counter goes up with every push and
//! down once per popped entry when its processing — including all of its
//! own follow-on pushes — is finished; the frontier is closed exactly
//! when the counter is zero and nothing is pending, which is the
//! termination detector for the crawl.

use vstd::prelude::*;

verus! {

/// The pending-work queue of locations awaiting a fetch.
pub struct Frontier {
    pending: Vec<String>,
    live: usize,
}

impl Frontier {
    /// The pending locations.
    pub closed spec fn pending_view(&self) -> Seq<Seq<char>> {
        self.pending@.map_values(|s: String| s@)
    }

    /// The live-work counter: pushed entries whose processing has not
    /// finished.
    pub closed spec fn live_view(&self) -> nat {
        self.live as nat
    }

    /// An empty, closed frontier.
    pub fn new() -> (f: Self)
        ensures
            f.pending_view() == Seq::<Seq<char>>::empty(),
            f.live_view() == 0,
    {
        let f = Frontier { pending: Vec::new(), live: 0 };
        proof {
            assert(f.pending_view() =~= Seq::<Seq<char>>::empty());
        }
        f
    }

    /// Enqueues a location whose claim was just granted.
    pub fn push(&mut self, loc: String)
        requires
            old(self).live_view() < usize::MAX,
        ensures
            final(self).pending_view() == old(self).pending_view().push(loc@),
            final(self).live_view() == old(self).live_view() + 1,
    {
        proof {
            assert(self.pending@.push(loc).map_values(|s: String| s@) =~= self.pending@.map_values(
                |s: String| s@,
            ).push(loc@));
        }
        self.pending.push(loc);
        self.live = self.live + 1;
    }

    /// Takes one pending location, if any. Which one is not part of the
    /// contract beyond its position: no fairness is promised across
    /// producers.
    pub fn pop(&mut self) -> (r: Option<String>)
        ensures
            match r {
                Some(loc) => old(self).pending_view().len() > 0 && loc@ == old(
                    self,
                ).pending_view().last() && final(self).pending_view() == old(
                    self,
                ).pending_view().drop_last() && final(self).live_view() == old(self).live_view(),
                None => old(self).pending_view().len() == 0 && final(self).pending_view() == old(
                    self,
                ).pending_view() && final(self).live_view() == old(self).live_view(),
            },
    {
        proof {
            if self.pending@.len() > 0 {
                assert(self.pending@.drop_last().map_values(|s: String| s@) =~= self.pending@
                    .map_values(|s: String| s@).drop_last());
            }
        }
        self.pending.pop()
    }

    /// Marks one popped entry's processing finished, after all of its
    /// follow-on pushes.
    pub fn finish(&mut self)
        requires
            old(self).live_view() > 0,
        ensures
            final(self).pending_view() == old(self).pending_view(),
            final(self).live_view() == old(self).live_view() - 1,
    {
        self.live = self.live - 1;
    }

    /// Whether the crawl is over: no pending entry and no in-flight work.
    pub fn is_closed(&self) -> (r: bool)
        ensures
            r == (self.live_view() == 0 && self.pending_view().len() == 0),
    {
        self.live == 0 && self.pending.len() == 0
    }

    /// The live-work counter's current value.
    pub fn live_len(&self) -> (n: usize)
        ensures
            n == self.live_view(),
    {
        self.live
    }

    /// How many entries are pending.
    pub fn pending_len(&self) -> (n: usize)
        ensures
            n == self.pending_view().len(),
    {
        self.pending.len()
    }
}

} // verus!
