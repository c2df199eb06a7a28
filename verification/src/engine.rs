//! Crawl orchestration.
//!
//! The decisions of the worker state machine stand here as verified
//! functions: [`plan_page`] turns a fetched page into its fate (persist or
//! not, and which links to follow), and [`enqueue_new`] claims discovered
//! locations and enqueues exactly the newly claimed ones. A driver loop
//! performs the fetches and feeds the results back through these
//! functions. [`crawl_site`] is that loop run against an in-memory site:
//! it closes the frontier in finitely many steps — its termination is
//! checked, with the measure that makes the live-work counter a sound
//! shutdown detector — every location it claims or stores is accounted
//! for, and every claimed location is handled: its page recorded when the
//! media type persists, its links claimed in turn. From that closure,
//! [`lemma_crawl_covers_discovered`] derives that the whole discovery
//! closure of the seed is claimed.

use vstd::prelude::*;

use crate::classify::{Classification, classify_view};
use crate::dedup::DedupStore;
use crate::frontier::Frontier;
use crate::gemtext::{get_links, gemtext_links, extract_links, has_panic_line};
use crate::location::{Location, LocView, parse_loc};

verus! {

/// The set of strings occurring in `ls`.
pub open spec fn set_of(ls: Seq<Seq<char>>) -> Set<Seq<char>> {
    Set::new(|x: Seq<char>| ls.contains(x))
}

/// Appending one string inserts it into the set of occurring strings.
proof fn lemma_set_of_push(ls: Seq<Seq<char>>, x: Seq<char>)
    ensures
        set_of(ls.push(x)) == set_of(ls).insert(x),
{
    assert forall|y: Seq<char>| set_of(ls.push(x)).contains(y) implies set_of(ls).insert(
        x,
    ).contains(y) by {
        let i = choose|i: int| 0 <= i < ls.push(x).len() && ls.push(x)[i] == y;
        if i < ls.len() {
            assert(ls[i] == y);
        }
    }
    assert forall|y: Seq<char>| set_of(ls).insert(x).contains(y) implies set_of(
        ls.push(x),
    ).contains(y) by {
        if y == x {
            assert(ls.push(x)[ls.len() as int] == y);
        } else {
            let i = choose|i: int| 0 <= i < ls.len() && ls[i] == y;
            assert(ls.push(x)[i] == y);
        }
    }
    assert(set_of(ls.push(x)) =~= set_of(ls).insert(x));
}

/// The set of occurring strings is finite.
proof fn lemma_set_of_finite(ls: Seq<Seq<char>>)
    ensures
        set_of(ls).finite(),
    decreases ls.len(),
{
    if ls.len() == 0 {
        assert forall|y: Seq<char>| !set_of(ls).contains(y) by {}
        assert(set_of(ls) =~= Set::<Seq<char>>::empty());
    } else {
        lemma_set_of_finite(ls.drop_last());
        lemma_set_of_push(ls.drop_last(), ls.last());
        assert(ls.drop_last().push(ls.last()) =~= ls);
    }
}

/// The links a worker follows out of a fetched page: the page's extracted
/// in-scope links when its media type says to extract, and none otherwise
/// — a failed extraction degrades to no links.
pub open spec fn planned_links(base: LocView, media: Seq<char>, page: Seq<char>) -> Seq<Seq<char>> {
    if classify_view(media) == Classification::StoreAndExtract && !has_panic_line(page) {
        match extract_links(base, gemtext_links(page)) {
            Ok(ls) => ls,
            Err(_) => Seq::<Seq<char>>::empty(),
        }
    } else {
        Seq::<Seq<char>>::empty()
    }
}

/// A worker's decision about one fetched page.
pub struct PagePlan {
    /// Persist the body under the page's canonical location string.
    pub store_body: bool,
    /// The page's outbound in-scope links, in page order, to be claimed
    /// and enqueued.
    pub links: Vec<String>,
}

/// Decides a fetched page's fate from its declared media type: whether
/// the body is persisted, and which links are followed, exactly
/// [`planned_links`]. An extraction failure is per page: it yields no
/// links and never stops the caller.
pub fn plan_page(base: &Location, media_type: &str, body: &str) -> (r: PagePlan)
    ensures
        r.store_body == (classify_view(media_type@) != Classification::Discard),
        r.links@.map_values(|s: String| s@) == planned_links(base@, media_type@, body@),
{
    let c = crate::classify::classify(media_type);
    let store_body = match c {
        Classification::Discard => false,
        _ => true,
    };
    let links: Vec<String> = match c {
        Classification::StoreAndExtract => match get_links(base, body) {
            Ok(ls) => ls,
            Err(_) => Vec::new(),
        },
        _ => Vec::new(),
    };
    proof {
        if links@.len() == 0 {
            assert(links@.map_values(|s: String| s@) =~= Seq::<Seq<char>>::empty());
        }
    }
    PagePlan { store_body, links }
}

/// Of the discovered links, in order, the ones whose claim is granted:
/// each link that was neither claimed before nor already occurred among
/// the links ahead of it.
pub open spec fn newly_claimed(claimed: Set<Seq<char>>, links: Seq<Seq<char>>) -> Seq<Seq<char>>
    decreases links.len(),
{
    if links.len() == 0 {
        Seq::<Seq<char>>::empty()
    } else {
        newly_claimed(claimed, links.drop_last()) + (if claimed.contains(links.last())
            || links.drop_last().contains(links.last()) {
            Seq::<Seq<char>>::empty()
        } else {
            seq![links.last()]
        })
    }
}

/// The newly claimed links were unclaimed, come from the links, and are
/// pairwise distinct.
proof fn lemma_newly_claimed_props(claimed: Set<Seq<char>>, links: Seq<Seq<char>>)
    ensures
        forall|i: int|
            0 <= i < newly_claimed(claimed, links).len() ==> !claimed.contains(
                newly_claimed(claimed, links)[i],
            ) && links.contains(newly_claimed(claimed, links)[i]),
        forall|i: int, j: int|
            0 <= i < j < newly_claimed(claimed, links).len() ==> newly_claimed(claimed, links)[i]
                != newly_claimed(claimed, links)[j],
        newly_claimed(claimed, links).len() <= links.len(),
    decreases links.len(),
{
    if links.len() > 0 {
        lemma_newly_claimed_props(claimed, links.drop_last());
        let prev = newly_claimed(claimed, links.drop_last());
        let cur = newly_claimed(claimed, links);
        assert forall|i: int| 0 <= i < prev.len() implies links.contains(prev[i]) by {
            let k = choose|k: int| 0 <= k < links.drop_last().len() && links.drop_last()[k]
                == prev[i];
            assert(links[k] == prev[i]);
        }
        if !(claimed.contains(links.last()) || links.drop_last().contains(links.last())) {
            assert(links.contains(links.last())) by {
                assert(links[links.len() - 1] == links.last());
            }
            assert forall|i: int, j: int| 0 <= i < j < cur.len() implies cur[i] != cur[j] by {
                if j == cur.len() - 1 {
                    assert(cur[j] == links.last());
                    assert(links.drop_last().contains(prev[i])) by {
                        let k = choose|k: int|
                            0 <= k < links.drop_last().len() && links.drop_last()[k] == prev[i];
                    }
                }
            }
        }
    }
}

/// Claims every discovered link, in page order, and enqueues exactly the
/// newly claimed ones: afterwards every link is claimed, the frontier has
/// gained [`newly_claimed`] of them, the live-work counter counts the new
/// entries, and the records are untouched. Duplicate links within one
/// page are collapsed by the claim itself, nothing else.
pub fn enqueue_new(store: &mut DedupStore, frontier: &mut Frontier, links: &Vec<String>)
    requires
        old(frontier).live_view() + links@.len() <= usize::MAX,
    ensures
        final(store).claimed_set() == old(store).claimed_set().union(
            set_of(links@.map_values(|s: String| s@)),
        ),
        final(store).records_map() == old(store).records_map(),
        final(frontier).pending_view() == old(frontier).pending_view() + newly_claimed(
            old(store).claimed_set(),
            links@.map_values(|s: String| s@),
        ),
        final(frontier).live_view() == old(frontier).live_view() + newly_claimed(
            old(store).claimed_set(),
            links@.map_values(|s: String| s@),
        ).len(),
{
    let ghost lv = links@.map_values(|s: String| s@);
    let ghost c0 = store.claimed_set();
    let ghost p0 = frontier.pending_view();
    let ghost l0 = frontier.live_view();
    let mut i: usize = 0;
    proof {
        assert(lv.take(0int) =~= Seq::<Seq<char>>::empty());
        assert(set_of(lv.take(0int)) =~= Set::<Seq<char>>::empty());
        assert(c0.union(set_of(lv.take(0int))) =~= c0);
        assert(p0 + newly_claimed(c0, lv.take(0int)) =~= p0);
    }
    while i < links.len()
        invariant
            i <= lv.len(),
            lv == links@.map_values(|s: String| s@),
            lv.len() == links@.len(),
            store.claimed_set() == c0.union(set_of(lv.take(i as int))),
            store.records_map() == old(store).records_map(),
            frontier.pending_view() == p0 + newly_claimed(c0, lv.take(i as int)),
            frontier.live_view() == l0 + newly_claimed(c0, lv.take(i as int)).len(),
            newly_claimed(c0, lv.take(i as int)).len() <= i,
            l0 + lv.len() <= usize::MAX,
        decreases lv.len() - i,
    {
        let ghost prefix = lv.take(i as int);
        proof {
            assert(lv.take(i + 1).drop_last() =~= prefix);
            assert(lv.take(i + 1).last() == lv[i as int]);
            assert(lv.take(i + 1) =~= prefix.push(lv[i as int]));
            lemma_newly_claimed_props(c0, lv.take(i + 1));
        }
        let link = links[i].clone();
        proof {
            assert(link@ == lv[i as int]);
        }
        let granted = store.claim(link);
        proof {
            assert(c0.union(set_of(prefix)).contains(lv[i as int]) == (c0.contains(lv[i as int])
                || prefix.contains(lv[i as int])));
            lemma_set_of_push(prefix, lv[i as int]);
            assert(set_of(lv.take(i + 1)) == set_of(prefix).insert(lv[i as int]));
            assert(store.claimed_set() =~= c0.union(set_of(lv.take(i + 1))));
        }
        if granted {
            let entry = links[i].clone();
            frontier.push(entry);
            proof {
                assert(newly_claimed(c0, lv.take(i + 1)) =~= newly_claimed(c0, prefix).push(
                    lv[i as int],
                ));
                assert(frontier.pending_view() =~= p0 + newly_claimed(c0, lv.take(i + 1)));
            }
        } else {
            proof {
                assert(newly_claimed(c0, lv.take(i + 1)) =~= newly_claimed(c0, prefix));
            }
        }
        i = i + 1;
    }
    proof {
        assert(lv.take(lv.len() as int) =~= lv);
    }
}

/// One page of an in-memory site: where it lives, what media type its
/// server declares, and its body.
pub struct SitePage {
    /// The page's canonical location string.
    pub location: String,
    /// The declared media type.
    pub media_type: String,
    /// The page body.
    pub body: String,
}

/// The links a worker would follow out of one site page, fetched at its
/// own location.
pub open spec fn site_links_of(p: SitePage) -> Seq<Seq<char>> {
    match parse_loc(p.location@) {
        Some(b) => planned_links(b, p.media_type@, p.body@),
        None => Seq::<Seq<char>>::empty(),
    }
}

/// Every location a crawl of the site could ever claim, beyond its seed:
/// the pages' own locations and all their outbound links.
pub open spec fn site_universe(site: Seq<SitePage>) -> Set<Seq<char>>
    decreases site.len(),
{
    if site.len() == 0 {
        Set::<Seq<char>>::empty()
    } else {
        site_universe(site.drop_last()).insert(site.last().location@).union(
            set_of(site_links_of(site.last())),
        )
    }
}

/// The universe of a finite site is finite.
proof fn lemma_site_universe_finite(site: Seq<SitePage>)
    ensures
        site_universe(site).finite(),
    decreases site.len(),
{
    broadcast use vstd::set::axiom_set_union_finite, vstd::set::axiom_set_insert_finite, vstd::set::axiom_set_empty_finite;

    if site.len() > 0 {
        lemma_site_universe_finite(site.drop_last());
        lemma_set_of_finite(site_links_of(site.last()));
    }
}

/// The universe covers each page's own links.
proof fn lemma_site_universe_covers(site: Seq<SitePage>, j: int)
    requires
        0 <= j < site.len(),
    ensures
        forall|x: Seq<char>|
            site_links_of(site[j]).contains(x) ==> #[trigger] site_universe(site).contains(x),
    decreases site.len(),
{
    if j == site.len() - 1 {
        assert forall|x: Seq<char>| site_links_of(site[j]).contains(x) implies site_universe(
            site,
        ).contains(x) by {
            assert(set_of(site_links_of(site.last())).contains(x));
        }
    } else {
        lemma_site_universe_covers(site.drop_last(), j);
        assert(site.drop_last()[j] == site[j]);
        assert forall|x: Seq<char>| site_links_of(site[j]).contains(x) implies site_universe(
            site,
        ).contains(x) by {
            assert(site_universe(site.drop_last()).contains(x));
        }
    }
}

/// Claiming a batch of links that all lie in the finite universe `u`
/// shrinks what is left of `u` by at least the number of claims granted.
proof fn lemma_diff_after_union(u: Set<Seq<char>>, c: Set<Seq<char>>, links: Seq<Seq<char>>)
    requires
        u.finite(),
        forall|x: Seq<char>| links.contains(x) ==> u.contains(x),
    ensures
        u.difference(c.union(set_of(links))).len() + newly_claimed(c, links).len()
            <= u.difference(c).len(),
    decreases links.len(),
{
    if links.len() == 0 {
        assert(set_of(links) =~= Set::<Seq<char>>::empty());
        assert(c.union(set_of(links)) =~= c);
    } else {
        let d = links.drop_last();
        let x = links.last();
        assert forall|y: Seq<char>| d.contains(y) implies u.contains(y) by {
            let k = choose|k: int| 0 <= k < d.len() && d[k] == y;
            assert(links[k] == y);
        }
        lemma_diff_after_union(u, c, d);
        assert(d.push(x) =~= links);
        lemma_set_of_push(d, x);
        let a = c.union(set_of(d));
        if c.contains(x) || d.contains(x) {
            assert(c.union(set_of(links)) =~= a);
        } else {
            assert(u.contains(x)) by {
                assert(links[links.len() - 1] == x);
            }
            assert(!a.contains(x));
            u.lemma_set_insert_diff_decreases(a, x);
            assert(c.union(set_of(links)) =~= a.insert(x));
            assert(newly_claimed(c, links).len() == newly_claimed(c, d).len() + 1);
        }
    }
}

/// The site page a crawled location is served from: the last page in the
/// site whose location is `k` — the one the in-memory fetch finds.
pub open spec fn find_page(site: Seq<SitePage>, k: Seq<char>) -> Option<int>
    decreases site.len(),
{
    if site.len() == 0 {
        None
    } else if site.last().location@ == k {
        Some(site.len() - 1)
    } else {
        find_page(site.drop_last(), k)
    }
}

/// The found page is exactly the last one under that location.
proof fn lemma_find_page(site: Seq<SitePage>, k: Seq<char>)
    ensures
        match find_page(site, k) {
            Some(j) => 0 <= j < site.len() && site[j].location@ == k && (forall|m: int|
                j < m < site.len() ==> site[m].location@ != k),
            None => forall|m: int| 0 <= m < site.len() ==> site[m].location@ != k,
        },
    decreases site.len(),
{
    if site.len() > 0 && site.last().location@ != k {
        lemma_find_page(site.drop_last(), k);
        match find_page(site.drop_last(), k) {
            Some(j) => {
                assert(site[j] == site.drop_last()[j]);
                assert forall|m: int| j < m < site.len() implies site[m].location@ != k by {
                    if m < site.len() - 1 {
                        assert(site[m] == site.drop_last()[m]);
                    }
                }
            },
            None => {
                assert forall|m: int| 0 <= m < site.len() implies site[m].location@ != k by {
                    if m < site.len() - 1 {
                        assert(site[m] == site.drop_last()[m]);
                    }
                }
            },
        }
    }
}

/// Whether a page's links are few enough, against the whole universe,
/// that the live-work counter provably cannot overflow while they are
/// enqueued: no more pending entries than universe locations can exist,
/// so under this bound the counter guard in the driver never trips.
pub open spec fn counter_fits(site: Seq<SitePage>, p: SitePage) -> bool {
    site_links_of(p).len() + site_universe(site).len() + 2 <= usize::MAX
}

/// The crawl's obligation for one claimed location `k`. If the site
/// serves a page under `k` and `k` is a well-formed location, then: the
/// body is recorded under `k` whenever the media type says to persist,
/// and — whenever the page's links provably fit the live-work counter —
/// every one of its outbound links is claimed.
pub open spec fn page_handled(
    site: Seq<SitePage>,
    k: Seq<char>,
    claimed: Set<Seq<char>>,
    records: Map<Seq<char>, Seq<char>>,
) -> bool {
    match find_page(site, k) {
        Some(j) => parse_loc(k) is Some ==> {
            &&& (classify_view(site[j].media_type@) != Classification::Discard ==> records.contains_key(
                k,
            ) && records[k] == site[j].body@)
            &&& (counter_fits(site, site[j]) ==> forall|x: Seq<char>|
                #[trigger] site_links_of(site[j]).contains(x) ==> claimed.contains(x))
        },
        None => true,
    }
}

/// A handled location stays handled as the claimed set grows and the
/// records keep their entries.
proof fn lemma_page_handled_mono(
    site: Seq<SitePage>,
    k: Seq<char>,
    c1: Set<Seq<char>>,
    r1: Map<Seq<char>, Seq<char>>,
    c2: Set<Seq<char>>,
    r2: Map<Seq<char>, Seq<char>>,
)
    requires
        page_handled(site, k, c1, r1),
        forall|x: Seq<char>| c1.contains(x) ==> #[trigger] c2.contains(x),
        forall|k2: Seq<char>| #[trigger] r1.contains_key(k2) ==> r2.contains_key(k2) && r2[k2]
            == r1[k2],
    ensures
        page_handled(site, k, c2, r2),
{
    match find_page(site, k) {
        Some(j) => {
            if parse_loc(k) is Some && counter_fits(site, site[j]) {
                assert forall|x: Seq<char>| site_links_of(site[j]).contains(x) implies c2.contains(
                    x,
                ) by {
                    assert(c1.contains(x));
                }
            }
        },
        None => {},
    }
}

/// A link that was unclaimed is always among the newly claimed.
proof fn lemma_newly_claimed_covers(claimed: Set<Seq<char>>, links: Seq<Seq<char>>, x: Seq<char>)
    requires
        links.contains(x),
        !claimed.contains(x),
    ensures
        newly_claimed(claimed, links).contains(x),
    decreases links.len(),
{
    let prev = newly_claimed(claimed, links.drop_last());
    let cur = newly_claimed(claimed, links);
    if x == links.last() {
        if claimed.contains(links.last()) || links.drop_last().contains(links.last()) {
            lemma_newly_claimed_covers(claimed, links.drop_last(), x);
            let j = choose|j: int| 0 <= j < prev.len() && prev[j] == x;
            assert(cur[j] == x);
        } else {
            assert(cur[cur.len() - 1] == x);
        }
    } else {
        let i = choose|i: int| 0 <= i < links.len() && links[i] == x;
        assert(links.drop_last()[i] == x);
        lemma_newly_claimed_covers(claimed, links.drop_last(), x);
        let j = choose|j: int| 0 <= j < prev.len() && prev[j] == x;
        assert(cur[j] == x);
    }
}

/// Carries the handled-obligation invariant across one unit of work of
/// the driver: the popped location is handled, and every other claimed,
/// no-longer-pending location either was handled before or is back among
/// the pending entries.
proof fn lemma_crawl_step_handled(
    site: Seq<SitePage>,
    popped: Seq<char>,
    c_top: Set<Seq<char>>,
    r_top: Map<Seq<char>, Seq<char>>,
    p_top: Seq<Seq<char>>,
    c_bot: Set<Seq<char>>,
    r_bot: Map<Seq<char>, Seq<char>>,
    p_bot: Seq<Seq<char>>,
    enq: Seq<Seq<char>>,
)
    requires
        forall|k: Seq<char>|
            #[trigger] c_top.contains(k) && !p_top.contains(k) ==> page_handled(
                site,
                k,
                c_top,
                r_top,
            ),
        p_top.len() > 0,
        p_top.last() == popped,
        forall|i: int, j: int| 0 <= i < j < p_top.len() ==> p_top[i] != p_top[j],
        c_bot == c_top.union(set_of(enq)),
        p_bot == p_top.drop_last() + newly_claimed(c_top, enq),
        forall|k2: Seq<char>| #[trigger] r_top.contains_key(k2) ==> r_bot.contains_key(k2)
            && r_bot[k2] == r_top[k2],
        page_handled(site, popped, c_bot, r_bot),
    ensures
        forall|k: Seq<char>|
            #[trigger] c_bot.contains(k) && !p_bot.contains(k) ==> page_handled(
                site,
                k,
                c_bot,
                r_bot,
            ),
{
    let nn = newly_claimed(c_top, enq);
    assert forall|k: Seq<char>| c_bot.contains(k) && !p_bot.contains(k) implies page_handled(
        site,
        k,
        c_bot,
        r_bot,
    ) by {
        if k != popped {
            if c_top.contains(k) {
                if p_top.contains(k) {
                    let i = choose|i: int| 0 <= i < p_top.len() && p_top[i] == k;
                    assert(i < p_top.len() - 1);
                    assert(p_bot[i] == p_top.drop_last()[i]);
                    assert(p_bot.contains(k));
                } else {
                    assert(page_handled(site, k, c_top, r_top));
                    lemma_page_handled_mono(site, k, c_top, r_top, c_bot, r_bot);
                }
            } else {
                assert(set_of(enq).contains(k));
                assert(enq.contains(k));
                lemma_newly_claimed_covers(c_top, enq, k);
                let j = choose|j: int| 0 <= j < nn.len() && nn[j] == k;
                assert(p_bot[p_top.len() - 1 + j] == k);
                assert(p_bot.contains(k));
            }
        }
    }
}

/// One discovery step: `x` is an outbound link of the page served under
/// the claimed location `k`, where `k` is well formed and the page's
/// links fit the live-work counter.
pub open spec fn link_step(site: Seq<SitePage>, k: Seq<char>, x: Seq<char>) -> bool {
    match find_page(site, k) {
        Some(j) => parse_loc(k) is Some && counter_fits(site, site[j]) && site_links_of(
            site[j],
        ).contains(x),
        None => false,
    }
}

/// Everything discoverable from the seed in at most `n` steps: the least
/// set holding the seed and closed under [`link_step`], level by level.
pub open spec fn discovered(site: Seq<SitePage>, seed: Seq<char>, n: nat) -> Set<Seq<char>>
    decreases n,
{
    if n == 0 {
        Set::<Seq<char>>::empty().insert(seed)
    } else {
        discovered(site, seed, (n - 1) as nat).union(
            Set::new(
                |x: Seq<char>|
                    exists|k: Seq<char>|
                        #[trigger] discovered(site, seed, (n - 1) as nat).contains(k) && link_step(
                            site,
                            k,
                            x,
                        ),
            ),
        )
    }
}

/// Crawl coverage: a claimed set that holds the seed and meets the
/// per-location obligation of [`page_handled`] — as the one
/// [`crawl_site`] returns does — contains everything discoverable from
/// the seed, at every depth. With the claims granted at most once each,
/// every location the crawl can discover is claimed exactly once.
pub proof fn lemma_crawl_covers_discovered(
    site: Seq<SitePage>,
    seed: Seq<char>,
    claimed: Set<Seq<char>>,
    records: Map<Seq<char>, Seq<char>>,
    n: nat,
)
    requires
        claimed.contains(seed),
        forall|k: Seq<char>|
            #[trigger] claimed.contains(k) ==> page_handled(site, k, claimed, records),
    ensures
        forall|x: Seq<char>|
            #[trigger] discovered(site, seed, n).contains(x) ==> claimed.contains(x),
    decreases n,
{
    if n > 0 {
        lemma_crawl_covers_discovered(site, seed, claimed, records, (n - 1) as nat);
        let prev = discovered(site, seed, (n - 1) as nat);
        assert forall|x: Seq<char>| discovered(site, seed, n).contains(x) implies claimed.contains(
            x,
        ) by {
            if !prev.contains(x) {
                let k = choose|k: Seq<char>| #[trigger] prev.contains(k) && link_step(site, k, x);
                assert(claimed.contains(k));
                assert(page_handled(site, k, claimed, records));
            }
        }
    }
}

/// Crawls an in-memory site to quiescence, starting from one seed
/// location: the driver loop of the crawl, against a fetch that is a
/// lookup of the last site page under the popped location. The loop's
/// termination — the frontier closes after finitely many steps, however
/// the pages link to each other — is checked by the measure on unclaimed
/// universe locations and pending entries. On return: the seed is
/// claimed; everything claimed was the seed or discovered on some page;
/// every record stores a site page's body under that page's own location,
/// only for media types that are persisted; and every claimed location is
/// handled — its page's body recorded whenever the media type persists,
/// and, for pages whose links provably fit the live-work counter, every
/// outbound link claimed in turn. The last clause makes the claimed set
/// closed under discovery: a failed fetch, a malformed page or a
/// discarded body never stops the rest of the crawl.
pub fn crawl_site(site: &Vec<SitePage>, seed: &String) -> (store: DedupStore)
    ensures
        store.claimed_set().contains(seed@),
        forall|k: Seq<char>|
            #[trigger] store.claimed_set().contains(k) ==> k == seed@ || site_universe(
                site@,
            ).contains(k),
        forall|k: Seq<char>|
            #[trigger] store.records_map().contains_key(k) ==> exists|j: int|
                0 <= j < site@.len() && site@[j].location@ == k && classify_view(
                    site@[j].media_type@,
                ) != Classification::Discard && store.records_map()[k] == site@[j].body@,
        forall|k: Seq<char>|
            #[trigger] store.claimed_set().contains(k) ==> page_handled(
                site@,
                k,
                store.claimed_set(),
                store.records_map(),
            ),
{
    let ghost u = site_universe(site@);
    proof {
        lemma_site_universe_finite(site@);
    }
    let mut store = DedupStore::new();
    let mut frontier = Frontier::new();
    let granted = store.claim(seed.clone());
    proof {
        assert(granted);
    }
    if granted {
        frontier.push(seed.clone());
        proof {
            assert(frontier.pending_view()[0] == seed@);
            assert(frontier.pending_view().contains(seed@));
        }
    }
    while !frontier.is_closed()
        invariant
            u == site_universe(site@),
            u.finite(),
            frontier.live_view() == frontier.pending_view().len(),
            forall|i: int|
                0 <= i < frontier.pending_view().len() ==> store.claimed_set().contains(
                    #[trigger] frontier.pending_view()[i],
                ),
            forall|i: int, j: int|
                0 <= i < j < frontier.pending_view().len() ==> frontier.pending_view()[i]
                    != frontier.pending_view()[j],
            forall|i: int|
                0 <= i < frontier.pending_view().len() ==> !store.records_map().contains_key(
                    #[trigger] frontier.pending_view()[i],
                ),
            store.claimed_set().contains(seed@),
            forall|k: Seq<char>|
                #[trigger] store.claimed_set().contains(k) ==> k == seed@ || u.contains(k),
            forall|k: Seq<char>|
                #[trigger] store.records_map().contains_key(k) ==> store.claimed_set().contains(k),
            forall|k: Seq<char>|
                #[trigger] store.records_map().contains_key(k) ==> exists|j: int|
                    0 <= j < site@.len() && site@[j].location@ == k && classify_view(
                        site@[j].media_type@,
                    ) != Classification::Discard && store.records_map()[k] == site@[j].body@,
            forall|k: Seq<char>|
                #[trigger] store.claimed_set().contains(k) && !frontier.pending_view().contains(k)
                    ==> page_handled(site@, k, store.claimed_set(), store.records_map()),
        decreases 2 * u.difference(store.claimed_set()).len() + frontier.pending_view().len(),
    {
        let ghost m0 = 2 * u.difference(store.claimed_set()).len()
            + frontier.pending_view().len();
        let ghost c_top = store.claimed_set();
        let ghost r_top = store.records_map();
        let ghost p_top = frontier.pending_view();
        let next = frontier.pop();
        match next {
            None => {
                proof {
                    assert(false);
                }
            },
            Some(loc) => {
                let ghost popped = loc@;
                proof {
                    assert(!r_top.contains_key(popped)) by {
                        assert(p_top[p_top.len() - 1] == popped);
                    }
                }
                let mut found: Option<usize> = None;
                let mut j: usize = 0;
                while j < site.len()
                    invariant
                        j <= site@.len(),
                        match found {
                            Some(f) => f < j <= site@.len() && site@[f as int].location@ == popped
                                && (forall|m: int|
                                f < m < j ==> site@[m].location@ != popped),
                            None => forall|m: int| 0 <= m < j ==> site@[m].location@ != popped,
                        },
                        popped == loc@,
                    decreases site@.len() - j,
                {
                    if site[j].location.eq(&loc) {
                        found = Some(j);
                    }
                    j = j + 1;
                }
                proof {
                    lemma_find_page(site@, popped);
                    match found {
                        Some(f) => {
                            match find_page(site@, popped) {
                                Some(j2) => {
                                    if j2 > f as int {
                                        assert(site@[j2].location@ != popped);
                                    }
                                    if j2 < f as int {
                                        assert(site@[f as int].location@ != popped);
                                    }
                                },
                                None => {
                                    assert(site@[f as int].location@ != popped);
                                },
                            }
                            assert(find_page(site@, popped) == Some(f as int));
                        },
                        None => {
                            if find_page(site@, popped) is Some {
                                let j2 = find_page(site@, popped)->0;
                                assert(site@[j2].location@ != popped);
                            }
                            assert(find_page(site@, popped) is None);
                        },
                    }
                }
                match found {
                    None => {
                        proof {
                            assert(page_handled(site@, popped, store.claimed_set(), store.records_map()));
                            assert(store.claimed_set() =~= c_top.union(set_of(Seq::<Seq<char>>::empty())));
                            assert(frontier.pending_view() =~= p_top.drop_last() + newly_claimed(
                                c_top,
                                Seq::<Seq<char>>::empty(),
                            ));
                            lemma_crawl_step_handled(
                                site@,
                                popped,
                                c_top,
                                r_top,
                                p_top,
                                store.claimed_set(),
                                store.records_map(),
                                frontier.pending_view(),
                                Seq::<Seq<char>>::empty(),
                            );
                        }
                    },
                    Some(jdx) => {
                        match Location::parse(site[jdx].location.as_str()) {
                            Err(_) => {
                                proof {
                                    assert(parse_loc(popped) is None);
                                    assert(page_handled(site@, popped, store.claimed_set(), store.records_map()));
                                    assert(store.claimed_set() =~= c_top.union(set_of(Seq::<Seq<char>>::empty())));
                                    assert(frontier.pending_view() =~= p_top.drop_last() + newly_claimed(
                                        c_top,
                                        Seq::<Seq<char>>::empty(),
                                    ));
                                    lemma_crawl_step_handled(
                                        site@,
                                        popped,
                                        c_top,
                                        r_top,
                                        p_top,
                                        store.claimed_set(),
                                        store.records_map(),
                                        frontier.pending_view(),
                                        Seq::<Seq<char>>::empty(),
                                    );
                                }
                            },
                            Ok(base) => {
                                proof {
                                    assert(parse_loc(popped) == Some(base@));
                                }
                                let plan = plan_page(
                                    &base,
                                    site[jdx].media_type.as_str(),
                                    site[jdx].body.as_str(),
                                );
                                let ghost lv = plan.links@.map_values(|s: String| s@);
                                proof {
                                    assert(lv == site_links_of(site@[jdx as int]));
                                }
                                if plan.store_body {
                                    store.put(&loc, &site[jdx].body);
                                    proof {
                                        assert(store.records_map().contains_key(popped));
                                        assert(store.records_map()[popped] == site@[
                                            jdx as int
                                        ].body@);
                                    }
                                }
                                let ghost r_bot = store.records_map();
                                proof {
                                    assert forall|k2: Seq<char>| #[trigger]
                                        r_top.contains_key(k2) implies r_bot.contains_key(k2)
                                        && r_bot[k2] == r_top[k2] by {
                                        assert(k2 != popped);
                                    }
                                }
                                if plan.links.len() < usize::MAX - frontier.pending_len() {
                                    let ghost c1 = store.claimed_set();
                                    proof {
                                        lemma_site_universe_covers(site@, jdx as int);
                                        assert forall|x: Seq<char>| lv.contains(x) implies
                                            u.contains(x) by {
                                            assert(site_links_of(site@[jdx as int]).contains(x));
                                        }
                                        lemma_diff_after_union(u, c1, lv);
                                        lemma_newly_claimed_props(c1, lv);
                                    }
                                    enqueue_new(&mut store, &mut frontier, &plan.links);
                                    proof {
                                        assert forall|x: Seq<char>|
                                            set_of(lv).contains(x) implies u.contains(x) by {}
                                        assert(page_handled(site@, popped, store.claimed_set(), store.records_map())) by {
                                            assert forall|x: Seq<char>| #[trigger]
                                                site_links_of(site@[jdx as int]).contains(
                                                x,
                                            ) implies store.claimed_set().contains(x) by {
                                                assert(set_of(lv).contains(x));
                                            }
                                        }
                                        lemma_crawl_step_handled(
                                            site@,
                                            popped,
                                            c_top,
                                            r_top,
                                            p_top,
                                            store.claimed_set(),
                                            store.records_map(),
                                            frontier.pending_view(),
                                            lv,
                                        );
                                    }
                                } else {
                                    proof {
                                        // The guard tripped, so the pending entries and the
                                        // links together outrun the counter; distinct pending
                                        // entries are claimed, hence no more numerous than the
                                        // universe and the seed, so this page's links cannot
                                        // fit the counter bound.
                                        let pend = frontier.pending_view();
                                        assert(pend.no_duplicates());
                                        pend.unique_seq_to_set();
                                        assert forall|x: Seq<char>|
                                            pend.to_set().contains(x) implies u.insert(
                                            seed@,
                                        ).contains(x) by {
                                            let i = choose|i: int|
                                                0 <= i < pend.len() && pend[i] == x;
                                            assert(store.claimed_set().contains(pend[i]));
                                        }
                                        vstd::set_lib::lemma_len_subset(
                                            pend.to_set(),
                                            u.insert(seed@),
                                        );
                                        assert(u.insert(seed@).len() <= u.len() + 1);
                                        assert(pend.len() <= u.len() + 1);
                                        assert(!counter_fits(site@, site@[jdx as int])) by {
                                            if counter_fits(site@, site@[jdx as int]) {
                                                assert(lv.len() + u.len() + 2 <= usize::MAX);
                                                assert(lv.len() + pend.len() >= usize::MAX);
                                            }
                                        }
                                        assert(page_handled(site@, popped, store.claimed_set(), store.records_map()));
                                        assert(store.claimed_set() =~= c_top.union(set_of(Seq::<Seq<char>>::empty())));
                                        assert(frontier.pending_view() =~= p_top.drop_last()
                                            + newly_claimed(c_top, Seq::<Seq<char>>::empty()));
                                        lemma_crawl_step_handled(
                                            site@,
                                            popped,
                                            c_top,
                                            r_top,
                                            p_top,
                                            store.claimed_set(),
                                            store.records_map(),
                                            frontier.pending_view(),
                                            Seq::<Seq<char>>::empty(),
                                        );
                                    }
                                }
                            },
                        }
                    },
                }
                frontier.finish();
                proof {
                    assert(2 * u.difference(store.claimed_set()).len()
                        + frontier.pending_view().len() < m0);
                }
            },
        }
    }
    store
}

} // verus!
