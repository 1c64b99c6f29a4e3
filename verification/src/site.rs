//! A crawl run to completion over a known site.
//!
//! The same frontier controller that drives a network crawl, run against a
//! site given as data: a finite map from URL to the links on that page, a URL
//! that is not a page yielding no links — just as a failed fetch does. The
//! crawl loop here carries a termination measure: the visited set grows every
//! round and never outgrows the site's finite universe of URLs, so the crawl
//! ends, cycles and all.

use vstd::prelude::*;

use crate::crawl::{absorb_fold, lemma_absorb_fold_props, lemma_no_dup_concat,
    lemma_visited_bounded, off_domain_source, seed_text, CrawlState};
use crate::link::{copy_links, Link, LinkView};
use crate::store::ResultStore;
use crate::link_views;
use crate::strs;
use crate::texts;

verus! {

/// One page of a site: its URL and the links on it.
pub struct Page {
    pub url: String,
    pub links: Vec<Link>,
}

/// A site given as data: a list of pages, the earliest entry for a URL being
/// the page that a fetch of that URL yields.
pub struct Site {
    pub pages: Vec<Page>,
}

/// What fetching a URL against a site yields: the links of the first page
/// with that URL, or nothing when the site has no such page.
pub open spec fn lookup_pages(ps: Seq<Page>, u: Seq<char>) -> Seq<LinkView>
    decreases ps.len(),
{
    if ps.len() == 0 {
        Seq::empty()
    } else if ps.first().url@ == u {
        link_views(ps.first().links@)
    } else {
        lookup_pages(ps.drop_first(), u)
    }
}

/// Every URL a link of the site can carry, in page order.
pub open spec fn all_link_texts(ps: Seq<Page>) -> Seq<Seq<char>>
    decreases ps.len(),
{
    if ps.len() == 0 {
        Seq::empty()
    } else {
        texts(link_views(ps.first().links@)) + all_link_texts(ps.drop_first())
    }
}

/// The URLs a crawl of the site for a domain can ever meet: the seed and
/// every URL some link carries. A finite set.
pub open spec fn universe(site: Site, d: Seq<char>) -> Set<Seq<char>> {
    all_link_texts(site.pages@).to_set().insert(seed_text(d))
}

/// The URL is the text of some link of some page the crawl has fetched.
pub open spec fn discovered(ps: Seq<Page>, fetched: Seq<Seq<char>>, x: Seq<char>) -> bool {
    exists|k: int, j: int|
        0 <= k < fetched.len() && 0 <= j < lookup_pages(ps, fetched[k]).len() && (#[trigger]
        lookup_pages(ps, fetched[k])[j]).text == x
}

/// The URL was discovered as a link pointing off the target domain: on some
/// fetched page stands a link with this URL and another host.
pub open spec fn discovered_off_domain(
    ps: Seq<Page>,
    fetched: Seq<Seq<char>>,
    d: Seq<char>,
    x: Seq<char>,
) -> bool {
    exists|k: int, j: int|
        0 <= k < fetched.len() && 0 <= j < lookup_pages(ps, fetched[k]).len() && (#[trigger]
        lookup_pages(ps, fetched[k])[j]).text == x && lookup_pages(ps, fetched[k])[j].host != Some(
            d,
        )
}

/// The link itself stands on some page the crawl has fetched.
pub open spec fn link_from(ps: Seq<Page>, fetched: Seq<Seq<char>>, l: LinkView) -> bool {
    exists|k: int, j: int|
        0 <= k < fetched.len() && 0 <= j < lookup_pages(ps, fetched[k]).len() && (#[trigger]
        lookup_pages(ps, fetched[k])[j]) == l
}

/// Fetching from pages of which the first `n` hold no match reads the rest.
proof fn lemma_lookup_skip(ps: Seq<Page>, u: Seq<char>, n: int)
    requires
        0 <= n <= ps.len(),
        forall|k: int| 0 <= k < n ==> (#[trigger] ps[k]).url@ != u,
    ensures
        lookup_pages(ps, u) == lookup_pages(ps.skip(n), u),
    decreases n,
{
    if n > 0 {
        assert(ps.first().url@ != u);
        assert(ps.skip(1) =~= ps.drop_first());
        lemma_lookup_skip(ps.skip(1), u, n - 1);
        assert(ps.skip(1).skip(n - 1) =~= ps.skip(n));
    } else {
        assert(ps.skip(0) =~= ps);
    }
}

/// Every link of every page carries a URL of the site's link texts.
proof fn lemma_lookup_in_texts(ps: Seq<Page>, u: Seq<char>, j: int)
    requires
        0 <= j < lookup_pages(ps, u).len(),
    ensures
        all_link_texts(ps).contains(lookup_pages(ps, u)[j].text),
    decreases ps.len(),
{
    let a = texts(link_views(ps.first().links@));
    let b = all_link_texts(ps.drop_first());
    if ps.first().url@ == u {
        assert(a[j] == lookup_pages(ps, u)[j].text);
        assert((a + b)[j] == a[j]);
        assert(all_link_texts(ps).contains(lookup_pages(ps, u)[j].text));
    } else {
        lemma_lookup_in_texts(ps.drop_first(), u, j);
        let x = lookup_pages(ps, u)[j].text;
        let k = choose|k: int| 0 <= k < b.len() && b[k] == x;
        assert((a + b)[a.len() + k] == x);
        assert(all_link_texts(ps).contains(x));
    }
}

/// A link standing on a fetched page carries a URL of the crawl's universe.
proof fn lemma_from_in_universe(site: Site, d: Seq<char>, fetched: Seq<Seq<char>>, l: LinkView)
    requires
        link_from(site.pages@, fetched, l),
    ensures
        universe(site, d).contains(l.text),
{
    let (k, j) = choose|k: int, j: int|
        0 <= k < fetched.len() && 0 <= j < lookup_pages(site.pages@, fetched[k]).len() && (#[trigger]
        lookup_pages(site.pages@, fetched[k])[j]) == l;
    lemma_lookup_in_texts(site.pages@, fetched[k], j);
}

/// A page's links stay where they were when more pages are fetched.
proof fn lemma_from_concat(ps: Seq<Page>, a: Seq<Seq<char>>, b: Seq<Seq<char>>, l: LinkView)
    requires
        link_from(ps, a, l) || link_from(ps, b, l),
    ensures
        link_from(ps, a + b, l),
{
    if link_from(ps, a, l) {
        let (k, j) = choose|k: int, j: int|
            0 <= k < a.len() && 0 <= j < lookup_pages(ps, a[k]).len() && (#[trigger] lookup_pages(
                ps,
                a[k],
            )[j]) == l;
        assert((a + b)[k] == a[k]);
        assert(lookup_pages(ps, (a + b)[k])[j] == l);
    } else {
        let (k, j) = choose|k: int, j: int|
            0 <= k < b.len() && 0 <= j < lookup_pages(ps, b[k]).len() && (#[trigger] lookup_pages(
                ps,
                b[k],
            )[j]) == l;
        assert((a + b)[a.len() + k] == b[k]);
        assert(lookup_pages(ps, (a + b)[a.len() + k])[j] == l);
    }
}

/// A link standing on a fetched prefix stands on every extension of it.
proof fn lemma_from_prefix(ps: Seq<Page>, a: Seq<Seq<char>>, b: Seq<Seq<char>>, l: LinkView)
    requires
        link_from(ps, a, l),
        a.len() <= b.len(),
        b.take(a.len() as int) == a,
    ensures
        link_from(ps, b, l),
{
    let (k, j) = choose|k: int, j: int|
        0 <= k < a.len() && 0 <= j < lookup_pages(ps, a[k]).len() && (#[trigger] lookup_pages(
            ps,
            a[k],
        )[j]) == l;
    assert(b.take(a.len() as int)[k] == b[k]);
    assert(lookup_pages(ps, b[k])[j] == l);
}

/// So does a URL once discovered.
proof fn lemma_discovered_concat(ps: Seq<Page>, a: Seq<Seq<char>>, b: Seq<Seq<char>>, x: Seq<char>)
    requires
        discovered(ps, a, x) || discovered(ps, b, x),
    ensures
        discovered(ps, a + b, x),
{
    if discovered(ps, a, x) {
        let (k, j) = choose|k: int, j: int|
            0 <= k < a.len() && 0 <= j < lookup_pages(ps, a[k]).len() && (#[trigger] lookup_pages(
                ps,
                a[k],
            )[j]).text == x;
        assert((a + b)[k] == a[k]);
        assert(lookup_pages(ps, (a + b)[k])[j].text == x);
    } else {
        let (k, j) = choose|k: int, j: int|
            0 <= k < b.len() && 0 <= j < lookup_pages(ps, b[k]).len() && (#[trigger] lookup_pages(
                ps,
                b[k],
            )[j]).text == x;
        assert((a + b)[a.len() + k] == b[k]);
        assert(lookup_pages(ps, (a + b)[a.len() + k])[j].text == x);
    }
}

/// A URL discovered off-domain keeps that standing when more pages are
/// fetched.
proof fn lemma_off_domain_concat(
    ps: Seq<Page>,
    a: Seq<Seq<char>>,
    b: Seq<Seq<char>>,
    d: Seq<char>,
    x: Seq<char>,
)
    requires
        discovered_off_domain(ps, a, d, x) || discovered_off_domain(ps, b, d, x),
    ensures
        discovered_off_domain(ps, a + b, d, x),
{
    if discovered_off_domain(ps, a, d, x) {
        let (k, j) = choose|k: int, j: int|
            0 <= k < a.len() && 0 <= j < lookup_pages(ps, a[k]).len() && (#[trigger] lookup_pages(
                ps,
                a[k],
            )[j]).text == x && lookup_pages(ps, a[k])[j].host != Some(d);
        assert((a + b)[k] == a[k]);
        assert(lookup_pages(ps, (a + b)[k])[j].text == x);
        assert(lookup_pages(ps, (a + b)[k])[j].host != Some(d));
    } else {
        let (k, j) = choose|k: int, j: int|
            0 <= k < b.len() && 0 <= j < lookup_pages(ps, b[k]).len() && (#[trigger] lookup_pages(
                ps,
                b[k],
            )[j]).text == x && lookup_pages(ps, b[k])[j].host != Some(d);
        assert((a + b)[a.len() + k] == b[k]);
        assert(lookup_pages(ps, (a + b)[a.len() + k])[j].text == x);
        assert(lookup_pages(ps, (a + b)[a.len() + k])[j].host != Some(d));
    }
}

/// Fetch one URL against the site: the links of its first matching page, or
/// none — the crawl treats an absent page as a page without links.
pub fn fetch_links(site: &Site, u: &String) -> (r: Vec<Link>)
    ensures
        link_views(r@) == lookup_pages(site.pages@, u@),
{
    let n = site.pages.len();
    let mut i: usize = 0;
    while i < n
        invariant
            i <= n,
            n == site.pages@.len(),
            forall|k: int| 0 <= k < i ==> (#[trigger] site.pages@[k]).url@ != u@,
        decreases n - i,
    {
        if site.pages[i].url == *u {
            let r = copy_links(&site.pages[i].links);
            proof {
                lemma_lookup_skip(site.pages@, u@, i as int);
                assert(site.pages@.skip(i as int).first() == site.pages@[i as int]);
                assert(lookup_pages(site.pages@, u@) == link_views(site.pages@[i as int].links@));
            }
            return r;
        }
        i = i + 1;
    }
    proof {
        lemma_lookup_skip(site.pages@, u@, n as int);
        assert(site.pages@.skip(n as int).len() == 0);
    }
    Vec::new()
}

/// A shorter sequence that an extension agrees with is held, element and
/// member alike, by the extension.
proof fn lemma_prefix_contains(a: Seq<Seq<char>>, b: Seq<Seq<char>>)
    requires
        a.len() <= b.len(),
        b.take(a.len() as int) == a,
    ensures
        forall|k: int| 0 <= k < a.len() ==> b[k] == #[trigger] a[k],
        forall|x: Seq<char>| #[trigger] a.contains(x) ==> b.contains(x),
{
    assert forall|k: int| 0 <= k < a.len() implies b[k] == #[trigger] a[k] by {
        assert(b.take(a.len() as int)[k] == b[k]);
    }
    assert forall|x: Seq<char>| #[trigger] a.contains(x) implies b.contains(x) by {
        let k = choose|k: int| 0 <= k < a.len() && a[k] == x;
        assert(b[k] == x);
    }
}

/// Whatever either part holds, their concatenation holds.
proof fn lemma_concat_contains(a: Seq<Seq<char>>, b: Seq<Seq<char>>)
    ensures
        forall|x: Seq<char>| #[trigger] a.contains(x) ==> (a + b).contains(x),
        forall|x: Seq<char>| #[trigger] b.contains(x) ==> (a + b).contains(x),
{
    assert forall|x: Seq<char>| #[trigger] a.contains(x) implies (a + b).contains(x) by {
        let k = choose|k: int| 0 <= k < a.len() && a[k] == x;
        assert((a + b)[k] == x);
    }
    assert forall|x: Seq<char>| #[trigger] b.contains(x) implies (a + b).contains(x) by {
        let k = choose|k: int| 0 <= k < b.len() && b[k] == x;
        assert((a + b)[a.len() + k] == x);
    }
}

/// The crawl state a spec-level round reaches: what is visited, what is
/// queued, and what has been fetched.
#[verifier::ext_equal]
pub struct CrawlTrace {
    pub vis: Seq<Seq<char>>,
    pub fr: Seq<LinkView>,
    pub fetched: Seq<LinkView>,
}

/// The links one round's batch yields, page by page in batch order.
pub open spec fn round_links(ps: Seq<Page>, batch: Seq<LinkView>) -> Seq<LinkView>
    decreases batch.len(),
{
    if batch.len() == 0 {
        Seq::empty()
    } else {
        round_links(ps, batch.drop_last()) + lookup_pages(ps, batch.last().text)
    }
}

/// One round of the crawl, as a function on the trace: the whole frontier is
/// fetched, and its pages' links are absorbed.
pub open spec fn crawl_round(ps: Seq<Page>, d: Seq<char>, t: CrawlTrace) -> CrawlTrace {
    let folded = absorb_fold(t.vis + texts(t.fr), Seq::empty(), d, round_links(ps, t.fr));
    CrawlTrace { vis: folded.0, fr: folded.1, fetched: t.fetched + t.fr }
}

/// The trace after `n` rounds from the seeded state: the crawl is a function
/// of the site and the domain alone.
pub open spec fn crawl_trace(ps: Seq<Page>, d: Seq<char>, n: nat) -> CrawlTrace
    decreases n,
{
    if n == 0 {
        CrawlTrace {
            vis: Seq::empty(),
            fr: seq![LinkView { text: seed_text(d), host: Some(d) }],
            fetched: Seq::empty(),
        }
    } else {
        crawl_round(ps, d, crawl_trace(ps, d, (n - 1) as nat))
    }
}

/// Once the frontier is empty the trace never moves again: a round over an
/// empty frontier fetches nothing and changes nothing.
pub proof fn lemma_trace_stable(ps: Seq<Page>, d: Seq<char>, n: nat, m: nat)
    requires
        crawl_trace(ps, d, n).fr.len() == 0,
        n <= m,
    ensures
        crawl_trace(ps, d, m) == crawl_trace(ps, d, n),
    decreases m,
{
    if m > n {
        lemma_trace_stable(ps, d, n, (m - 1) as nat);
        let t = crawl_trace(ps, d, (m - 1) as nat);
        assert(t.vis + texts(t.fr) =~= t.vis);
        assert(round_links(ps, t.fr) == Seq::<LinkView>::empty());
        assert(crawl_round(ps, d, t).fr =~= t.fr);
        assert(crawl_round(ps, d, t).fetched =~= t.fetched);
        assert(crawl_trace(ps, d, m) =~= t);
    }
}

/// Two crawls of an unchanged site for the same domain end the same: any
/// two completed traces are equal, visited list and fetch history alike.
pub proof fn lemma_crawl_deterministic(ps: Seq<Page>, d: Seq<char>, n1: nat, n2: nat)
    requires
        crawl_trace(ps, d, n1).fr.len() == 0,
        crawl_trace(ps, d, n2).fr.len() == 0,
    ensures
        crawl_trace(ps, d, n1) == crawl_trace(ps, d, n2),
{
    if n1 <= n2 {
        lemma_trace_stable(ps, d, n1, n2);
    } else {
        lemma_trace_stable(ps, d, n2, n1);
    }
}

/// Unfolding one spec-level round.
proof fn lemma_trace_step(ps: Seq<Page>, d: Seq<char>, n: nat)
    requires
        n >= 1,
    ensures
        crawl_trace(ps, d, n) == crawl_round(ps, d, crawl_trace(ps, d, (n - 1) as nat)),
{
}

/// What one spec-level round does, spelled out against the fold.
proof fn lemma_round_result(
    ps: Seq<Page>,
    d: Seq<char>,
    t: CrawlTrace,
    vmid: Seq<Seq<char>>,
    ls: Seq<LinkView>,
)
    requires
        vmid == t.vis + texts(t.fr),
        ls == round_links(ps, t.fr),
    ensures
        crawl_round(ps, d, t).vis == absorb_fold(vmid, Seq::<LinkView>::empty(), d, ls).0,
        crawl_round(ps, d, t).fr == absorb_fold(vmid, Seq::<LinkView>::empty(), d, ls).1,
        crawl_round(ps, d, t).fetched == t.fetched + t.fr,
{
}

/// The visited list and fetch history of a completed breadth-first crawl of
/// the site for the domain:
/// the result never repeats a URL; the fetch history never repeats a URL,
/// starts with the domain's root, carries the target domain as every
/// fetch's host, and every later fetch is a link on a page fetched earlier;
/// every fetched URL is in the result; every link on a fetched page has its
/// URL in the result; everything in the result is the root or a link on a
/// fetched page; and whatever is in the result without having been fetched
/// was discovered only as a link pointing off the target domain.
pub open spec fn completed_crawl(
    ps: Seq<Page>,
    d: Seq<char>,
    vis: Seq<Seq<char>>,
    fetched: Seq<LinkView>,
) -> bool {
    &&& vis.no_duplicates()
    &&& texts(fetched).no_duplicates()
    &&& fetched.len() >= 1
    &&& fetched[0].text == seed_text(d)
    &&& (forall|k: int| 0 <= k < fetched.len() ==> (#[trigger] fetched[k]).host == Some(d))
    &&& (forall|k: int|
        1 <= k < fetched.len() ==> link_from(ps, texts(fetched).take(k), #[trigger] fetched[k]))
    &&& (forall|k: int| 0 <= k < fetched.len() ==> vis.contains((#[trigger] fetched[k]).text))
    &&& (forall|k: int, j: int|
        0 <= k < fetched.len() && 0 <= j < lookup_pages(ps, fetched[k].text).len() ==> vis.contains(
            (#[trigger] lookup_pages(ps, fetched[k].text)[j]).text,
        ))
    &&& (forall|k: int|
        0 <= k < vis.len() ==> vis[k] == seed_text(d) || discovered(
            ps,
            texts(fetched),
            #[trigger] vis[k],
        ))
    &&& (forall|k: int|
        0 <= k < vis.len() ==> texts(fetched).contains(#[trigger] vis[k])
            || discovered_off_domain(ps, texts(fetched), d, vis[k]))
}

/// What one crawl reports: the visited set — the crawl's result — and the
/// links that were actually fetched, in fetch order.
pub struct CrawlReport {
    pub visited: Vec<String>,
    pub fetched: Vec<Link>,
}

/// Crawl a domain against a site given as data, to completion.
///
/// The result never repeats a URL; the first fetch is the domain's root and
/// every fetch carries the target domain as its host; every fetched URL is in
/// the result; every link on a fetched page has its URL in the result; the
/// result holds nothing else than the root and such links; and whatever the
/// result holds without having been fetched was discovered only as a link
/// pointing off the target domain. The report is moreover exactly the
/// spec-level round trace run until the frontier empties, so the crawl's
/// outcome is a function of the site and the domain alone. The loop's
/// `decreases` measure proves that the crawl ends on every finite site,
/// however its pages link to one another.
pub fn crawl_site(domain: &str, site: &Site) -> (r: CrawlReport)
    ensures
        completed_crawl(site.pages@, domain@, strs(r.visited@), link_views(r.fetched@)),
        exists|n: nat|
            (#[trigger] crawl_trace(site.pages@, domain@, n)).fr.len() == 0 && strs(r.visited@)
                == crawl_trace(site.pages@, domain@, n).vis && link_views(r.fetched@)
                == crawl_trace(site.pages@, domain@, n).fetched,
{
    let ghost d = domain@;
    let ghost ps = site.pages@;
    let ghost u = universe(*site, d);
    proof {
        vstd::seq_lib::seq_to_set_is_finite(all_link_texts(ps));
    }
    let mut st = CrawlState::seed(domain);
    let mut fetched: Vec<Link> = Vec::new();
    let ghost mut rounds: nat = 0;
    proof {
        assert(st.fr() =~= seq![LinkView { text: seed_text(d), host: Some(d) }]);
        assert(link_views(fetched@) =~= Seq::<LinkView>::empty());
    }
    while st.has_frontier()
        invariant
            st.wf(),
            st.dom() == d,
            d == domain@,
            ps == site.pages@,
            u == universe(*site, d),
            u.finite(),
            st.vis() == crawl_trace(ps, d, rounds).vis,
            st.fr() == crawl_trace(ps, d, rounds).fr,
            link_views(fetched@) == crawl_trace(ps, d, rounds).fetched,
            forall|k: int| 0 <= k < st.vis().len() ==> u.contains(#[trigger] st.vis()[k]),
            forall|k: int| 0 <= k < st.fr().len() ==> u.contains((#[trigger] st.fr()[k]).text),
            texts(link_views(fetched@)).no_duplicates(),
            forall|k: int|
                0 <= k < fetched@.len() ==> (#[trigger] link_views(fetched@)[k]).host == Some(d),
            forall|k: int|
                1 <= k < fetched@.len() ==> link_from(
                    ps,
                    texts(link_views(fetched@)).take(k),
                    #[trigger] link_views(fetched@)[k],
                ),
            forall|k: int|
                0 <= k < fetched@.len() ==> st.vis().contains(
                    (#[trigger] link_views(fetched@)[k]).text,
                ),
            fetched@.len() == 0 ==> st.vis().len() == 0 && st.fr().len() == 1 && st.fr()[0].text
                == seed_text(d),
            fetched@.len() > 0 ==> link_views(fetched@)[0].text == seed_text(d),
            forall|k: int|
                0 <= k < st.fr().len() ==> (#[trigger] st.fr()[k]).text == seed_text(d)
                    || link_from(ps, texts(link_views(fetched@)), st.fr()[k]),
            forall|k: int, j: int|
                0 <= k < fetched@.len() && 0 <= j < lookup_pages(
                    ps,
                    link_views(fetched@)[k].text,
                ).len() ==> st.vis().contains(
                    (#[trigger] lookup_pages(ps, link_views(fetched@)[k].text)[j]).text,
                ) || texts(st.fr()).contains(
                    lookup_pages(ps, link_views(fetched@)[k].text)[j].text,
                ),
            forall|k: int|
                0 <= k < st.vis().len() ==> #[trigger] st.vis()[k] == seed_text(d) || discovered(
                    ps,
                    texts(link_views(fetched@)),
                    st.vis()[k],
                ),
            forall|k: int|
                0 <= k < st.vis().len() ==> texts(link_views(fetched@)).contains(
                    #[trigger] st.vis()[k],
                ) || discovered_off_domain(ps, texts(link_views(fetched@)), d, st.vis()[k]),
        decreases u.len() - st.vis().len(),
    {
        let ghost pre = st;
        let ghost f0 = link_views(fetched@);
        let ghost ft0 = texts(f0);
        let mut batch = st.begin_round();
        let ghost mid = st;
        let ghost bviews = link_views(batch@);
        let ghost bt = texts(bviews);
        proof {
            assert(bviews == pre.fr());
            assert(mid.vis() == pre.vis() + bt);
        }
        // Fetch every URL of the round's batch and pool the links found.
        let mut round: Vec<Link> = Vec::new();
        let bn = batch.len();
        let mut bi: usize = 0;
        proof {
            assert(bviews.take(0) =~= Seq::<LinkView>::empty());
            assert(link_views(round@) =~= Seq::<LinkView>::empty());
        }
        while bi < bn
            invariant
                bi <= bn,
                bn == batch@.len(),
                ps == site.pages@,
                bviews == link_views(batch@),
                bt == texts(bviews),
                link_views(round@) == round_links(ps, bviews.take(bi as int)),
                forall|m: int|
                    0 <= m < link_views(round@).len() ==> link_from(
                        ps,
                        bt.take(bi as int),
                        #[trigger] link_views(round@)[m],
                    ),
                forall|k: int, j: int|
                    0 <= k < bi && 0 <= j < lookup_pages(ps, bt[k]).len() ==> link_views(
                        round@,
                    ).contains(#[trigger] lookup_pages(ps, bt[k])[j]),
            decreases bn - bi,
        {
            let mut part = fetch_links(site, &batch[bi].text);
            let ghost pv = link_views(part@);
            let ghost rv = link_views(round@);
            round.append(&mut part);
            proof {
                assert(pv == lookup_pages(ps, bt[bi as int]));
                assert(link_views(round@) =~= rv + pv);
                assert(bviews.take(bi + 1).drop_last() =~= bviews.take(bi as int));
                assert(bviews.take(bi + 1).last() == bviews[bi as int]);
                assert(bt[bi as int] == bviews[bi as int].text);
                assert(bt.take(bi + 1).take(bi as int) =~= bt.take(bi as int));
                assert forall|m: int| 0 <= m < link_views(round@).len() implies link_from(
                    ps,
                    bt.take(bi + 1),
                    #[trigger] link_views(round@)[m],
                ) by {
                    let l = link_views(round@)[m];
                    if m < rv.len() {
                        assert(l == rv[m]);
                        let (k, j) = choose|k: int, j: int|
                            0 <= k < bt.take(bi as int).len() && 0 <= j < lookup_pages(
                                ps,
                                bt.take(bi as int)[k],
                            ).len() && (#[trigger] lookup_pages(ps, bt.take(bi as int)[k])[j]) == l;
                        assert(bt.take(bi + 1)[k] == bt.take(bi as int)[k]);
                        assert(lookup_pages(ps, bt.take(bi + 1)[k])[j] == l);
                    } else {
                        assert(l == pv[m - rv.len()]);
                        assert(bt.take(bi + 1)[bi as int] == bt[bi as int]);
                        assert(lookup_pages(ps, bt.take(bi + 1)[bi as int])[m - rv.len()] == l);
                    }
                }
                assert forall|k: int, j: int|
                    0 <= k < bi + 1 && 0 <= j < lookup_pages(ps, bt[k]).len() implies link_views(
                    round@,
                ).contains(#[trigger] lookup_pages(ps, bt[k])[j]) by {
                    if k < bi {
                        assert(rv.contains(lookup_pages(ps, bt[k])[j]));
                        let m = choose|m: int| 0 <= m < rv.len() && rv[m] == lookup_pages(
                            ps,
                            bt[k],
                        )[j];
                        assert(link_views(round@)[m] == lookup_pages(ps, bt[k])[j]);
                    } else {
                        assert(link_views(round@)[rv.len() + j] == lookup_pages(ps, bt[k])[j]);
                    }
                }
            }
            bi = bi + 1;
        }
        let ghost ls = link_views(round@);
        proof {
            assert(bt.take(bn as int) =~= bt);
            assert(bviews.take(bn as int) =~= bviews);
            assert(ls == round_links(ps, bviews));
        }
        // The round's batch is now part of the fetch history.
        fetched.append(&mut batch);
        proof {
            assert(link_views(fetched@) =~= f0 + bviews);
            assert(texts(f0 + bviews) =~= ft0 + bt);
        }
        let ghost newft = texts(link_views(fetched@));
        st.absorb(&round);
        proof {
            let vmid = mid.vis();
            let emptyf = Seq::<LinkView>::empty();
            lemma_absorb_fold_props(vmid, emptyf, d, ls);
            assert(st.vis() == absorb_fold(vmid, emptyf, d, ls).0);
            assert(st.fr() == absorb_fold(vmid, emptyf, d, ls).1);
            lemma_prefix_contains(vmid, st.vis());
            lemma_concat_contains(pre.vis(), bt);
            lemma_concat_contains(ft0, bt);

            // Everything newly visited or newly queued is a link of the round,
            // and so stands on a page fetched this round.
            assert forall|k: int| 0 <= k < st.vis().len() implies u.contains(
                #[trigger] st.vis()[k],
            ) by {
                if k < vmid.len() {
                    assert(st.vis()[k] == vmid[k]);
                    if k < pre.vis().len() {
                        assert(vmid[k] == pre.vis()[k]);
                    } else {
                        assert(vmid[k] == bt[k - pre.vis().len()]);
                        assert(bviews[k - pre.vis().len()].text == bt[k - pre.vis().len()]);
                    }
                } else {
                    assert(texts(ls).contains(st.vis()[k]));
                    let m = choose|m: int| 0 <= m < texts(ls).len() && texts(ls)[m] == st.vis()[k];
                    assert(ls[m].text == st.vis()[k]);
                    assert(link_from(ps, bt, ls[m]));
                    lemma_from_in_universe(*site, d, bt, ls[m]);
                }
            }
            assert forall|k: int| 0 <= k < st.fr().len() implies u.contains(
                (#[trigger] st.fr()[k]).text,
            ) by {
                assert(ls.contains(st.fr()[k]));
                let m = choose|m: int| 0 <= m < ls.len() && ls[m] == st.fr()[k];
                assert(link_from(ps, bt, ls[m]));
                lemma_from_in_universe(*site, d, bt, ls[m]);
            }

            // The fetch history stays duplicate-free: a round's batch was
            // queued, hence disjoint from everything already fetched.
            assert forall|i: int| 0 <= i < bt.len() implies !ft0.contains(#[trigger] bt[i]) by {
                if ft0.contains(bt[i]) {
                    let k = choose|k: int| 0 <= k < ft0.len() && ft0[k] == bt[i];
                    assert(f0[k].text == ft0[k]);
                    assert(pre.vis().contains(f0[k].text));
                    assert(!pre.vis().contains(pre.fr()[i].text));
                }
            }
            lemma_no_dup_concat(ft0, bt);
            assert(newft.no_duplicates());

            // Every later fetch is a link on a page fetched before it: old
            // entries keep their witness, and a batch entry was queued off a
            // page of the earlier fetch history.
            assert forall|k: int| 1 <= k < fetched@.len() implies link_from(
                ps,
                newft.take(k),
                #[trigger] link_views(fetched@)[k],
            ) by {
                if k < f0.len() {
                    assert(link_views(fetched@)[k] == f0[k]);
                    assert(link_from(ps, ft0.take(k), f0[k]));
                    assert(newft.take(k) =~= ft0.take(k));
                } else {
                    let i2 = k - f0.len();
                    assert(link_views(fetched@)[k] == bviews[i2]);
                    assert(bviews[i2] == pre.fr()[i2]);
                    if pre.fr()[i2].text == seed_text(d) {
                        if f0.len() == 0 {
                            assert(pre.fr().len() == 1);
                        } else {
                            assert(newft[0] == ft0[0]);
                            assert(newft[k] == bt[i2]);
                            assert(bt[i2] == pre.fr()[i2].text);
                            assert(newft[0] == newft[k]);
                            assert(false);
                        }
                    } else {
                        assert(link_from(ps, ft0, pre.fr()[i2]));
                        assert(newft.take(k).take(ft0.len() as int) =~= ft0);
                        lemma_from_prefix(ps, ft0, newft.take(k), pre.fr()[i2]);
                    }
                }
            }

            // Every fetched link, old and new, is among the visited.
            assert forall|k: int| 0 <= k < fetched@.len() implies st.vis().contains(
                (#[trigger] link_views(fetched@)[k]).text,
            ) by {
                if k < f0.len() {
                    assert(link_views(fetched@)[k] == f0[k]);
                    assert(pre.vis().contains(f0[k].text));
                } else {
                    assert(link_views(fetched@)[k] == bviews[k - f0.len()]);
                    assert(vmid[pre.vis().len() + (k - f0.len())] == bt[k - f0.len()]);
                    assert(vmid.contains(bt[k - f0.len()]));
                }
            }

            // Every queued link stands on a fetched page.
            assert forall|k: int| 0 <= k < st.fr().len() implies (#[trigger] st.fr()[k]).text
                == seed_text(d) || link_from(ps, newft, st.fr()[k]) by {
                assert(ls.contains(st.fr()[k]));
                let m = choose|m: int| 0 <= m < ls.len() && ls[m] == st.fr()[k];
                assert(link_from(ps, bt, ls[m]));
                lemma_from_concat(ps, ft0, bt, ls[m]);
                assert(newft == ft0 + bt);
            }

            // Every link on a fetched page is recorded or queued.
            assert forall|k: int, j: int|
                0 <= k < fetched@.len() && 0 <= j < lookup_pages(
                    ps,
                    link_views(fetched@)[k].text,
                ).len() implies st.vis().contains(
                (#[trigger] lookup_pages(ps, link_views(fetched@)[k].text)[j]).text,
            ) || texts(st.fr()).contains(
                lookup_pages(ps, link_views(fetched@)[k].text)[j].text,
            ) by {
                if k < f0.len() {
                    assert(link_views(fetched@)[k] == f0[k]);
                    let x = lookup_pages(ps, f0[k].text)[j].text;
                    assert(pre.vis().contains(x) || texts(pre.fr()).contains(x));
                    if pre.vis().contains(x) {
                        assert(vmid.contains(x));
                    } else {
                        let i2 = choose|i2: int|
                            0 <= i2 < texts(pre.fr()).len() && texts(pre.fr())[i2] == x;
                        assert(vmid[pre.vis().len() + i2] == x);
                        assert(vmid.contains(x));
                    }
                    assert(st.vis().contains(x));
                } else {
                    assert(link_views(fetched@)[k] == bviews[k - f0.len()]);
                    assert(link_views(fetched@)[k].text == bt[k - f0.len()]);
                    assert(ls.contains(lookup_pages(ps, bt[k - f0.len()])[j]));
                    let m = choose|m: int|
                        0 <= m < ls.len() && ls[m] == lookup_pages(ps, bt[k - f0.len()])[j];
                    assert(st.vis().contains(ls[m].text) || texts(st.fr()).contains(ls[m].text));
                }
            }

            // Everything visited is the root or was discovered on a fetched
            // page.
            assert forall|k: int| 0 <= k < st.vis().len() implies #[trigger] st.vis()[k]
                == seed_text(d) || discovered(ps, newft, st.vis()[k]) by {
                let x = st.vis()[k];
                if k < vmid.len() {
                    assert(x == vmid[k]);
                    if k < pre.vis().len() {
                        assert(x == pre.vis()[k]);
                        if x != seed_text(d) {
                            assert(discovered(ps, ft0, x));
                            lemma_discovered_concat(ps, ft0, bt, x);
                        }
                    } else {
                        let i2 = k - pre.vis().len();
                        assert(x == bt[i2]);
                        assert(pre.fr()[i2].text == x);
                        if x != seed_text(d) {
                            assert(link_from(ps, ft0, pre.fr()[i2]));
                            let (k2, j2) = choose|k2: int, j2: int|
                                0 <= k2 < ft0.len() && 0 <= j2 < lookup_pages(ps, ft0[k2]).len()
                                    && (#[trigger] lookup_pages(ps, ft0[k2])[j2]) == pre.fr()[i2];
                            assert(lookup_pages(ps, ft0[k2])[j2].text == x);
                            assert(discovered(ps, ft0, x));
                            lemma_discovered_concat(ps, ft0, bt, x);
                        }
                    }
                } else {
                    assert(texts(ls).contains(x));
                    let m = choose|m: int| 0 <= m < texts(ls).len() && texts(ls)[m] == x;
                    assert(ls[m].text == x);
                    assert(link_from(ps, bt, ls[m]));
                    let (k2, j2) = choose|k2: int, j2: int|
                        0 <= k2 < bt.len() && 0 <= j2 < lookup_pages(ps, bt[k2]).len() && (#[trigger]
                        lookup_pages(ps, bt[k2])[j2]) == ls[m];
                    assert(lookup_pages(ps, bt[k2])[j2].text == x);
                    assert(discovered(ps, bt, x));
                    lemma_discovered_concat(ps, ft0, bt, x);
                }
                assert(newft == ft0 + bt);
            }

            // Whatever is visited and was never fetched was discovered only
            // as a link pointing off the target domain.
            assert forall|k: int| 0 <= k < st.vis().len() implies newft.contains(
                #[trigger] st.vis()[k],
            ) || discovered_off_domain(ps, newft, d, st.vis()[k]) by {
                let x = st.vis()[k];
                if k < vmid.len() {
                    assert(x == vmid[k]);
                    if k < pre.vis().len() {
                        assert(x == pre.vis()[k]);
                        if ft0.contains(x) {
                            assert(newft.contains(x));
                        } else {
                            assert(discovered_off_domain(ps, ft0, d, x));
                            lemma_off_domain_concat(ps, ft0, bt, d, x);
                        }
                    } else {
                        let i2 = k - pre.vis().len();
                        assert(x == bt[i2]);
                        assert(newft == ft0 + bt);
                        assert(newft[ft0.len() + i2] == x);
                        assert(newft.contains(x));
                    }
                } else {
                    assert(off_domain_source(ls, d, x));
                    let m = choose|m: int|
                        0 <= m < ls.len() && (#[trigger] ls[m]).text == x && ls[m].host != Some(d);
                    assert(link_from(ps, bt, ls[m]));
                    let (k2, j2) = choose|k2: int, j2: int|
                        0 <= k2 < bt.len() && 0 <= j2 < lookup_pages(ps, bt[k2]).len() && (#[trigger]
                        lookup_pages(ps, bt[k2])[j2]) == ls[m];
                    assert(lookup_pages(ps, bt[k2])[j2].text == x);
                    assert(lookup_pages(ps, bt[k2])[j2].host != Some(d));
                    assert(discovered_off_domain(ps, bt, d, x));
                    lemma_off_domain_concat(ps, ft0, bt, d, x);
                    assert(newft == ft0 + bt);
                }
            }

            // The round fetched at least one URL, so the visited set strictly
            // grew, and it stays within the universe.
            assert(vmid.len() > pre.vis().len());
            assert(st.vis().len() >= vmid.len());
            lemma_visited_bounded(st, u);

            // One more spec-level round has run, and the state matches it.
            rounds = rounds + 1;
            let t = crawl_trace(ps, d, (rounds - 1) as nat);
            lemma_trace_step(ps, d, rounds);
            assert(pre.vis() == t.vis && pre.fr() == t.fr && f0 == t.fetched);
            lemma_round_result(ps, d, t, vmid, ls);
            assert(st.vis() == crawl_trace(ps, d, rounds).vis);
            assert(st.fr() == crawl_trace(ps, d, rounds).fr);
            assert(link_views(fetched@) == crawl_trace(ps, d, rounds).fetched);
        }
    }
    let report = CrawlReport { visited: st.finish(), fetched };
    proof {
        let fv = link_views(report.fetched@);
        let vs = strs(report.visited@);
        assert(texts(st.fr()).len() == 0);
        assert forall|k: int, j: int|
            0 <= k < fv.len() && 0 <= j < lookup_pages(ps, fv[k].text).len() implies vs.contains(
            (#[trigger] lookup_pages(ps, fv[k].text)[j]).text,
        ) by {
            assert(!texts(st.fr()).contains(lookup_pages(ps, fv[k].text)[j].text));
        }
        assert(completed_crawl(ps, d, vs, fv));
        assert(crawl_trace(site.pages@, domain@, rounds).fr.len() == 0);
        assert(vs == crawl_trace(site.pages@, domain@, rounds).vis);
        assert(fv == crawl_trace(site.pages@, domain@, rounds).fetched);
    }
    report
}

/// Crawl a domain against a site and record the outcome: the store ends with
/// the crawl's result — the visited list of a completed breadth-first crawl
/// of the site for the domain, duplicate-free — under the domain's key,
/// every other domain's entry untouched; the report of the crawl is handed
/// back.
pub fn crawl_and_store(domain: &String, site: &Site, store: &mut ResultStore) -> (r: CrawlReport)
    ensures
        final (store)@ == old(store)@.insert(domain@, strs(r.visited@)),
        completed_crawl(site.pages@, domain@, strs(r.visited@), link_views(r.fetched@)),
        exists|n: nat|
            (#[trigger] crawl_trace(site.pages@, domain@, n)).fr.len() == 0 && strs(r.visited@)
                == crawl_trace(site.pages@, domain@, n).vis && link_views(r.fetched@)
                == crawl_trace(site.pages@, domain@, n).fetched,
{
    let report = crawl_site(domain.as_str(), site);
    let result = copy_urls(&report.visited);
    store.insert(domain.clone(), result);
    report
}

/// An owned copy of a vector of URL strings, equal to it element for
/// element.
fn copy_urls(v: &Vec<String>) -> (r: Vec<String>)
    ensures
        r@ == v@,
{
    let mut out: Vec<String> = Vec::new();
    let n = v.len();
    let mut i: usize = 0;
    while i < n
        invariant
            i <= n,
            n == v@.len(),
            out@ == v@.take(i as int),
        decreases n - i,
    {
        out.push(v[i].clone());
        proof {
            assert(v@.take(i + 1) =~= v@.take(i as int).push(v@[i as int]));
        }
        i = i + 1;
    }
    proof {
        assert(v@.take(n as int) =~= v@);
    }
    out
}

} // verus!
