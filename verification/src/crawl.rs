//! The frontier controller: the breadth-first state of one crawl.
//!
//! A crawl of a domain starts seeded with the domain's root URL and proceeds
//! in rounds. A round moves the whole frontier into the visited set and hands
//! it out to be fetched; the links the round discovered are then absorbed:
//! a link whose host is the target domain and whose URL is new joins the next
//! frontier, every other link is merely recorded as visited. The crawl is
//! done when the frontier is empty, and its result is the visited set.

use vstd::prelude::*;
use vstd::set_lib::lemma_len_subset;
use vstd::string::StringExecFns;

use crate::link::{Link, LinkView};
use crate::link_views;
use crate::strs;
use crate::texts;

verus! {

/// The root URL a crawl of a domain starts from.
pub open spec fn seed_text(d: Seq<char>) -> Seq<char> {
    "http://"@ + d
}

/// The state of one crawl: the target domain, the URLs already recorded, and
/// the links queued to be fetched in the next round.
pub struct CrawlState {
    pub domain: String,
    pub visited: Vec<String>,
    pub frontier: Vec<Link>,
}

impl CrawlState {
    /// The target domain.
    pub open spec fn dom(self) -> Seq<char> {
        self.domain@
    }

    /// The visited set, as the sequence of URL texts in recording order.
    pub open spec fn vis(self) -> Seq<Seq<char>> {
        strs(self.visited@)
    }

    /// The frontier, as the sequence of queued links.
    pub open spec fn fr(self) -> Seq<LinkView> {
        link_views(self.frontier@)
    }

    /// The crawl's invariant: no URL is recorded twice, no URL is queued
    /// twice, only links whose host is the target domain are ever queued,
    /// and no queued URL is already recorded.
    pub open spec fn wf(self) -> bool {
        &&& self.vis().no_duplicates()
        &&& texts(self.fr()).no_duplicates()
        &&& (forall|i: int|
            0 <= i < self.fr().len() ==> (#[trigger] self.fr()[i]).host == Some(self.dom()))
        &&& (forall|i: int|
            0 <= i < self.fr().len() ==> !self.vis().contains((#[trigger] self.fr()[i]).text))
    }

    /// Seed a crawl: nothing visited, the domain's root URL queued, its host
    /// taken to be the domain it was built from.
    pub fn seed(domain: &str) -> (s: CrawlState)
        ensures
            s.wf(),
            s.dom() == domain@,
            s.vis() == Seq::<Seq<char>>::empty(),
            s.fr().len() == 1,
            s.fr()[0].text == seed_text(domain@),
            s.fr()[0].host == Some(domain@),
    {
        let mut root = String::new();
        root.append("http://");
        root.append(domain);
        proof {
            assert(root@ =~= seed_text(domain@));
        }
        let link = Link { text: root, host: Some(domain.to_owned()) };
        let mut frontier: Vec<Link> = Vec::new();
        frontier.push(link);
        let s = CrawlState { domain: domain.to_owned(), visited: Vec::new(), frontier };
        proof {
            assert(s.vis() =~= Seq::<Seq<char>>::empty());
            assert(s.fr() =~= seq![s.frontier@[0]@]);
            assert(texts(s.fr()) =~= seq![s.fr()[0].text]);
        }
        s
    }

    /// Whether another round is owed: the crawl ends exactly when the
    /// frontier is empty.
    pub fn has_frontier(&self) -> (b: bool)
        ensures
            b == (self.fr().len() > 0),
    {
        self.frontier.len() > 0
    }

    /// Open a round: every queued URL is recorded as visited, the frontier
    /// is emptied, and the queued links are returned as the batch to fetch.
    /// Only these URLs are ever fetched, and each carries the target domain
    /// as its host.
    pub fn begin_round(&mut self) -> (batch: Vec<Link>)
        requires
            old(self).wf(),
        ensures
            final (self).wf(),
            final (self).dom() == old(self).dom(),
            link_views(batch@) == old(self).fr(),
            final (self).vis() == old(self).vis() + texts(old(self).fr()),
            final (self).fr().len() == 0,
    {
        let ghost pre = *self;
        let mut batch: Vec<Link> = Vec::new();
        let n = self.frontier.len();
        let mut i: usize = 0;
        while i < n
            invariant
                i <= n,
                n == pre.frontier@.len(),
                self.domain == pre.domain,
                self.frontier == pre.frontier,
                link_views(batch@) == pre.fr().take(i as int),
                self.vis() == pre.vis() + texts(pre.fr()).take(i as int),
            decreases n - i,
        {
            let l = crate::link::copy_link(&self.frontier[i]);
            let ghost bpre = batch@;
            let ghost vpre = self.visited@;
            let t = self.frontier[i].text.clone();
            batch.push(l);
            self.visited.push(t);
            proof {
                assert(link_views(bpre.push(l)) =~= link_views(bpre).push(l@));
                assert(pre.fr().take(i + 1) =~= pre.fr().take(i as int).push(pre.fr()[i as int]));
                assert(strs(vpre.push(t)) =~= strs(vpre).push(t@));
                assert(texts(pre.fr()).take(i + 1) =~= texts(pre.fr()).take(i as int).push(
                    pre.fr()[i as int].text,
                ));
                assert(self.vis() =~= pre.vis() + texts(pre.fr()).take(i + 1));
            }
            i = i + 1;
        }
        self.frontier = Vec::new();
        proof {
            assert(link_views(batch@) =~= pre.fr());
            assert(texts(pre.fr()).take(n as int) =~= texts(pre.fr()));
            assert(self.fr() =~= Seq::<LinkView>::empty());
            lemma_no_dup_concat(pre.vis(), texts(pre.fr()));
            assert(self.wf());
        }
        batch
    }

    /// Close a round by absorbing the links its pages yielded, in order:
    /// a link whose host is the target domain and whose URL is neither
    /// recorded nor queued joins the frontier; any other link has its URL
    /// recorded as visited, once. The exact outcome is `absorb_fold` over
    /// the round's links.
    pub fn absorb(&mut self, links: &Vec<Link>)
        requires
            old(self).wf(),
            old(self).fr().len() == 0,
        ensures
            final (self).wf(),
            final (self).dom() == old(self).dom(),
            final (self).vis() == absorb_fold(
                old(self).vis(),
                Seq::<LinkView>::empty(),
                old(self).dom(),
                link_views(links@),
            ).0,
            final (self).fr() == absorb_fold(
                old(self).vis(),
                Seq::<LinkView>::empty(),
                old(self).dom(),
                link_views(links@),
            ).1,
    {
        let ghost pre = *self;
        let ghost lv = link_views(links@);
        proof {
            assert(pre.fr() =~= Seq::<LinkView>::empty());
        }
        let n = links.len();
        let mut i: usize = 0;
        while i < n
            invariant
                i <= n,
                n == links@.len(),
                lv == link_views(links@),
                self.domain == pre.domain,
                self.wf(),
                self.vis() == absorb_fold(pre.vis(), Seq::<LinkView>::empty(), pre.dom(), lv.take(i as int)).0,
                self.fr() == absorb_fold(pre.vis(), Seq::<LinkView>::empty(), pre.dom(), lv.take(i as int)).1,
            decreases n - i,
        {
            proof {
                assert(lv.take(i + 1).drop_last() =~= lv.take(i as int));
                assert(lv.take(i + 1).last() == lv[i as int]);
                assert(lv[i as int] == links@[i as int]@);
            }
            let same_domain = match &links[i].host {
                Some(h) => *h == self.domain,
                None => false,
            };
            proof {
                assert(same_domain == (links@[i as int]@.host == Some(pre.dom())));
            }
            let ghost spre = *self;
            if same_domain && !contains_url(&self.visited, &links[i].text) {
                if !frontier_contains(&self.frontier, &links[i].text) {
                    let l = crate::link::copy_link(&links[i]);
                    let ghost fpre = self.frontier@;
                    self.frontier.push(l);
                    proof {
                        assert(link_views(fpre.push(l)) =~= link_views(fpre).push(l@));
                        assert(texts(link_views(fpre).push(l@)) =~= texts(link_views(fpre)).push(
                            l@.text,
                        ));
                        lemma_push_no_dup(texts(spre.fr()), l@.text);
                        assert forall|k: int| 0 <= k < self.fr().len() implies !self.vis().contains(
                            (#[trigger] self.fr()[k]).text,
                        ) by {
                            if k < spre.fr().len() {
                                assert(self.fr()[k] == spre.fr()[k]);
                            } else {
                                assert(self.fr()[k] == l@);
                            }
                        }
                        assert(self.wf());
                    }
                }
            } else {
                if !contains_url(&self.visited, &links[i].text) && !frontier_contains(
                    &self.frontier,
                    &links[i].text,
                ) {
                    let t = links[i].text.clone();
                    let ghost vpre = self.visited@;
                    self.visited.push(t);
                    proof {
                        assert(strs(vpre.push(t)) =~= strs(vpre).push(t@));
                        lemma_push_no_dup(spre.vis(), t@);
                        assert forall|k: int| 0 <= k < self.fr().len() implies !self.vis().contains(
                            (#[trigger] self.fr()[k]).text,
                        ) by {
                            lemma_contains_push(spre.vis(), t@, self.fr()[k].text);
                            assert(self.fr()[k] == spre.fr()[k]);
                            if self.fr()[k].text == t@ {
                                assert(texts(spre.fr())[k] == t@);
                                assert(texts(spre.fr()).contains(t@));
                            }
                        }
                        assert(self.wf());
                    }
                }
            }
            i = i + 1;
        }
        proof {
            assert(lv.take(n as int) =~= lv);
        }
    }

    /// Hand the crawl's result out: the visited set, in recording order.
    pub fn finish(self) -> (r: Vec<String>)
        ensures
            strs(r@) == self.vis(),
    {
        self.visited
    }
}

/// What one link does to the crawl state: the decision rule of a round's
/// absorption, applied to visited set `v`, frontier `f`, target domain `d`.
pub open spec fn absorb_step(
    v: Seq<Seq<char>>,
    f: Seq<LinkView>,
    d: Seq<char>,
    l: LinkView,
) -> (Seq<Seq<char>>, Seq<LinkView>) {
    if l.host == Some(d) && !v.contains(l.text) {
        if texts(f).contains(l.text) {
            (v, f)
        } else {
            (v, f.push(l))
        }
    } else {
        if v.contains(l.text) || texts(f).contains(l.text) {
            (v, f)
        } else {
            (v.push(l.text), f)
        }
    }
}

/// `absorb_step`, folded over a round's links in order.
pub open spec fn absorb_fold(
    v: Seq<Seq<char>>,
    f: Seq<LinkView>,
    d: Seq<char>,
    ls: Seq<LinkView>,
) -> (Seq<Seq<char>>, Seq<LinkView>)
    decreases ls.len(),
{
    if ls.len() == 0 {
        (v, f)
    } else {
        let p = absorb_fold(v, f, d, ls.drop_last());
        absorb_step(p.0, p.1, d, ls.last())
    }
}

/// Whether a vector of URL strings holds the given URL.
fn contains_url(v: &Vec<String>, t: &String) -> (b: bool)
    ensures
        b == strs(v@).contains(t@),
{
    let n = v.len();
    let mut i: usize = 0;
    while i < n
        invariant
            i <= n,
            n == v@.len(),
            forall|j: int| 0 <= j < i ==> strs(v@)[j] != t@,
        decreases n - i,
    {
        if v[i] == *t {
            proof {
                assert(strs(v@)[i as int] == t@);
            }
            return true;
        }
        i = i + 1;
    }
    proof {
        assert(!strs(v@).contains(t@));
    }
    false
}

/// Whether a frontier holds a link with the given URL text.
fn frontier_contains(f: &Vec<Link>, t: &String) -> (b: bool)
    ensures
        b == texts(link_views(f@)).contains(t@),
{
    let n = f.len();
    let mut i: usize = 0;
    while i < n
        invariant
            i <= n,
            n == f@.len(),
            forall|j: int| 0 <= j < i ==> texts(link_views(f@))[j] != t@,
        decreases n - i,
    {
        if f[i].text == *t {
            proof {
                assert(texts(link_views(f@))[i as int] == t@);
            }
            return true;
        }
        i = i + 1;
    }
    proof {
        assert(!texts(link_views(f@)).contains(t@));
    }
    false
}

/// Appending a fresh element keeps a sequence duplicate-free.
proof fn lemma_push_no_dup(s: Seq<Seq<char>>, x: Seq<char>)
    requires
        s.no_duplicates(),
        !s.contains(x),
    ensures
        s.push(x).no_duplicates(),
{
    assert forall|i: int, j: int|
        0 <= i < s.push(x).len() && 0 <= j < s.push(x).len() && i != j implies s.push(x)[i]
        != s.push(x)[j] by {
        if i < s.len() && j == s.len() {
            assert(s.contains(s[i]));
        }
        if j < s.len() && i == s.len() {
            assert(s.contains(s[j]));
        }
    }
}

/// What a sequence holds after a push: its old elements and the new one.
proof fn lemma_contains_push(s: Seq<Seq<char>>, x: Seq<char>, y: Seq<char>)
    ensures
        s.push(x).contains(y) <==> (s.contains(y) || y == x),
{
    if s.push(x).contains(y) {
        let k = choose|k: int| 0 <= k < s.push(x).len() && s.push(x)[k] == y;
        if k < s.len() {
            assert(s.contains(s[k]));
        }
    }
    if s.contains(y) {
        let k = choose|k: int| 0 <= k < s.len() && s[k] == y;
        assert(s.push(x)[k] == y);
    }
    if y == x {
        assert(s.push(x)[s.len() as int] == y);
    }
}

/// Two duplicate-free sequences with no element in common concatenate to a
/// duplicate-free sequence.
pub proof fn lemma_no_dup_concat(a: Seq<Seq<char>>, b: Seq<Seq<char>>)
    requires
        a.no_duplicates(),
        b.no_duplicates(),
        forall|i: int| 0 <= i < b.len() ==> !a.contains(#[trigger] b[i]),
    ensures
        (a + b).no_duplicates(),
{
    assert forall|i: int, j: int|
        0 <= i < (a + b).len() && 0 <= j < (a + b).len() && i != j implies (a + b)[i] != (a
        + b)[j] by {
        if i < a.len() && j >= a.len() {
            assert(a.contains(a[i]));
        }
        if j < a.len() && i >= a.len() {
            assert(a.contains(a[j]));
        }
    }
}

/// Some link of the round carries this URL and a host other than the target
/// domain: how a URL can come to be recorded without ever being queued.
pub open spec fn off_domain_source(ls: Seq<LinkView>, d: Seq<char>, x: Seq<char>) -> bool {
    exists|m: int| 0 <= m < ls.len() && (#[trigger] ls[m]).text == x && ls[m].host != Some(d)
}

/// What absorbing a round's links can and cannot do: the visited set and the
/// frontier only grow, everything they gain is a link of the round — the
/// visited set gaining only off-domain links — and every link of the round
/// ends up recorded or queued.
pub proof fn lemma_absorb_fold_props(
    v: Seq<Seq<char>>,
    f: Seq<LinkView>,
    d: Seq<char>,
    ls: Seq<LinkView>,
)
    ensures
        absorb_fold(v, f, d, ls).0.len() >= v.len(),
        absorb_fold(v, f, d, ls).0.take(v.len() as int) == v,
        absorb_fold(v, f, d, ls).1.len() >= f.len(),
        absorb_fold(v, f, d, ls).1.take(f.len() as int) == f,
        forall|k: int|
            v.len() <= k < absorb_fold(v, f, d, ls).0.len() ==> texts(ls).contains(
                #[trigger] absorb_fold(v, f, d, ls).0[k],
            ),
        forall|k: int|
            v.len() <= k < absorb_fold(v, f, d, ls).0.len() ==> off_domain_source(
                ls,
                d,
                #[trigger] absorb_fold(v, f, d, ls).0[k],
            ),
        forall|k: int|
            f.len() <= k < absorb_fold(v, f, d, ls).1.len() ==> ls.contains(
                #[trigger] absorb_fold(v, f, d, ls).1[k],
            ),
        forall|k: int|
            0 <= k < ls.len() ==> absorb_fold(v, f, d, ls).0.contains((#[trigger] ls[k]).text)
                || texts(absorb_fold(v, f, d, ls).1).contains(ls[k].text),
    decreases ls.len(),
{
    if ls.len() > 0 {
        let prior = ls.drop_last();
        let l = ls.last();
        lemma_absorb_fold_props(v, f, d, prior);
        let v1 = absorb_fold(v, f, d, prior).0;
        let f1 = absorb_fold(v, f, d, prior).1;
        let v2 = absorb_fold(v, f, d, ls).0;
        let f2 = absorb_fold(v, f, d, ls).1;
        assert(absorb_fold(v, f, d, ls) == absorb_step(v1, f1, d, l));
        assert forall|x: Seq<char>| texts(prior).contains(x) implies texts(ls).contains(x) by {
            let k = choose|k: int| 0 <= k < texts(prior).len() && texts(prior)[k] == x;
            assert(texts(ls)[k] == x);
        }
        assert forall|m: LinkView| prior.contains(m) implies ls.contains(m) by {
            let k = choose|k: int| 0 <= k < prior.len() && prior[k] == m;
            assert(ls[k] == m);
        }
        assert(texts(ls)[ls.len() - 1] == l.text);
        assert(texts(ls).contains(l.text));
        assert(ls.contains(l));
        // The step either leaves both parts alone, queues the link, or
        // records its URL; each case preserves every clause and accounts
        // for the last link.
        if l.host == Some(d) && !v1.contains(l.text) {
            if texts(f1).contains(l.text) {
                assert(v2 == v1 && f2 == f1);
            } else {
                assert(v2 == v1 && f2 == f1.push(l));
                assert(f2.take(f.len() as int) =~= f1.take(f.len() as int));
                assert(texts(f2) =~= texts(f1).push(l.text));
                assert(texts(f2)[f1.len() as int] == l.text);
                assert(texts(f2).contains(l.text));
            }
        } else {
            if v1.contains(l.text) || texts(f1).contains(l.text) {
                assert(v2 == v1 && f2 == f1);
            } else {
                assert(v2 == v1.push(l.text) && f2 == f1);
                assert(v2.take(v.len() as int) =~= v1.take(v.len() as int));
                assert(v2[v1.len() as int] == l.text);
                assert(v2.contains(l.text));
            }
        }
        assert forall|x: Seq<char>| v1.contains(x) implies v2.contains(x) by {
            let k = choose|k: int| 0 <= k < v1.len() && v1[k] == x;
            assert(v2[k] == x);
        }
        assert forall|x: Seq<char>| texts(f1).contains(x) implies texts(f2).contains(x) by {
            let k = choose|k: int| 0 <= k < texts(f1).len() && texts(f1)[k] == x;
            assert(texts(f2)[k] == x);
        }
        assert forall|k: int| 0 <= k < ls.len() implies v2.contains((#[trigger] ls[k]).text)
            || texts(f2).contains(ls[k].text) by {
            if k < ls.len() - 1 {
                assert(prior[k] == ls[k]);
                assert(v1.contains(prior[k].text) || texts(f1).contains(prior[k].text));
            } else {
                assert(ls[k] == l);
            }
        }
        assert forall|x: Seq<char>| off_domain_source(prior, d, x) implies off_domain_source(
            ls,
            d,
            x,
        ) by {
            let m = choose|m: int|
                0 <= m < prior.len() && (#[trigger] prior[m]).text == x && prior[m].host != Some(d);
            assert(ls[m].text == x && ls[m].host != Some(d));
        }
        assert forall|k: int| v.len() <= k < v2.len() implies off_domain_source(
            ls,
            d,
            #[trigger] v2[k],
        ) by {
            if k < v1.len() {
                assert(v2[k] == v1[k]);
                assert(off_domain_source(prior, d, v1[k]));
            } else {
                assert(v2 == v1.push(l.text));
                assert(v2[k] == l.text);
                assert(l.host != Some(d));
                assert(ls[ls.len() - 1] == l);
            }
        }
    }
}

/// No URL is at once queued and recorded: the disjointness the crawl's
/// invariant keeps at every state of a traversal.
pub proof fn lemma_frontier_disjoint_from_visited(s: CrawlState)
    requires
        s.wf(),
    ensures
        forall|i: int| 0 <= i < s.fr().len() ==> !s.vis().contains((#[trigger] s.fr()[i]).text),
{
}

/// Only the target domain is ever fetched: every link the crawl has queued
/// carries the target domain as its host, and a round's batch is exactly the
/// queued URLs.
pub proof fn lemma_only_target_queued(s: CrawlState)
    requires
        s.wf(),
    ensures
        forall|i: int| 0 <= i < s.fr().len() ==> (#[trigger] s.fr()[i]).host == Some(s.dom()),
{
}

/// The visited set of a well-formed crawl never repeats a URL and, drawn
/// from any finite universe of URLs, cannot outgrow it; since every round
/// with a non-empty frontier strictly grows the visited set, a crawl over
/// finitely many reachable URLs runs out of rounds.
pub proof fn lemma_visited_bounded(s: CrawlState, u: Set<Seq<char>>)
    requires
        s.wf(),
        u.finite(),
        forall|i: int| 0 <= i < s.vis().len() ==> u.contains(#[trigger] s.vis()[i]),
    ensures
        s.vis().len() <= u.len(),
{
    s.vis().unique_seq_to_set();
    assert forall|x: Seq<char>| s.vis().to_set().contains(x) implies u.contains(x) by {
        let k = choose|k: int| 0 <= k < s.vis().len() && s.vis()[k] == x;
        assert(u.contains(s.vis()[k]));
    }
    lemma_len_subset(s.vis().to_set(), u);
}

} // verus!
