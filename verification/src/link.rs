//! Hyperlinks as the crawler reads them, and their extraction from page bodies.

use vstd::prelude::*;

use crate::link_views;
use crate::strs;

verus! {

/// The spec-level image of a [`Link`]: the URL's serialized text and the host
/// it names.
pub struct LinkView {
    pub text: Seq<char>,
    pub host: Option<Seq<char>>,
}

/// An absolute URL that parsed successfully, reduced to the two things the
/// crawler reads of it: its serialized text, and its host name (absent when
/// the URL's host is not a domain name, for instance a raw address).
pub struct Link {
    pub text: String,
    pub host: Option<String>,
}

impl View for Link {
    type V = LinkView;

    open spec fn view(&self) -> LinkView {
        LinkView {
            text: self.text@,
            host: match self.host {
                Some(h) => Some(h@),
                None => None,
            },
        }
    }
}

/// Whether `url::Url::parse` accepts the string.
pub uninterp spec fn url_ok(s: Seq<char>) -> bool;

/// The serialization of the URL that `url::Url::parse` reads from the string.
pub uninterp spec fn url_str(s: Seq<char>) -> Seq<char>;

/// The host name (`url::Url::domain`) of the URL whose serialization is `u`.
pub uninterp spec fn url_host(u: Seq<char>) -> Option<Seq<char>>;

/// The `href` attributes of the anchor elements of an HTML document, in
/// document order, as `scraper` parses and selects them.
pub uninterp spec fn hrefs_of(doc: Seq<char>) -> Seq<Seq<char>>;

/// The link an href yields once parsed: the serialized URL and the host read
/// off that serialization.
pub open spec fn link_of(h: Seq<char>) -> LinkView {
    LinkView { text: url_str(h), host: url_host(url_str(h)) }
}

/// A link is sound when its recorded host is the host of its own text, as the
/// URL parser reads it. Every link produced by parsing is sound.
pub open spec fn link_sound(l: LinkView) -> bool {
    l.host == url_host(l.text)
}

/// The links a list of hrefs yields: each href that parses as an absolute
/// URL, in order; the rest are discarded silently.
pub open spec fn links_of_hrefs(hs: Seq<Seq<char>>) -> Seq<LinkView>
    decreases hs.len(),
{
    if hs.len() == 0 {
        Seq::empty()
    } else {
        let rest = links_of_hrefs(hs.drop_last());
        if url_ok(hs.last()) {
            rest.push(link_of(hs.last()))
        } else {
            rest
        }
    }
}

/// The links a page body yields: its hrefs, parsed and filtered.
pub open spec fn links_of(doc: Seq<char>) -> Seq<LinkView> {
    links_of_hrefs(hrefs_of(doc))
}

/// Relies on `url::Url::parse`, `Url::domain` and the `Url`-to-`String`
/// conversion: parsing is a function of the input string alone, the
/// conversion returns the URL's serialization, and the domain is determined
/// by that serialization.
#[verifier::external_body]
fn parse_link(href: &str) -> (r: Option<Link>)
    ensures
        r is Some <==> url_ok(href@),
        r matches Some(l) ==> l@.text == url_str(href@),
        r matches Some(l) ==> l@.host == url_host(url_str(href@)),
{
    match url::Url::parse(href) {
        Ok(u) => {
            let host = u.domain().map(|d| d.to_string());
            Some(Link { host, text: u.into() })
        },
        Err(_) => None,
    }
}

/// Relies on `scraper::Html::parse_document`, `Selector::parse` with the
/// anchor selector, `Html::select` and `Element::attr`: the result is the
/// anchor elements' `href` attributes in document order, a function of the
/// document text alone.
#[verifier::external_body]
fn extract_hrefs(body: &str) -> (r: Vec<String>)
    ensures
        strs(r@) == hrefs_of(body@),
{
    let selector = scraper::Selector::parse("a").expect("the anchor selector parses");
    let document = scraper::Html::parse_document(body);
    document
        .select(&selector)
        .filter_map(|element| element.value().attr("href").map(|h| h.to_string()))
        .collect()
}

/// Extract the outbound links of a fetched page body: every href of an
/// anchor element that parses as an absolute URL, in document order;
/// malformed hrefs contribute nothing.
pub fn links_on_page(body: &str) -> (r: Vec<Link>)
    ensures
        link_views(r@) == links_of(body@),
        forall|i: int| 0 <= i < r@.len() ==> link_sound(#[trigger] r@[i]@),
{
    let hrefs = extract_hrefs(body);
    let mut out: Vec<Link> = Vec::new();
    let n = hrefs.len();
    let mut i: usize = 0;
    while i < n
        invariant
            n == hrefs@.len(),
            i <= n,
            strs(hrefs@) == hrefs_of(body@),
            link_views(out@) == links_of_hrefs(strs(hrefs@).take(i as int)),
            forall|j: int| 0 <= j < out@.len() ==> link_sound(#[trigger] out@[j]@),
        decreases n - i,
    {
        proof {
            let hs = strs(hrefs@);
            assert(hs.take(i + 1).drop_last() =~= hs.take(i as int));
            assert(hs.take(i + 1).last() == hs[i as int]);
            assert(hs[i as int] == hrefs@[i as int]@);
        }
        match parse_link(hrefs[i].as_str()) {
            Some(l) => {
                proof {
                    assert(l@ == link_of(hrefs@[i as int]@));
                    assert(link_views(out@.push(l)) =~= link_views(out@).push(l@));
                }
                out.push(l);
            },
            None => {},
        }
        i = i + 1;
    }
    proof {
        assert(strs(hrefs@).take(n as int) =~= strs(hrefs@));
    }
    out
}

/// An owned copy of a link, equal to it in every part.
pub fn copy_link(l: &Link) -> (r: Link)
    ensures
        r@ == l@,
{
    let host = match &l.host {
        Some(h) => Some(h.clone()),
        None => None,
    };
    Link { text: l.text.clone(), host }
}

/// An owned copy of a vector of links, equal to it element for element.
pub fn copy_links(v: &Vec<Link>) -> (r: Vec<Link>)
    ensures
        link_views(r@) == link_views(v@),
{
    let mut out: Vec<Link> = Vec::new();
    let n = v.len();
    let mut i: usize = 0;
    while i < n
        invariant
            i <= n,
            n == v@.len(),
            link_views(out@) == link_views(v@).take(i as int),
        decreases n - i,
    {
        let l = copy_link(&v[i]);
        proof {
            assert(link_views(out@.push(l)) =~= link_views(out@).push(l@));
            assert(link_views(v@).take(i + 1) =~= link_views(v@).take(i as int).push(
                link_views(v@)[i as int],
            ));
        }
        out.push(l);
        i = i + 1;
    }
    proof {
        assert(link_views(v@).take(n as int) =~= link_views(v@));
    }
    out
}

/// Merge the per-page results of one crawl round into a single list, in the
/// order the parts were handed in. Callers must not rely on any particular
/// order among a round's links beyond this.
pub fn merge_rounds(parts: Vec<Vec<Link>>) -> (r: Vec<Link>)
    ensures
        r@ == parts@.map_values(|v: Vec<Link>| v@).flatten(),
{
    let ghost all = parts@.map_values(|v: Vec<Link>| v@);
    let mut rest = parts;
    let mut out: Vec<Link> = Vec::new();
    proof {
        assert(out@ + all.flatten() =~= all.flatten());
    }
    while rest.len() > 0
        invariant
            out@ + rest@.map_values(|v: Vec<Link>| v@).flatten() == all.flatten(),
        decreases rest@.len(),
    {
        proof {
            let rv = rest@.map_values(|v: Vec<Link>| v@);
            assert(rv.first() == rest@[0]@);
            assert(rest@.remove(0).map_values(|v: Vec<Link>| v@) =~= rv.drop_first());
        }
        let mut part = rest.remove(0);
        let ghost before = out@;
        let ghost pv = part@;
        let ghost rv_rest = rest@.map_values(|v: Vec<Link>| v@);
        out.append(&mut part);
        proof {
            assert((before + pv) + rv_rest.flatten() =~= before + (pv + rv_rest.flatten()));
        }
    }
    proof {
        assert(out@ + rest@.map_values(|v: Vec<Link>| v@).flatten() =~= out@);
    }
    out
}

} // verus!
