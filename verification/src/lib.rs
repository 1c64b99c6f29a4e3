//! A single-domain breadth-first web crawler.
//!
//! Given a target domain, the crawler discovers every page reachable from the
//! domain's root by following hyperlinks, one breadth-first round at a time,
//! and records the discovered URL set in a store that is queryable by domain.
//! Only URLs whose host is the target domain are ever fetched; links pointing
//! elsewhere are recorded but never followed.

use vstd::prelude::*;

pub mod crawl;
pub mod link;
pub mod site;
pub mod store;

verus! {

/// The character sequences of a sequence of strings.
pub open spec fn strs(v: Seq<String>) -> Seq<Seq<char>> {
    v.map_values(|s: String| s@)
}

/// The views of a sequence of links.
pub open spec fn link_views(v: Seq<crate::link::Link>) -> Seq<crate::link::LinkView> {
    v.map_values(|l: crate::link::Link| l@)
}

/// The URL texts of a sequence of link views.
pub open spec fn texts(ls: Seq<crate::link::LinkView>) -> Seq<Seq<char>> {
    ls.map_values(|l: crate::link::LinkView| l.text)
}

} // verus!
