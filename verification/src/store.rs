//! The shared store of crawl results: domain name to discovered URL list.
//!
//! The store is the one structure shared between crawls of different domains
//! and concurrent queries; it is backed by a concurrent hash table so that
//! callers need no lock of their own. A crawl writes its whole result at
//! completion, replacing any prior result for the same domain; a query of a
//! domain that was never crawled comes back empty.

use vstd::prelude::*;

use crate::strs;

verus! {

#[verifier::external_type_specification]
#[verifier::external_body]
#[verifier::reject_recursive_types(K)]
#[verifier::reject_recursive_types(V)]
pub struct ExCHashMap<K, V>(chashmap::CHashMap<K, V>);

/// The store that holds nothing yet.
pub open spec fn empty_results() -> Map<Seq<char>, Seq<Seq<char>>> {
    Map::empty()
}

/// What the table holds: each stored domain mapped to the views of its URL
/// list.
pub uninterp spec fn table_map(
    m: chashmap::CHashMap<String, Vec<String>>,
) -> Map<Seq<char>, Seq<Seq<char>>>;

/// Relies on `chashmap::CHashMap::new`: the new table is empty.
#[verifier::external_body]
fn table_new() -> (m: chashmap::CHashMap<String, Vec<String>>)
    ensures
        table_map(m) == empty_results(),
{
    chashmap::CHashMap::new()
}

/// Relies on `chashmap::CHashMap::insert`: the value replaces whatever the
/// table held under the key, and every other key is left untouched.
#[verifier::external_body]
fn table_insert(m: &mut chashmap::CHashMap<String, Vec<String>>, key: String, value: Vec<String>)
    ensures
        table_map(*final(m)) == table_map(*old(m)).insert(key@, strs(value@)),
{
    m.insert(key, value);
}

/// Relies on `chashmap::CHashMap::get`: the value the table holds under the
/// key, or nothing when the key is absent.
#[verifier::external_body]
fn table_get(m: &chashmap::CHashMap<String, Vec<String>>, key: &String) -> (r: Option<Vec<String>>)
    ensures
        match r {
            Some(v) => table_map(*m).contains_key(key@) && strs(v@) == table_map(*m)[key@],
            None => !table_map(*m).contains_key(key@),
        },
{
    m.get(key).map(|guard| guard.clone())
}

/// The store of completed crawl results, keyed by domain name.
pub struct ResultStore {
    table: chashmap::CHashMap<String, Vec<String>>,
}

impl View for ResultStore {
    type V = Map<Seq<char>, Seq<Seq<char>>>;

    closed spec fn view(&self) -> Map<Seq<char>, Seq<Seq<char>>> {
        table_map(self.table)
    }
}

impl ResultStore {
    /// An empty store: no domain has a result yet.
    pub fn new() -> (s: ResultStore)
        ensures
            s@ == empty_results(),
    {
        ResultStore { table: table_new() }
    }

    /// Record a completed crawl: the list replaces any prior result for the
    /// domain and leaves every other domain's result as it was.
    pub fn insert(&mut self, domain: String, urls: Vec<String>)
        ensures
            final(self)@ == old(self)@.insert(domain@, strs(urls@)),
    {
        table_insert(&mut self.table, domain, urls);
    }

    /// The stored URL list of a domain, or the empty list when the domain was
    /// never crawled.
    pub fn urls(&self, domain: &String) -> (r: Vec<String>)
        ensures
            self@.contains_key(domain@) ==> strs(r@) == self@[domain@],
            !self@.contains_key(domain@) ==> r@ == Seq::<String>::empty(),
    {
        match table_get(&self.table, domain) {
            Some(v) => v,
            None => Vec::new(),
        }
    }

    /// How many URLs the stored result of a domain holds; zero when the
    /// domain was never crawled.
    pub fn count(&self, domain: &String) -> (n: usize)
        ensures
            self@.contains_key(domain@) ==> n == self@[domain@].len(),
            !self@.contains_key(domain@) ==> n == 0,
    {
        match table_get(&self.table, domain) {
            Some(v) => v.len(),
            None => 0,
        }
    }
}

/// Storing a result for a domain twice keeps only the second: the store ends
/// exactly as if the first insert had never happened.
pub proof fn lemma_overwrite(
    m: Map<Seq<char>, Seq<Seq<char>>>,
    d: Seq<char>,
    v1: Seq<Seq<char>>,
    v2: Seq<Seq<char>>,
)
    ensures
        m.insert(d, v1).insert(d, v2) == m.insert(d, v2),
{
    assert(m.insert(d, v1).insert(d, v2) =~= m.insert(d, v2));
}

/// Results for distinct domains never disturb each other: after two inserts
/// under different keys each key holds its own list, in whichever order the
/// inserts came.
pub proof fn lemma_distinct_domains(
    m: Map<Seq<char>, Seq<Seq<char>>>,
    d1: Seq<char>,
    v1: Seq<Seq<char>>,
    d2: Seq<char>,
    v2: Seq<Seq<char>>,
)
    requires
        d1 != d2,
    ensures
        m.insert(d1, v1).insert(d2, v2)[d1] == v1,
        m.insert(d1, v1).insert(d2, v2)[d2] == v2,
        m.insert(d1, v1).insert(d2, v2) == m.insert(d2, v2).insert(d1, v1),
{
    assert(m.insert(d1, v1).insert(d2, v2) =~= m.insert(d2, v2).insert(d1, v1));
}

/// Every result the store holds is free of repeated URLs.
pub open spec fn all_results_distinct(m: Map<Seq<char>, Seq<Seq<char>>>) -> bool {
    forall|k: Seq<char>| #[trigger] m.contains_key(k) ==> m[k].no_duplicates()
}

/// An empty store trivially holds only duplicate-free results, and storing a
/// duplicate-free list keeps it that way; with that, whatever `urls` returns
/// is free of repeated URLs.
pub proof fn lemma_insert_keeps_distinct(
    m: Map<Seq<char>, Seq<Seq<char>>>,
    d: Seq<char>,
    v: Seq<Seq<char>>,
)
    requires
        all_results_distinct(m),
        v.no_duplicates(),
    ensures
        all_results_distinct(m.insert(d, v)),
{
}

/// What `urls` hands out for a crawled domain of such a store never repeats
/// a URL.
pub proof fn lemma_stored_urls_distinct(m: Map<Seq<char>, Seq<Seq<char>>>, d: Seq<char>)
    requires
        all_results_distinct(m),
        m.contains_key(d),
    ensures
        m[d].no_duplicates(),
{
}

} // verus!
