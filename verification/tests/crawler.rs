use crawler::crawl::CrawlState;
use crawler::link::{links_on_page, merge_rounds, Link};
use crawler::site::{crawl_and_store, crawl_site, fetch_links, Page, Site};
use crawler::store::ResultStore;

fn link(text: &str, host: Option<&str>) -> Link {
    Link { text: text.to_string(), host: host.map(|h| h.to_string()) }
}

fn page(url: &str, links: Vec<Link>) -> Page {
    Page { url: url.to_string(), links }
}

fn assert_no_duplicates(urls: &[String]) {
    for i in 0..urls.len() {
        for j in 0..urls.len() {
            if i != j {
                assert_ne!(urls[i], urls[j], "duplicate URL in result");
            }
        }
    }
}

#[test]
fn scenario_one_domain_with_external_and_malformed_links() {
    let body = r#"<html><body>
        <a href="http://a.test/b">same domain</a>
        <a href="http://external.test">elsewhere</a>
        <a href="::not a url">malformed</a>
        </body></html>"#;
    let root_links = links_on_page(body);
    assert_eq!(root_links.len(), 2, "the malformed href contributes nothing");
    assert_eq!(root_links[0].text, "http://a.test/b");
    assert_eq!(root_links[0].host.as_deref(), Some("a.test"));
    assert_eq!(root_links[1].text, "http://external.test/");
    assert_eq!(root_links[1].host.as_deref(), Some("external.test"));

    let site = Site { pages: vec![page("http://a.test", root_links)] };
    let report = crawl_site("a.test", &site);

    assert_eq!(report.visited.len(), 3);
    assert!(report.visited.contains(&"http://a.test".to_string()));
    assert!(report.visited.contains(&"http://a.test/b".to_string()));
    assert!(report.visited.contains(&"http://external.test/".to_string()));

    let fetched: Vec<String> = report.fetched.iter().map(|l| l.text.clone()).collect();
    assert_eq!(
        fetched,
        vec!["http://a.test".to_string(), "http://a.test/b".to_string()],
        "the off-domain URL is recorded but never fetched"
    );
    for l in &report.fetched {
        assert_eq!(l.host.as_deref(), Some("a.test"));
    }

    let mut store = ResultStore::new();
    let domain = "a.test".to_string();
    crawl_and_store(&domain, &site, &mut store);
    assert_eq!(store.count(&domain), 3);
    assert_eq!(store.count(&"never-seen.example".to_string()), 0);
}

#[test]
fn crawl_terminates_on_cycles_and_visits_once() {
    let site = Site {
        pages: vec![
            page(
                "http://a.test",
                vec![
                    link("http://a.test/b", Some("a.test")),
                    link("http://a.test", Some("a.test")),
                ],
            ),
            page("http://a.test/b", vec![link("http://a.test", Some("a.test"))]),
        ],
    };
    let report = crawl_site("a.test", &site);
    assert_eq!(report.visited.len(), 2);
    assert_no_duplicates(&report.visited);
    assert_eq!(report.fetched.len(), 2);
}

#[test]
fn same_site_crawled_twice_reports_the_same_thing() {
    let site = Site {
        pages: vec![
            page(
                "http://a.test",
                vec![
                    link("http://a.test/b", Some("a.test")),
                    link("http://external.test/", Some("external.test")),
                ],
            ),
            page("http://a.test/b", vec![link("http://a.test", Some("a.test"))]),
        ],
    };
    let first = crawl_site("a.test", &site);
    let second = crawl_site("a.test", &site);
    assert_eq!(first.visited, second.visited);
    let first_fetched: Vec<String> = first.fetched.iter().map(|l| l.text.clone()).collect();
    let second_fetched: Vec<String> = second.fetched.iter().map(|l| l.text.clone()).collect();
    assert_eq!(first_fetched, second_fetched);
}

#[test]
fn stored_result_has_no_duplicate_urls() {
    let site = Site {
        pages: vec![
            page(
                "http://d.test",
                vec![
                    link("http://d.test/x", Some("d.test")),
                    link("http://d.test/x", Some("d.test")),
                    link("http://other.test/", Some("other.test")),
                    link("http://other.test/", Some("other.test")),
                ],
            ),
            page("http://d.test/x", vec![link("http://other.test/", Some("other.test"))]),
        ],
    };
    let mut store = ResultStore::new();
    let domain = "d.test".to_string();
    crawl_and_store(&domain, &site, &mut store);
    let stored = store.urls(&domain);
    assert_eq!(stored.len(), 3);
    assert_no_duplicates(&stored);
}

#[test]
fn second_crawl_replaces_stored_result() {
    let site = Site { pages: vec![page("http://a.test", vec![link("http://a.test/b", Some("a.test"))])] };
    let mut store = ResultStore::new();
    let domain = "a.test".to_string();
    crawl_and_store(&domain, &site, &mut store);
    assert_eq!(store.count(&domain), 2);
    crawl_and_store(&domain, &site, &mut store);
    assert_eq!(store.count(&domain), 2, "a second crawl replaces, it does not merge");
}

#[test]
fn insert_overwrites_prior_value() {
    let mut store = ResultStore::new();
    let domain = "a.test".to_string();
    store.insert(domain.clone(), vec!["http://a.test".to_string(), "http://a.test/b".to_string()]);
    store.insert(domain.clone(), vec!["http://a.test/c".to_string()]);
    assert_eq!(store.urls(&domain), vec!["http://a.test/c".to_string()]);
    assert_eq!(store.count(&domain), 1);
}

#[test]
fn unknown_domain_queries_come_back_empty() {
    let store = ResultStore::new();
    let domain = "never-crawled.example".to_string();
    assert_eq!(store.count(&domain), 0);
    assert!(store.urls(&domain).is_empty());
}

#[test]
fn interleaved_crawls_of_two_domains_stay_apart() {
    let site_a = Site {
        pages: vec![page("http://a.test", vec![link("http://a.test/1", Some("a.test"))])],
    };
    let site_b = Site {
        pages: vec![
            page("http://b.test", vec![link("http://b.test/1", Some("b.test"))]),
            page("http://b.test/1", vec![link("http://b.test/2", Some("b.test"))]),
        ],
    };
    let mut st_a = CrawlState::seed("a.test");
    let mut st_b = CrawlState::seed("b.test");
    // One round of each in turn: the crawls share nothing but the store.
    while st_a.has_frontier() || st_b.has_frontier() {
        if st_a.has_frontier() {
            let batch = st_a.begin_round();
            let mut parts: Vec<Vec<Link>> = Vec::new();
            for l in &batch {
                parts.push(fetch_links(&site_a, &l.text));
            }
            let round = merge_rounds(parts);
            st_a.absorb(&round);
        }
        if st_b.has_frontier() {
            let batch = st_b.begin_round();
            let mut parts: Vec<Vec<Link>> = Vec::new();
            for l in &batch {
                parts.push(fetch_links(&site_b, &l.text));
            }
            let round = merge_rounds(parts);
            st_b.absorb(&round);
        }
    }
    let mut store = ResultStore::new();
    store.insert("a.test".to_string(), st_a.finish());
    store.insert("b.test".to_string(), st_b.finish());

    let got_a = store.urls(&"a.test".to_string());
    let got_b = store.urls(&"b.test".to_string());
    assert_eq!(got_a.len(), 2);
    assert!(got_a.iter().all(|u| u.contains("a.test")));
    assert_eq!(got_b.len(), 3);
    assert!(got_b.iter().all(|u| u.contains("b.test")));
}

#[test]
fn frontier_stays_disjoint_from_visited() {
    let site = Site {
        pages: vec![
            page(
                "http://a.test",
                vec![
                    link("http://a.test/b", Some("a.test")),
                    link("http://a.test/c", Some("a.test")),
                    link("http://a.test", Some("a.test")),
                ],
            ),
            page("http://a.test/b", vec![link("http://a.test/c", Some("a.test"))]),
        ],
    };
    let mut state = CrawlState::seed("a.test");
    while state.has_frontier() {
        let batch = state.begin_round();
        let mut parts: Vec<Vec<Link>> = Vec::new();
        for l in &batch {
            parts.push(fetch_links(&site, &l.text));
        }
        let round = merge_rounds(parts);
        state.absorb(&round);
        for l in &state.frontier {
            assert!(
                !state.visited.contains(&l.text),
                "a URL sat in the frontier and the visited set at once"
            );
        }
    }
    assert_no_duplicates(&state.visited);
}

#[test]
fn only_target_domain_urls_are_ever_batched() {
    let site = Site {
        pages: vec![page(
            "http://a.test",
            vec![
                link("http://a.test/b", Some("a.test")),
                link("http://other.test/", Some("other.test")),
            ],
        )],
    };
    let mut state = CrawlState::seed("a.test");
    while state.has_frontier() {
        let batch = state.begin_round();
        for l in &batch {
            assert_eq!(l.host.as_deref(), Some("a.test"));
        }
        let mut parts: Vec<Vec<Link>> = Vec::new();
        for l in &batch {
            parts.push(fetch_links(&site, &l.text));
        }
        let round = merge_rounds(parts);
        state.absorb(&round);
    }
    assert!(state.visited.contains(&"http://other.test/".to_string()));
}

#[test]
fn seeded_state_queues_only_the_root() {
    let state = CrawlState::seed("a.test");
    assert!(state.visited.is_empty());
    assert_eq!(state.frontier.len(), 1);
    assert_eq!(state.frontier[0].text, "http://a.test");
    assert_eq!(state.frontier[0].host.as_deref(), Some("a.test"));
}

#[test]
fn merge_rounds_concatenates_in_order() {
    let parts = vec![
        vec![link("http://a.test/1", Some("a.test"))],
        vec![],
        vec![link("http://a.test/2", Some("a.test")), link("http://b.test/", Some("b.test"))],
    ];
    let merged = merge_rounds(parts);
    let texts: Vec<String> = merged.iter().map(|l| l.text.clone()).collect();
    assert_eq!(
        texts,
        vec![
            "http://a.test/1".to_string(),
            "http://a.test/2".to_string(),
            "http://b.test/".to_string(),
        ]
    );
}

#[test]
fn link_extraction_discards_what_does_not_parse() {
    assert!(links_on_page("<p>no links here</p>").is_empty());
    let links = links_on_page(
        r#"<a href="relative.html">relative</a>
           <a>no href at all</a>
           <a href="https://ok.test/x?q=1">good</a>"#,
    );
    assert_eq!(links.len(), 1);
    assert_eq!(links[0].text, "https://ok.test/x?q=1");
    assert_eq!(links[0].host.as_deref(), Some("ok.test"));
}

#[test]
fn link_host_is_absent_for_address_hosts() {
    let links = links_on_page(r#"<a href="http://127.0.0.1/x">by address</a>"#);
    assert_eq!(links.len(), 1);
    assert_eq!(links[0].text, "http://127.0.0.1/x");
    assert_eq!(links[0].host, None);
}

#[test]
fn fetch_of_an_absent_page_yields_no_links() {
    let site = Site { pages: vec![page("http://a.test", vec![])] };
    assert!(fetch_links(&site, &"http://a.test/missing".to_string()).is_empty());
    let report = crawl_site("a.test", &site);
    assert_eq!(report.visited, vec!["http://a.test".to_string()]);
}
