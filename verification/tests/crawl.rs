//! Whole-crawl scenarios over in-memory sites.

use gemcrawl::engine::{SitePage, crawl_site, plan_page};
use gemcrawl::location::Location;

fn page(location: &str, media_type: &str, body: &str) -> SitePage {
    SitePage {
        location: location.to_string(),
        media_type: media_type.to_string(),
        body: body.to_string(),
    }
}

#[test]
fn end_to_end_scenario() {
    let seed = "gemini://host/~u/gemlog/".to_string();
    let site = vec![
        page(
            "gemini://host/~u/gemlog/",
            "text/gemini; charset=utf-8",
            "=> franken.gmi Franken\n\
             => ../old-gemlogs.gmi Old gemlogs\n\
             => https://external.example/ The web\n",
        ),
        page("gemini://host/~u/gemlog/franken.gmi", "text/gemini", "# franken\n"),
        page("gemini://host/~u/gemlog/../old-gemlogs.gmi", "text/gemini", "# old\n"),
    ];
    let store = crawl_site(&site, &seed);

    // Both in-scope links were claimed; the external one never was.
    assert!(store.contains(&seed));
    assert!(store.contains(&"gemini://host/~u/gemlog/franken.gmi".to_string()));
    assert!(store.contains(&"gemini://host/~u/gemlog/../old-gemlogs.gmi".to_string()));
    assert!(!store.contains(&"https://external.example/".to_string()));

    // Every page declared text/gemini is stored under its own canonical
    // string.
    assert_eq!(store.get(&seed).map(|s| s.as_str()), Some(site[0].body.as_str()));
    assert_eq!(
        store.get(&"gemini://host/~u/gemlog/franken.gmi".to_string()).map(|s| s.as_str()),
        Some("# franken\n")
    );
    assert_eq!(
        store.get(&"gemini://host/~u/gemlog/../old-gemlogs.gmi".to_string()).map(|s| s.as_str()),
        Some("# old\n")
    );
}

#[test]
fn crawl_terminates_on_a_cycle() {
    let seed = "gemini://host/a".to_string();
    let site = vec![
        page("gemini://host/a", "text/gemini", "=> /b to b\n"),
        page("gemini://host/b", "text/gemini", "=> /a back to a\n"),
    ];
    let store = crawl_site(&site, &seed);
    assert!(store.contains(&"gemini://host/a".to_string()));
    assert!(store.contains(&"gemini://host/b".to_string()));
}

#[test]
fn crawl_closes_an_acyclic_chain() {
    let seed = "gemini://host/a".to_string();
    let site = vec![
        page("gemini://host/a", "text/gemini", "=> /b\n=> /c\n"),
        page("gemini://host/b", "text/gemini", "=> /c\n"),
        page("gemini://host/c", "text/plain", "leaf text\n"),
    ];
    let store = crawl_site(&site, &seed);
    for loc in ["gemini://host/a", "gemini://host/b", "gemini://host/c"] {
        assert!(store.contains(&loc.to_string()));
    }
    // Plain text is stored but yields no further links.
    assert_eq!(store.get(&"gemini://host/c".to_string()).map(|s| s.as_str()), Some("leaf text\n"));
}

#[test]
fn crawl_discards_unclassified_bodies() {
    let seed = "gemini://host/a".to_string();
    let site = vec![
        page("gemini://host/a", "text/gemini", "=> pic.jpg a picture\n"),
        page("gemini://host/pic.jpg", "image/jpeg", "not really pixels"),
    ];
    let store = crawl_site(&site, &seed);
    // The picture's location was claimed, so it is fetched at most once,
    // but its body is dropped.
    assert!(store.contains(&"gemini://host/pic.jpg".to_string()));
    assert!(store.get(&"gemini://host/pic.jpg".to_string()).is_none());
}

#[test]
fn crawl_survives_a_malformed_page() {
    let seed = "gemini://host/a".to_string();
    let site = vec![
        page("gemini://host/a", "text/gemini", "=> /bad\n=> /good\n"),
        // A bare `=` line: extraction fails, the body is still stored,
        // and the crawl goes on.
        page("gemini://host/bad", "text/gemini", "=\n=> /never\n"),
        page("gemini://host/good", "text/plain", "fine\n"),
    ];
    let store = crawl_site(&site, &seed);
    assert!(store.contains(&"gemini://host/good".to_string()));
    assert!(store.get(&"gemini://host/bad".to_string()).is_some());
    assert!(!store.contains(&"gemini://host/never".to_string()));
}

#[test]
fn fetch_failure_is_isolated() {
    // A link with no page behind it (the fetch fails) is claimed once and
    // dropped; the sibling link is still fetched and stored.
    let seed = "gemini://host/a".to_string();
    let site = vec![
        page("gemini://host/a", "text/gemini", "=> /missing\n=> /good\n"),
        page("gemini://host/good", "text/plain", "still here\n"),
    ];
    let store = crawl_site(&site, &seed);
    assert!(store.contains(&"gemini://host/missing".to_string()));
    assert!(store.get(&"gemini://host/missing".to_string()).is_none());
    assert_eq!(store.get(&"gemini://host/good".to_string()).map(|s| s.as_str()), Some("still here\n"));
}

#[test]
fn plan_page_matches_classification() {
    let base = Location::parse("gemini://host/dir/").unwrap();
    let p = plan_page(&base, "text/gemini", "=> a.gmi\n");
    assert!(p.store_body);
    assert_eq!(p.links, ["gemini://host/dir/a.gmi"]);

    let p = plan_page(&base, "text/plain", "=> a.gmi\n");
    assert!(p.store_body);
    assert!(p.links.is_empty());

    let p = plan_page(&base, "application/pdf", "=> a.gmi\n");
    assert!(!p.store_body);
    assert!(p.links.is_empty());
}
