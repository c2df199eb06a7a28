//! Location parsing, canonical form, and link resolution.

use gemcrawl::location::{Location, LocationParseError, ResolveError, resolve};

fn loc(s: &str) -> Location {
    Location::parse(s).expect("well-formed location")
}

#[test]
fn parse_simple_host() {
    let l = loc("gemini://example.com");
    assert_eq!(l.host, "example.com");
    assert_eq!(l.port, None);
    assert_eq!(l.path, None);
    assert_eq!(l.query, None);
    assert_eq!(l.to_text(), "gemini://example.com");
}

#[test]
fn parse_full_address() {
    let l = loc("gemini://rawtext.club:1965/~sloum/spacewalk.gmi");
    assert_eq!(l.host, "rawtext.club");
    assert_eq!(l.port, Some(1965));
    assert_eq!(l.path.as_deref(), Some("/~sloum/spacewalk.gmi"));
    assert_eq!(l.to_text(), "gemini://rawtext.club:1965/~sloum/spacewalk.gmi");
}

#[test]
fn parse_query() {
    let l = loc("gemini://h/search?term=1#frag");
    assert_eq!(l.path.as_deref(), Some("/search"));
    assert_eq!(l.query.as_deref(), Some("term=1#frag"));
    assert_eq!(l.to_text(), "gemini://h/search?term=1#frag");
}

#[test]
fn parse_missing_scheme() {
    assert!(matches!(Location::parse("example.com"), Err(LocationParseError::MissingScheme)));
    assert!(matches!(Location::parse(""), Err(LocationParseError::MissingScheme)));
    assert!(matches!(Location::parse("https://example.com"), Err(LocationParseError::MissingScheme)));
}

#[test]
fn parse_missing_host() {
    assert!(matches!(Location::parse("gemini://"), Err(LocationParseError::MissingHost)));
    assert!(matches!(Location::parse("gemini://:1965/x"), Err(LocationParseError::MissingHost)));
}

#[test]
fn parse_invalid_port() {
    assert!(matches!(Location::parse("gemini://h:abc/x"), Err(LocationParseError::InvalidPort)));
    assert!(matches!(Location::parse("gemini://h:70000/x"), Err(LocationParseError::InvalidPort)));
    assert!(matches!(Location::parse("gemini://h:+/x"), Err(LocationParseError::InvalidPort)));
}

#[test]
fn parse_port_edge_forms() {
    // An empty port is dropped; leading zeros and a plus sign are
    // canonicalized away in the string form.
    assert_eq!(loc("gemini://h:/x").to_text(), "gemini://h/x");
    assert_eq!(loc("gemini://h:0042/x").to_text(), "gemini://h:42/x");
    assert_eq!(loc("gemini://h:+42/x").to_text(), "gemini://h:42/x");
    assert_eq!(loc("gemini://h:0/x").port, Some(0));
    assert_eq!(loc("gemini://h:65535/x").port, Some(65535));
}

#[test]
fn scope_filter_external_schemes() {
    let base = loc("gemini://host/a/");
    assert!(matches!(resolve(&base, "gopher://old.example/1"), Err(ResolveError::OutOfScope)));
    assert!(matches!(resolve(&base, "http://web.example/"), Err(ResolveError::OutOfScope)));
    assert!(matches!(resolve(&base, "https://web.example/"), Err(ResolveError::OutOfScope)));
}

#[test]
fn scope_filter_in_scope_links_resolve() {
    let base = loc("gemini://host/a/");
    assert!(resolve(&base, "b.gmi").is_ok());
    assert!(resolve(&base, "gemini://other.example/").is_ok());
    assert!(resolve(&base, "/rooted.gmi").is_ok());
}

#[test]
fn relative_merge_literal_dot_segments() {
    // Dot segments stay literal: no normalization of the merged path.
    let base = loc("gemini://host/~user/gemlog/");
    let r = resolve(&base, "../old-gemlogs.gmi").unwrap();
    assert_eq!(r.to_text(), "gemini://host/~user/gemlog/../old-gemlogs.gmi");
}

#[test]
fn absolute_replace() {
    let base = loc("gemini://host/a/");
    let r = resolve(&base, "gemini://other/x").unwrap();
    assert_eq!(r.to_text(), "gemini://other/x");
    assert_eq!(r.host, "other");
}

#[test]
fn relative_merge_drops_file_segment() {
    let base = loc("gemini://host/dir/page.gmi");
    let r = resolve(&base, "next.gmi").unwrap();
    assert_eq!(r.to_text(), "gemini://host/dir/next.gmi");
}

#[test]
fn relative_merge_onto_directory() {
    let base = loc("gemini://gemini.circumlunar.space/");
    let r = resolve(&base, "news/").unwrap();
    assert_eq!(r.to_text(), "gemini://gemini.circumlunar.space/news/");
}

#[test]
fn relative_merge_absolute_path_replaces() {
    let base = loc("gemini://host/a/b/c.gmi");
    let r = resolve(&base, "/top.gmi").unwrap();
    assert_eq!(r.to_text(), "gemini://host/top.gmi");
}

#[test]
fn relative_merge_empty_text_keeps_path() {
    let base = loc("gemini://host/a/b.gmi");
    let r = resolve(&base, "").unwrap();
    assert_eq!(r.to_text(), "gemini://host/a/b.gmi");
}

#[test]
fn relative_merge_without_base_path() {
    // A base with no path at all takes the relative text as its entire
    // path, which the canonical form appends as it stands.
    let base = loc("gemini://host");
    let r = resolve(&base, "a.gmi").unwrap();
    assert_eq!(r.path.as_deref(), Some("a.gmi"));
    assert_eq!(r.to_text(), "gemini://hosta.gmi");
}

#[test]
fn relative_merge_keeps_port_and_query() {
    let base = loc("gemini://host:1965/dir/?q");
    let r = resolve(&base, "x.gmi").unwrap();
    assert_eq!(r.to_text(), "gemini://host:1965/dir/x.gmi?q");
}

#[test]
fn resolve_malformed_in_scheme_link() {
    let base = loc("gemini://host/");
    assert!(matches!(
        resolve(&base, "gemini://"),
        Err(ResolveError::Malformed(LocationParseError::MissingHost))
    ));
    assert!(matches!(
        resolve(&base, "gemini://h:bad/"),
        Err(ResolveError::Malformed(LocationParseError::InvalidPort))
    ));
}
