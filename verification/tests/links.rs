//! Link extraction from gemtext pages.

use gemcrawl::gemtext::{ExtractError, Node, get_links, links_from_nodes};
use gemcrawl::location::Location;

fn loc(s: &str) -> Location {
    Location::parse(s).expect("well-formed location")
}

#[test]
fn test_get_links() {
    let url = loc("gemini://gemini.circumlunar.space/~solderpunk/gemlog/");
    let page = "# A gemlog\n\
                => ../old-gemlogs.gmi Old gemlogs\n\
                => atom.xml Atom feed\n\
                => franken-peugeot-updates.gmi A bicycle\n\
                => gemini-mailing-list-down.gmi The list\n\
                => green-days-in-brunei.gmi Green days\n";
    let links = get_links(&url, page).unwrap();
    let expected_links = [
        "gemini://gemini.circumlunar.space/~solderpunk/gemlog/../old-gemlogs.gmi",
        "gemini://gemini.circumlunar.space/~solderpunk/gemlog/atom.xml",
        "gemini://gemini.circumlunar.space/~solderpunk/gemlog/franken-peugeot-updates.gmi",
        "gemini://gemini.circumlunar.space/~solderpunk/gemlog/gemini-mailing-list-down.gmi",
        "gemini://gemini.circumlunar.space/~solderpunk/gemlog/green-days-in-brunei.gmi",
    ];
    assert_eq!(links, expected_links);

    let url = loc("gemini://gemini.circumlunar.space/");
    let page = "# Project Gemini\n\
                => news/ News\n\
                => docs/ Documentation\n\
                => software/ Software\n\
                => servers/ Servers\n\
                => gemini://gemini.conman.org/test/torture/ Torture test\n\
                => gemini://geminispace.info/ Search\n\
                => capcom/ CAPCOM\n\
                => gemini://rawtext.club:1965/~sloum/spacewalk.gmi Spacewalk\n\
                => gemini://calcuode.com/gmisub-aggregate.gmi Gmisub\n\
                => gemini://caracolito.mooo.com/deriva/ Deriva\n\
                => gemini://gempaper.strangled.net/mirrorlist/ A mirror\n\
                => users/ Users\n";
    let links = get_links(&url, page).unwrap();
    let expected_links = [
        "gemini://gemini.circumlunar.space/news/",
        "gemini://gemini.circumlunar.space/docs/",
        "gemini://gemini.circumlunar.space/software/",
        "gemini://gemini.circumlunar.space/servers/",
        "gemini://gemini.conman.org/test/torture/",
        "gemini://geminispace.info/",
        "gemini://gemini.circumlunar.space/capcom/",
        "gemini://rawtext.club:1965/~sloum/spacewalk.gmi",
        "gemini://calcuode.com/gmisub-aggregate.gmi",
        "gemini://caracolito.mooo.com/deriva/",
        "gemini://gempaper.strangled.net/mirrorlist/",
        "gemini://gemini.circumlunar.space/users/",
    ];
    assert_eq!(links, expected_links);
}

#[test]
fn external_links_are_filtered() {
    let url = loc("gemini://host/~u/gemlog/");
    let page = "=> franken.gmi Franken\n\
                => https://external.example/ The web\n\
                => gopher://hole.example/1 A hole\n\
                => http://plain.example/ Plain web\n\
                => ../old-gemlogs.gmi Old\n";
    let links = get_links(&url, page).unwrap();
    let expected = [
        "gemini://host/~u/gemlog/franken.gmi",
        "gemini://host/~u/gemlog/../old-gemlogs.gmi",
    ];
    assert_eq!(links, expected);
}

#[test]
fn link_without_label() {
    let url = loc("gemini://host/");
    let links = get_links(&url, "=> bare.gmi\n").unwrap();
    assert_eq!(links, ["gemini://host/bare.gmi"]);
}

#[test]
fn page_without_links() {
    let url = loc("gemini://host/");
    let page = "# Heading\nplain text\n* list item\n> quote\n\n";
    let links = get_links(&url, page).unwrap();
    assert!(links.is_empty());
}

#[test]
fn duplicate_links_are_kept_in_page_order() {
    // No page-local deduplication: collapsing duplicates is the claim's
    // job alone.
    let url = loc("gemini://host/");
    let page = "=> a.gmi first\n=> a.gmi second\n";
    let links = get_links(&url, page).unwrap();
    assert_eq!(links, ["gemini://host/a.gmi", "gemini://host/a.gmi"]);
}

#[test]
fn malformed_in_scheme_link_fails_the_page() {
    let url = loc("gemini://host/");
    let r = get_links(&url, "=> gemini:// broken\n");
    assert_eq!(r, Err(ExtractError::MalformedLink));
}

#[test]
fn bare_marker_line_fails_the_page() {
    let url = loc("gemini://host/");
    assert_eq!(get_links(&url, "some text\n=\nmore\n"), Err(ExtractError::MalformedPage));
    assert_eq!(get_links(&url, "*"), Err(ExtractError::MalformedPage));
    assert_eq!(get_links(&url, ">\r\n"), Err(ExtractError::MalformedPage));
}

#[test]
fn marker_inside_preformatted_is_fine() {
    // Inside a fenced block the parser takes lines as raw text, so bare
    // marker lines there are harmless.
    let url = loc("gemini://host/");
    let page = "```\n=\n*\n>\n```\n=> a.gmi\n";
    assert_eq!(get_links(&url, page).unwrap(), ["gemini://host/a.gmi"]);
}

#[test]
fn marker_inside_text_is_fine() {
    let url = loc("gemini://host/");
    let page = "a = b\n=> x.gmi\n == \n";
    assert_eq!(get_links(&url, page).unwrap(), ["gemini://host/x.gmi"]);
}

#[test]
fn links_from_nodes_picks_link_nodes_only() {
    let url = loc("gemini://host/dir/");
    let nodes = vec![
        Node::Heading("title".to_string()),
        Node::Link("a.gmi".to_string(), Some("a label".to_string())),
        Node::Text("=> not-a-link.gmi inside text".to_string()),
        Node::Link("https://out.example/".to_string(), None),
        Node::Link("gemini://other.example/x".to_string(), None),
        Node::EmptyLine,
    ];
    let links = links_from_nodes(&url, &nodes).unwrap();
    assert_eq!(links, ["gemini://host/dir/a.gmi", "gemini://other.example/x"]);
}
