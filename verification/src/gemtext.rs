//! Link extraction from gemtext markup.
//!
//! The markup parser is an external collaborator: [`parse_gemtext_nodes`]
//! calls it behind a trusted contract that names its result. Everything
//! after the parse — picking out link nodes, filtering links that leave
//! the crawlable space, resolving the rest against the page's own
//! location and serializing them canonically — is verified, and stands in
//! [`links_from_nodes`] so that it is specified exactly in terms of the
//! parsed nodes. [`get_links`] ties the two together.

use vstd::prelude::*;

use crate::location::{Location, LocView, ResolveError, resolve, resolve_view, loc_text};
use crate::text::{chars_of, first_occ, lemma_first_occ, starts_with};

verus! {

/// One line of parsed gemtext markup. Only link nodes matter to the
/// crawler; the other kinds are carried through untouched.
pub enum Node {
    /// A plain text line.
    Text(String),
    /// A link: target text and an optional human-readable label.
    Link(String, Option<String>),
    /// A heading.
    Heading(String),
    /// A second-level heading.
    SubHeading(String),
    /// A third-level heading.
    SubSubHeading(String),
    /// A list item.
    ListItem(String),
    /// A block quote.
    Blockquote(String),
    /// A preformatted block: its text and an optional format tag.
    Preformatted(String, Option<String>),
    /// An empty line.
    EmptyLine,
}

/// The link target carried by a node, if it is a link node.
pub open spec fn link_target_of(n: Node) -> Option<Seq<char>> {
    match n {
        Node::Link(t, _) => Some(t@),
        _ => None,
    }
}

/// The link targets of a node sequence, in page order.
pub open spec fn link_targets_of(nodes: Seq<Node>) -> Seq<Seq<char>>
    decreases nodes.len(),
{
    if nodes.len() == 0 {
        Seq::<Seq<char>>::empty()
    } else {
        link_targets_of(nodes.drop_last()) + (match link_target_of(nodes.last()) {
            Some(t) => seq![t],
            None => Seq::<Seq<char>>::empty(),
        })
    }
}

/// The backtick fence that opens and closes a preformatted block.
pub open spec fn fence() -> Seq<char> {
    seq!['`', '`', '`']
}

/// Position right after the line that starts at `start`: past the next
/// newline, or past the end of the text when no newline follows.
pub open spec fn next_line_start(s: Seq<char>, start: int) -> int {
    match first_occ(s.skip(start), '\n') {
        Some(k) => start + k + 1,
        None => s.len() as int + 1,
    }
}

/// The content of the line that starts at `start`: up to the next
/// newline, with one trailing carriage return stripped. One corner is
/// modeled strictly: the carriage return is stripped even on a final line
/// that no newline ends, so text ending in a bare marker and a carriage
/// return counts as a marker line. That errs only towards rejecting a
/// page, never towards handing the parser a line it cannot survive.
pub open spec fn line_at(s: Seq<char>, start: int) -> Seq<char> {
    let raw = match first_occ(s.skip(start), '\n') {
        Some(k) => s.subrange(start, start + k),
        None => s.skip(start),
    };
    if raw.len() > 0 && raw.last() == '\r' {
        raw.drop_last()
    } else {
        raw
    }
}

/// A line of exactly one marker character, on which the markup parser
/// does not return when it reads the line outside a preformatted block.
pub open spec fn is_marker_line(c: Seq<char>) -> bool {
    c == seq!['='] || c == seq!['*'] || c == seq!['>']
}

/// Whether the markup parser, reading on from the line at `start` with
/// the preformatted flag `in_pre`, reaches a bare `=`, `*` or `>` line
/// outside a preformatted block. Inside a block, lines are taken as raw
/// text and only a fence line leaves the block; outside, a fence line
/// enters one.
pub open spec fn panics_from(s: Seq<char>, start: int, in_pre: bool) -> bool
    decreases s.len() + 1 - start,
        via panics_from_decreases
{
    if start >= s.len() || start < 0 {
        false
    } else if in_pre {
        panics_from(s, next_line_start(s, start), !starts_with(line_at(s, start), fence()))
    } else if is_marker_line(line_at(s, start)) {
        true
    } else {
        panics_from(s, next_line_start(s, start), starts_with(line_at(s, start), fence()))
    }
}

#[via_fn]
proof fn panics_from_decreases(s: Seq<char>, start: int, in_pre: bool) {
    lemma_first_occ(s.skip(start), '\n');
}

/// Page text on which the markup parser does not return: somewhere it
/// holds a line of exactly `=`, `*` or `>` outside any preformatted
/// block. Such a page is reported as malformed rather than parsed.
pub open spec fn has_panic_line(s: Seq<char>) -> bool {
    panics_from(s, 0, false)
}

/// Whether `v` holds a line the markup parser does not survive, exactly
/// as [`has_panic_line`] describes.
fn find_panic_line(v: &Vec<char>) -> (r: bool)
    ensures
        r == has_panic_line(v@),
{
    let mut start: usize = 0;
    let mut in_pre: bool = false;
    while start < v.len()
        invariant
            start <= v@.len(),
            has_panic_line(v@) == panics_from(v@, start as int, in_pre),
        decreases v@.len() - start,
    {
        let mut e: usize = start;
        while e < v.len() && v[e] != '\n'
            invariant
                start <= e <= v@.len(),
                forall|m: int| start <= m < e ==> v@[m] != '\n',
            decreases v@.len() - e,
        {
            e = e + 1;
        }
        proof {
            lemma_first_occ(v@.skip(start as int), '\n');
            assert forall|j: int| 0 <= j < e - start implies v@.skip(start as int)[j] != '\n' by {
                assert(v@.skip(start as int)[j] == v@[start + j]);
            }
            if e < v@.len() {
                assert(v@.skip(start as int)[e - start] == '\n');
                assert(first_occ(v@.skip(start as int), '\n') == Some(e - start));
            } else {
                assert(first_occ(v@.skip(start as int), '\n') is None) by {
                    if first_occ(v@.skip(start as int), '\n') is Some {
                        let k = first_occ(v@.skip(start as int), '\n')->0;
                        assert(v@.skip(start as int)[k] != '\n');
                    }
                }
            }
        }
        let ce: usize = if e > start && v[e - 1] == '\r' {
            e - 1
        } else {
            e
        };
        let ghost c = line_at(v@, start as int);
        proof {
            if e < v@.len() {
                assert(v@.subrange(start as int, e as int) =~= v@.skip(start as int).subrange(
                    0,
                    e - start,
                ));
            } else {
                assert(v@.skip(start as int) =~= v@.subrange(start as int, e as int));
            }
            assert(c =~= v@.subrange(start as int, ce as int));
        }
        let is_marker = ce - start == 1 && (v[start] == '=' || v[start] == '*' || v[start]
            == '>');
        proof {
            if ce - start == 1 {
                assert(c.len() == 1 && c[0] == v@[start as int]);
                assert(c == seq!['='] <==> v@[start as int] == '=') by {
                    if v@[start as int] == '=' {
                        assert(c =~= seq!['=']);
                    }
                }
                assert(c == seq!['*'] <==> v@[start as int] == '*') by {
                    if v@[start as int] == '*' {
                        assert(c =~= seq!['*']);
                    }
                }
                assert(c == seq!['>'] <==> v@[start as int] == '>') by {
                    if v@[start as int] == '>' {
                        assert(c =~= seq!['>']);
                    }
                }
            }
            assert(is_marker == is_marker_line(c));
        }
        let is_fence = ce - start >= 3 && v[start] == '`' && v[start + 1] == '`' && v[start + 2]
            == '`';
        proof {
            if ce - start >= 3 {
                assert(starts_with(c, fence()) <==> (v@[start as int] == '`' && v@[start + 1]
                    == '`' && v@[start + 2] == '`')) by {
                    if v@[start as int] == '`' && v@[start + 1] == '`' && v@[start + 2] == '`' {
                        assert(c.subrange(0, 3) =~= fence());
                    } else {
                        assert(c.subrange(0, 3) != fence()) by {
                            if c.subrange(0, 3) == fence() {
                                assert(c.subrange(0, 3)[0] == '`' && c.subrange(0, 3)[1] == '`'
                                    && c.subrange(0, 3)[2] == '`');
                            }
                        }
                    }
                }
            }
            assert(is_fence == starts_with(c, fence()));
        }
        if in_pre {
            in_pre = !is_fence;
        } else if is_marker {
            proof {
                assert(panics_from(v@, start as int, false));
            }
            return true;
        } else {
            in_pre = is_fence;
        }
        if e == v.len() {
            proof {
                assert(next_line_start(v@, start as int) == v@.len() + 1);
                assert(!panics_from(v@, v@.len() as int + 1, in_pre));
            }
            return false;
        }
        proof {
            assert(next_line_start(v@, start as int) == e + 1);
        }
        start = e + 1;
    }
    proof {
        assert(!panics_from(v@, start as int, in_pre));
    }
    false
}

/// The sequence of link targets that the markup parser finds in a page;
/// a function of the page text alone.
pub uninterp spec fn gemtext_links(page: Seq<char>) -> Seq<Seq<char>>;

/// Relies on `gmi::gemtext::parse_gemtext`: parses page text into one
/// node per markup line, a pure function of the text. The precondition
/// keeps out the pages on which that parser does not return: those with a
/// bare `=`, `*` or `>` line outside a preformatted block. Each parsed
/// node is carried over one for one.
#[verifier::external_body]
pub(crate) fn parse_gemtext_nodes(page: &str) -> (r: Vec<Node>)
    requires
        !has_panic_line(page@),
    ensures
        link_targets_of(r@) == gemtext_links(page@),
{
    let mut out = Vec::new();
    for n in gmi::gemtext::parse_gemtext(page) {
        out.push(match n {
            gmi::gemtext::GemtextNode::Text(s) => Node::Text(s),
            gmi::gemtext::GemtextNode::Link(t, l) => Node::Link(t, l),
            gmi::gemtext::GemtextNode::Heading(s) => Node::Heading(s),
            gmi::gemtext::GemtextNode::SubHeading(s) => Node::SubHeading(s),
            gmi::gemtext::GemtextNode::SubSubHeading(s) => Node::SubSubHeading(s),
            gmi::gemtext::GemtextNode::ListItem(s) => Node::ListItem(s),
            gmi::gemtext::GemtextNode::Blockquote(s) => Node::Blockquote(s),
            gmi::gemtext::GemtextNode::Preformatted(s, l) => Node::Preformatted(s, l),
            gmi::gemtext::GemtextNode::EmptyLine => Node::EmptyLine,
        });
    }
    out
}

/// Why a page yields no links.
#[derive(Clone, Copy, Debug, PartialEq, Eq, Structural)]
pub enum ExtractError {
    /// The page holds a line that the markup parser cannot survive.
    MalformedPage,
    /// A link claims the crawlable scheme but is not a well-formed
    /// address.
    MalformedLink,
}

/// The canonical strings of the in-scope links among `targets`, resolved
/// against `base` and in page order; or a failure if some target claims
/// the crawlable scheme but is malformed.
pub open spec fn extract_links(base: LocView, targets: Seq<Seq<char>>) -> Result<
    Seq<Seq<char>>,
    ExtractError,
>
    decreases targets.len(),
{
    if targets.len() == 0 {
        Ok(Seq::<Seq<char>>::empty())
    } else {
        match extract_links(base, targets.drop_last()) {
            Err(e) => Err(e),
            Ok(rest) => match resolve_view(base, targets.last()) {
                Ok(l) => Ok(rest.push(loc_text(l))),
                Err(ResolveError::OutOfScope) => Ok(rest),
                Err(ResolveError::Malformed(_)) => Err(ExtractError::MalformedLink),
            },
        }
    }
}

/// Resolves the link targets of parsed nodes against the base location,
/// exactly as [`extract_links`] describes: out-of-scope links are
/// silently filtered, the rest are returned in page order in canonical
/// string form, and a malformed in-scheme link fails the whole page.
pub fn links_from_nodes(base: &Location, nodes: &Vec<Node>) -> (r: Result<Vec<String>, ExtractError>)
    ensures
        match r {
            Ok(links) => extract_links(base@, link_targets_of(nodes@)) == Ok::<_, ExtractError>(
                links@.map_values(|s: String| s@),
            ),
            Err(e) => extract_links(base@, link_targets_of(nodes@)) == Err::<Seq<Seq<char>>, _>(e),
        },
{
    let mut out: Vec<String> = Vec::new();
    let mut i: usize = 0;
    proof {
        assert(nodes@.take(0int) =~= Seq::<Node>::empty());
        assert(out@.map_values(|s: String| s@) =~= Seq::<Seq<char>>::empty());
    }
    while i < nodes.len()
        invariant
            i <= nodes@.len(),
            extract_links(base@, link_targets_of(nodes@.take(i as int))) == Ok::<_, ExtractError>(
                out@.map_values(|s: String| s@),
            ),
        decreases nodes@.len() - i,
    {
        let ghost prev = nodes@.take(i as int);
        let ghost rest = out@.map_values(|s: String| s@);
        let n = &nodes[i];
        proof {
            assert(nodes@.take(i + 1).drop_last() =~= prev);
            assert(nodes@.take(i + 1).last() == nodes@[i as int]);
        }
        match n {
            Node::Link(t, _) => {
                let ghost ts = link_targets_of(nodes@.take(i + 1));
                proof {
                    assert(ts =~= link_targets_of(prev).push(t@));
                    assert(ts.drop_last() =~= link_targets_of(prev));
                    assert(ts.last() == t@);
                }
                match resolve(base, t.as_str()) {
                    Ok(l) => {
                        let text = l.to_text();
                        out.push(text);
                        proof {
                            assert(extract_links(base@, ts) == Ok::<_, ExtractError>(
                                rest.push(loc_text(l@)),
                            ));
                            assert(out@.map_values(|s: String| s@) =~= rest.push(loc_text(l@)));
                        }
                    },
                    Err(ResolveError::OutOfScope) => {
                        proof {
                            assert(extract_links(base@, ts) == Ok::<_, ExtractError>(rest));
                        }
                    },
                    Err(ResolveError::Malformed(_)) => {
                        proof {
                            assert(extract_links(base@, ts) == Err::<Seq<Seq<char>>, _>(
                                ExtractError::MalformedLink,
                            ));
                            lemma_extract_links_err(base@, nodes@, i as int);
                        }
                        return Err(ExtractError::MalformedLink);
                    },
                }
            },
            _ => {
                proof {
                    assert(link_targets_of(nodes@.take(i + 1)) =~= link_targets_of(prev));
                }
            },
        }
        i = i + 1;
    }
    proof {
        assert(nodes@.take(nodes@.len() as int) =~= nodes@);
    }
    Ok(out)
}

/// Once a prefix of the targets fails to extract, the whole sequence
/// fails the same way.
proof fn lemma_extract_links_prefix_err(base: LocView, targets: Seq<Seq<char>>, i: int)
    requires
        0 <= i <= targets.len(),
        extract_links(base, targets.take(i)) is Err,
    ensures
        extract_links(base, targets) == extract_links(base, targets.take(i)),
    decreases targets.len() - i,
{
    if i < targets.len() {
        assert(targets.take(i + 1).drop_last() =~= targets.take(i));
        lemma_extract_links_prefix_err(base, targets, i + 1);
    } else {
        assert(targets.take(i) =~= targets);
    }
}

/// A malformed in-scheme link target at node `i` fails extraction of the
/// whole node sequence.
proof fn lemma_extract_links_err(base: LocView, nodes: Seq<Node>, i: int)
    requires
        0 <= i < nodes.len(),
        extract_links(base, link_targets_of(nodes.take(i + 1))) is Err,
    ensures
        extract_links(base, link_targets_of(nodes)) == extract_links(
            base,
            link_targets_of(nodes.take(i + 1)),
        ),
    decreases nodes.len() - i,
{
    if i + 1 < nodes.len() {
        assert(nodes.take(i + 2).drop_last() =~= nodes.take(i + 1));
        let ts = link_targets_of(nodes.take(i + 2));
        assert(ts.drop_last() == link_targets_of(nodes.take(i + 1)) || ts =~= link_targets_of(
            nodes.take(i + 1),
        )) by {
            match link_target_of(nodes.take(i + 2).last()) {
                Some(t) => {
                    assert(ts =~= link_targets_of(nodes.take(i + 1)).push(t));
                    assert(ts.drop_last() =~= link_targets_of(nodes.take(i + 1)));
                },
                None => {
                    assert(ts =~= link_targets_of(nodes.take(i + 1)));
                },
            }
        }
        assert(extract_links(base, ts) is Err && extract_links(base, ts) == extract_links(
            base,
            link_targets_of(nodes.take(i + 1)),
        )) by {
            match link_target_of(nodes.take(i + 2).last()) {
                Some(t) => {},
                None => {},
            }
        }
        lemma_extract_links_err(base, nodes, i + 1);
    } else {
        assert(nodes.take(i + 1) =~= nodes);
    }
}

/// Extracts the in-scope links of a page of gemtext markup, resolved
/// against the page's own location: the parser's link targets run through
/// [`extract_links`]. A page with a line the parser cannot survive is
/// reported malformed instead of parsed; a malformed in-scheme link fails
/// the page; either failure is per page and leaves the caller free to go
/// on.
pub fn get_links(base: &Location, page: &str) -> (r: Result<Vec<String>, ExtractError>)
    ensures
        match r {
            Ok(links) => !has_panic_line(page@) && extract_links(base@, gemtext_links(page@))
                == Ok::<_, ExtractError>(links@.map_values(|s: String| s@)),
            Err(ExtractError::MalformedPage) => has_panic_line(page@),
            Err(ExtractError::MalformedLink) => !has_panic_line(page@) && extract_links(
                base@,
                gemtext_links(page@),
            ) == Err::<Seq<Seq<char>>, _>(ExtractError::MalformedLink),
        },
{
    let cs = chars_of(page);
    if find_panic_line(&cs) {
        return Err(ExtractError::MalformedPage);
    }
    let nodes = parse_gemtext_nodes(page);
    let r = links_from_nodes(base, &nodes);
    proof {
        lemma_extract_err_kind(base@, link_targets_of(nodes@));
    }
    r
}

/// Extraction fails only on a malformed in-scheme link.
proof fn lemma_extract_err_kind(base: LocView, targets: Seq<Seq<char>>)
    ensures
        extract_links(base, targets) is Err ==> extract_links(base, targets) == Err::<
            Seq<Seq<char>>,
            ExtractError,
        >(ExtractError::MalformedLink),
    decreases targets.len(),
{
    if targets.len() > 0 {
        lemma_extract_err_kind(base, targets.drop_last());
    }
}

} // verus!
