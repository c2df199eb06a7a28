//! Absolute locations in the crawlable content space.
//!
//! A [`Location`] is an address under the fixed `gemini://` scheme: a host,
//! an optional port, an optional path and an optional query. Its canonical
//! string form (see [`Location::to_text`]) is the identity used for
//! deduplication. [`resolve`] turns raw link text found in a page into an
//! absolute location, rejecting links that leave the crawlable space and
//! merging relative references onto the base location's directory without
//! normalizing dot segments.

use vstd::prelude::*;

use crate::text::{
    starts_with, first_occ, last_occ, chars_of, string_of, has_prefix, find_char, rfind_char,
    sub_vec, append_chars, append_str_chars,
};

verus! {

/// The fixed scheme prefix of every crawlable location.
pub open spec fn scheme_prefix() -> Seq<char> {
    seq!['g', 'e', 'm', 'i', 'n', 'i', ':', '/', '/']
}

/// The prefix that marks a link into the legacy menu protocol.
pub open spec fn gopher_prefix() -> Seq<char> {
    seq!['g', 'o', 'p', 'h', 'e', 'r', ':', '/', '/']
}

/// The prefix that marks a link into the plain or secure web.
pub open spec fn web_prefix() -> Seq<char> {
    seq!['h', 't', 't', 'p']
}

/// Raw link text that points outside the crawlable space.
pub open spec fn is_external_ref(raw: Seq<char>) -> bool {
    starts_with(raw, gopher_prefix()) || starts_with(raw, web_prefix())
}

/// An absolute address in the crawlable content space.
pub struct Location {
    /// Host name of the authority.
    pub host: String,
    /// Optional port of the authority.
    pub port: Option<u16>,
    /// Optional path; when it comes from a parsed address it begins with `/`.
    pub path: Option<String>,
    /// Optional query, without its leading `?`.
    pub query: Option<String>,
}

/// The mathematical value of a [`Location`].
#[verifier::ext_equal]
pub ghost struct LocView {
    pub host: Seq<char>,
    pub port: Option<u16>,
    pub path: Option<Seq<char>>,
    pub query: Option<Seq<char>>,
}

impl View for Location {
    type V = LocView;

    open spec fn view(&self) -> LocView {
        LocView {
            host: self.host@,
            port: self.port,
            path: match self.path {
                Some(p) => Some(p@),
                None => None,
            },
            query: match self.query {
                Some(q) => Some(q@),
                None => None,
            },
        }
    }
}

/// Why a string is not a well-formed location.
#[derive(Clone, Copy, Debug, PartialEq, Eq, Structural)]
pub enum LocationParseError {
    /// The string does not begin with the crawlable scheme prefix.
    MissingScheme,
    /// The authority has no host in front of the port separator.
    MissingHost,
    /// The text after the port separator is not a decimal port number.
    InvalidPort,
}

/// A decimal digit.
pub open spec fn is_digit(c: char) -> bool {
    '0' <= c && c <= '9'
}

/// The value of a decimal digit.
pub open spec fn digit_val(c: char) -> nat {
    (c as nat - '0' as nat) as nat
}

/// Every character of `s` is a decimal digit.
pub open spec fn all_digits(s: Seq<char>) -> bool {
    forall|i: int| 0 <= i < s.len() ==> is_digit(s[i])
}

/// The value of the decimal digit string `s`.
pub open spec fn digits_val(s: Seq<char>) -> nat
    decreases s.len(),
{
    if s.len() == 0 {
        0
    } else {
        digits_val(s.drop_last()) * 10 + digit_val(s.last())
    }
}

/// The port encoded by `s`: an optional plus sign, then at least one
/// decimal digit, with a value that fits in sixteen bits.
pub open spec fn parse_port(s: Seq<char>) -> Option<u16> {
    let t = if s.len() > 0 && s[0] == '+' {
        s.drop_first()
    } else {
        s
    };
    if t.len() == 0 || !all_digits(t) {
        None
    } else if digits_val(t) > 0xffff {
        None
    } else {
        Some(digits_val(t) as u16)
    }
}

/// The text after the scheme prefix.
pub open spec fn after_scheme(s: Seq<char>) -> Seq<char> {
    s.skip(scheme_prefix().len() as int)
}

/// The authority part: everything after the scheme up to the first slash.
pub open spec fn auth_of(s: Seq<char>) -> Seq<char> {
    match first_occ(after_scheme(s), '/') {
        Some(i) => after_scheme(s).take(i),
        None => after_scheme(s),
    }
}

/// The path-and-query tail: from the first slash after the scheme onward.
pub open spec fn tail_of(s: Seq<char>) -> Option<Seq<char>> {
    match first_occ(after_scheme(s), '/') {
        Some(i) => Some(after_scheme(s).skip(i)),
        None => None,
    }
}

/// The host part of the authority.
pub open spec fn host_of(s: Seq<char>) -> Seq<char> {
    match first_occ(auth_of(s), ':') {
        Some(k) => auth_of(s).take(k),
        None => auth_of(s),
    }
}

/// The port text of the authority, after the colon.
pub open spec fn port_text_of(s: Seq<char>) -> Option<Seq<char>> {
    match first_occ(auth_of(s), ':') {
        Some(k) => Some(auth_of(s).skip(k + 1)),
        None => None,
    }
}

/// The path part of the tail, up to the first question mark.
pub open spec fn path_of(s: Seq<char>) -> Option<Seq<char>> {
    match tail_of(s) {
        None => None,
        Some(pq) => match first_occ(pq, '?') {
            Some(j) => Some(pq.take(j)),
            None => Some(pq),
        },
    }
}

/// The query part of the tail, after the first question mark.
pub open spec fn query_of(s: Seq<char>) -> Option<Seq<char>> {
    match tail_of(s) {
        None => None,
        Some(pq) => match first_occ(pq, '?') {
            Some(j) => Some(pq.skip(j + 1)),
            None => None,
        },
    }
}

/// The location denoted by `s`, if `s` is a well-formed absolute address
/// in the crawlable scheme.
pub open spec fn parse_loc(s: Seq<char>) -> Option<LocView> {
    if !starts_with(s, scheme_prefix()) {
        None
    } else if host_of(s).len() == 0 {
        None
    } else {
        match port_text_of(s) {
            None => Some(
                LocView { host: host_of(s), port: None, path: path_of(s), query: query_of(s) },
            ),
            Some(pt) => if pt.len() == 0 {
                Some(LocView { host: host_of(s), port: None, path: path_of(s), query: query_of(s) })
            } else {
                match parse_port(pt) {
                    Some(p) => Some(
                        LocView {
                            host: host_of(s),
                            port: Some(p),
                            path: path_of(s),
                            query: query_of(s),
                        },
                    ),
                    None => None,
                }
            },
        }
    }
}

/// The error reported when `s` is not a well-formed address.
pub open spec fn parse_error_of(s: Seq<char>) -> LocationParseError {
    if !starts_with(s, scheme_prefix()) {
        LocationParseError::MissingScheme
    } else if host_of(s).len() == 0 {
        LocationParseError::MissingHost
    } else {
        LocationParseError::InvalidPort
    }
}

/// The value of a digit prefix never exceeds the value of the whole digit
/// string.
proof fn lemma_digits_val_prefix(s: Seq<char>, i: int)
    requires
        0 <= i <= s.len(),
        all_digits(s),
    ensures
        digits_val(s.take(i)) <= digits_val(s),
    decreases s.len() - i,
{
    if i < s.len() {
        lemma_digits_val_prefix(s, i + 1);
        assert(s.take(i + 1).drop_last() =~= s.take(i));
        assert(digits_val(s.take(i + 1)) == digits_val(s.take(i)) * 10 + digit_val(s.take(i + 1).last()));
    } else {
        assert(s.take(i) =~= s);
    }
}

/// Parses the decimal port text `v`, as [`parse_port`] describes.
fn port_of_chars(v: &Vec<char>) -> (r: Option<u16>)
    ensures
        r == parse_port(v@),
{
    let ghost t: Seq<char> = if v@.len() > 0 && v@[0] == '+' {
        v@.drop_first()
    } else {
        v@
    };
    let start: usize = if v.len() > 0 && v[0] == '+' {
        1
    } else {
        0
    };
    if v.len() == start {
        return None;
    }
    let mut val: u32 = 0;
    let mut i: usize = start;
    while i < v.len()
        invariant
            start <= i <= v@.len(),
            start == if v@.len() > 0 && v@[0] == '+' { 1int } else { 0int },
            t == v@.skip(start as int),
            all_digits(t.take(i - start)),
            val == digits_val(t.take(i - start)),
            val <= 0xffff,
        decreases v@.len() - i,
    {
        let c = v[i];
        if c < '0' || c > '9' {
            proof {
                assert(t[i - start] == v@[i as int]);
                assert(!is_digit(t[i - start]));
                assert(!all_digits(t));
            }
            return None;
        }
        let d: u32 = c as u32 - '0' as u32;
        val = val * 10 + d;
        i = i + 1;
        proof {
            let w = t.take(i - start);
            assert(w.drop_last() =~= t.take(i - start - 1));
            assert(w.last() == t[i - start - 1]);
            assert(t[i - start - 1] == v@[i - 1]);
            assert(digit_val(v@[i - 1]) == d);
            assert(val == digits_val(w));
            assert forall|j: int| 0 <= j < w.len() implies is_digit(w[j]) by {
                if j < w.len() - 1 {
                    assert(w[j] == t.take(i - start - 1)[j]);
                }
            }
            assert(all_digits(w));
        }
        if val > 0xffff {
            proof {
                if start == 0 {
                    assert(v@.skip(0) =~= v@);
                }
                assert(t == (if v@.len() > 0 && v@[0] == '+' {
                    v@.drop_first()
                } else {
                    v@
                }));
                if all_digits(t) {
                    lemma_digits_val_prefix(t, i - start);
                    assert(digits_val(t) > 0xffff);
                }
                assert(parse_port(v@) is None);
            }
            return None;
        }
    }
    proof {
        assert(t.take(i - start) =~= t);
        assert(all_digits(t));
        assert(t.len() > 0);
        assert(parse_port(v@) == Some(val as u16));
    }
    Some(val as u16)
}

impl Location {
    /// Parses `s` as an absolute address in the crawlable scheme, exactly
    /// as [`parse_loc`] describes; on failure the error names the first
    /// missing or malformed part.
    pub fn parse(s: &str) -> (r: Result<Location, LocationParseError>)
        ensures
            match r {
                Ok(l) => parse_loc(s@) == Some(l@),
                Err(e) => parse_loc(s@) is None && e == parse_error_of(s@),
            },
    {
        let cs = chars_of(s);
        let scheme: Vec<char> = vec!['g', 'e', 'm', 'i', 'n', 'i', ':', '/', '/'];
        proof {
            assert(scheme@ =~= scheme_prefix());
        }
        if !has_prefix(&cs, &scheme) {
            return Err(LocationParseError::MissingScheme);
        }
        let rest = sub_vec(&cs, 9, cs.len());
        proof {
            assert(rest@ =~= after_scheme(s@));
        }
        let (auth, tail): (Vec<char>, Option<Vec<char>>) = match find_char(&rest, '/') {
            Some(i) => (sub_vec(&rest, 0, i), Some(sub_vec(&rest, i, rest.len()))),
            None => (rest, None),
        };
        proof {
            assert(auth@ == auth_of(s@));
        }
        let (path, query): (Option<Vec<char>>, Option<Vec<char>>) = match &tail {
            None => (None, None),
            Some(pq) => match find_char(pq, '?') {
                Some(j) => (Some(sub_vec(pq, 0, j)), Some(sub_vec(pq, j + 1, pq.len()))),
                None => (Some(sub_vec(pq, 0, pq.len())), None),
            },
        };
        proof {
            assert(match path {
                Some(p) => path_of(s@) == Some(p@),
                None => path_of(s@) is None,
            });
            assert(match query {
                Some(q) => query_of(s@) == Some(q@),
                None => query_of(s@) is None,
            });
            if tail is Some {
                assert(tail->0@ =~= tail_of(s@)->0);
            }
        }
        let (host, port_text): (Vec<char>, Option<Vec<char>>) = match find_char(&auth, ':') {
            Some(k) => {
                let h = sub_vec(&auth, 0, k);
                let pt = sub_vec(&auth, k + 1, auth.len());
                (h, Some(pt))
            },
            None => (auth, None),
        };
        proof {
            assert(host@ == host_of(s@));
        }
        if host.len() == 0 {
            return Err(LocationParseError::MissingHost);
        }
        let port: Option<u16> = match &port_text {
            None => None,
            Some(pt) => {
                if pt.len() == 0 {
                    None
                } else {
                    match port_of_chars(pt) {
                        Some(p) => Some(p),
                        None => {
                            return Err(LocationParseError::InvalidPort);
                        },
                    }
                }
            },
        };
        let path_s: Option<String> = match &path {
            Some(p) => Some(string_of(p)),
            None => None,
        };
        let query_s: Option<String> = match &query {
            Some(q) => Some(string_of(q)),
            None => None,
        };
        Ok(Location { host: string_of(&host), port, path: path_s, query: query_s })
    }
}

/// The character of a decimal digit value below ten.
pub open spec fn digit_char(d: nat) -> char {
    if d == 0 {
        '0'
    } else if d == 1 {
        '1'
    } else if d == 2 {
        '2'
    } else if d == 3 {
        '3'
    } else if d == 4 {
        '4'
    } else if d == 5 {
        '5'
    } else if d == 6 {
        '6'
    } else if d == 7 {
        '7'
    } else if d == 8 {
        '8'
    } else {
        '9'
    }
}

/// The decimal digit string of `n`, most significant digit first.
pub open spec fn dec_digits(n: nat) -> Seq<char>
    decreases n,
{
    if n < 10 {
        seq![digit_char(n)]
    } else {
        dec_digits(n / 10).push(digit_char(n % 10))
    }
}

/// The canonical string form of a location. This form is the identity
/// used by the deduplication store, so it is a pure function of the
/// location's parts.
pub open spec fn loc_text(l: LocView) -> Seq<char> {
    scheme_prefix() + l.host + (match l.port {
        Some(p) => seq![':'] + dec_digits(p as nat),
        None => Seq::<char>::empty(),
    }) + (match l.path {
        Some(p) => p,
        None => Seq::<char>::empty(),
    }) + (match l.query {
        Some(q) => seq!['?'] + q,
        None => Seq::<char>::empty(),
    })
}

/// The character of the decimal digit `d`.
fn digit_to_char(d: u32) -> (r: char)
    requires
        d < 10,
    ensures
        r == digit_char(d as nat),
{
    if d == 0 {
        '0'
    } else if d == 1 {
        '1'
    } else if d == 2 {
        '2'
    } else if d == 3 {
        '3'
    } else if d == 4 {
        '4'
    } else if d == 5 {
        '5'
    } else if d == 6 {
        '6'
    } else if d == 7 {
        '7'
    } else if d == 8 {
        '8'
    } else {
        '9'
    }
}

/// Appends the decimal digits of `n` to `out`.
fn push_decimal(out: &mut Vec<char>, n: u16)
    ensures
        final(out)@ == old(out)@ + dec_digits(n as nat),
    decreases n,
{
    if n < 10 {
        out.push(digit_to_char(n as u32));
    } else {
        push_decimal(out, n / 10);
        out.push(digit_to_char((n % 10) as u32));
    }
}

impl Location {
    /// The canonical string form, exactly [`loc_text`] of this location.
    pub fn to_text(&self) -> (r: String)
        ensures
            r@ == loc_text(self@),
    {
        let mut out: Vec<char> = vec!['g', 'e', 'm', 'i', 'n', 'i', ':', '/', '/'];
        proof {
            assert(out@ =~= scheme_prefix());
        }
        append_str_chars(&mut out, self.host.as_str());
        match &self.port {
            Some(p) => {
                out.push(':');
                push_decimal(&mut out, *p);
            },
            None => {},
        }
        match &self.path {
            Some(p) => append_str_chars(&mut out, p.as_str()),
            None => {},
        }
        match &self.query {
            Some(q) => {
                out.push('?');
                append_str_chars(&mut out, q.as_str());
            },
            None => {},
        }
        proof {
            assert(out@ =~= loc_text(self@));
        }
        string_of(&out)
    }
}

/// Why raw link text does not resolve to a crawlable location.
#[derive(Clone, Copy, Debug, PartialEq, Eq, Structural)]
pub enum ResolveError {
    /// The link points outside the crawlable space; it is filtered, never
    /// queued.
    OutOfScope,
    /// The link claims the crawlable scheme but is not a well-formed
    /// address.
    Malformed(LocationParseError),
}

/// The merge of relative path text `raw` onto the base path `base`: the
/// base directory (the base path up to and including its last slash)
/// followed by the raw text, with no dot-segment normalization. An
/// absolute raw path replaces the base path entirely; empty raw text
/// leaves it unchanged.
pub open spec fn merge_paths(base: Seq<char>, raw: Seq<char>) -> Seq<char> {
    if raw.len() == 0 {
        base
    } else if raw[0] == '/' {
        raw
    } else if base.len() == 0 {
        seq!['/'] + raw
    } else if base.last() == '/' {
        base + raw
    } else {
        match last_occ(base, '/') {
            Some(i) => base.take(i + 1) + raw,
            None => raw,
        }
    }
}

/// The location that raw link text denotes against a base location:
/// out-of-scope rejection for external schemes, full replacement for an
/// absolute crawlable address, directory-relative merge otherwise.
pub open spec fn resolve_view(base: LocView, raw: Seq<char>) -> Result<LocView, ResolveError> {
    if is_external_ref(raw) {
        Err(ResolveError::OutOfScope)
    } else if starts_with(raw, scheme_prefix()) {
        match parse_loc(raw) {
            Some(l) => Ok(l),
            None => Err(ResolveError::Malformed(parse_error_of(raw))),
        }
    } else {
        Ok(
            LocView {
                host: base.host,
                port: base.port,
                path: Some(
                    match base.path {
                        Some(p) => merge_paths(p, raw),
                        None => raw,
                    },
                ),
                query: base.query,
            },
        )
    }
}

/// Merges relative path text onto a base path, as [`merge_paths`]
/// describes.
fn merge_path_chars(base: &Vec<char>, raw: &Vec<char>) -> (r: Vec<char>)
    ensures
        r@ == merge_paths(base@, raw@),
{
    if raw.len() == 0 {
        return sub_vec(base, 0, base.len());
    }
    if raw[0] == '/' {
        return sub_vec(raw, 0, raw.len());
    }
    if base.len() == 0 {
        let mut out: Vec<char> = vec!['/'];
        append_chars(&mut out, raw);
        proof {
            assert(out@ =~= seq!['/'] + raw@);
        }
        return out;
    }
    if base[base.len() - 1] == '/' {
        let mut out = sub_vec(base, 0, base.len());
        append_chars(&mut out, raw);
        proof {
            assert(base@.subrange(0, base@.len() as int) =~= base@);
        }
        return out;
    }
    match rfind_char(base, '/') {
        Some(i) => {
            let mut out = sub_vec(base, 0, i + 1);
            append_chars(&mut out, raw);
            out
        },
        None => sub_vec(raw, 0, raw.len()),
    }
}

/// Resolves raw link text against a base location, exactly as
/// [`resolve_view`] describes: links into external schemes are rejected
/// as out of scope, an absolute crawlable address replaces the base
/// entirely, and anything else is merged onto the base's directory with
/// dot segments kept literal.
pub fn resolve(base: &Location, raw: &str) -> (r: Result<Location, ResolveError>)
    ensures
        match r {
            Ok(l) => resolve_view(base@, raw@) == Ok::<LocView, ResolveError>(l@),
            Err(e) => resolve_view(base@, raw@) == Err::<LocView, ResolveError>(e),
        },
{
    let cs = chars_of(raw);
    let gopher: Vec<char> = vec!['g', 'o', 'p', 'h', 'e', 'r', ':', '/', '/'];
    let web: Vec<char> = vec!['h', 't', 't', 'p'];
    proof {
        assert(gopher@ =~= gopher_prefix());
        assert(web@ =~= web_prefix());
    }
    if has_prefix(&cs, &gopher) || has_prefix(&cs, &web) {
        return Err(ResolveError::OutOfScope);
    }
    let scheme: Vec<char> = vec!['g', 'e', 'm', 'i', 'n', 'i', ':', '/', '/'];
    proof {
        assert(scheme@ =~= scheme_prefix());
    }
    if has_prefix(&cs, &scheme) {
        match Location::parse(raw) {
            Ok(l) => Ok(l),
            Err(e) => Err(ResolveError::Malformed(e)),
        }
    } else {
        let merged: Vec<char> = match &base.path {
            Some(p) => {
                let pv = chars_of(p.as_str());
                merge_path_chars(&pv, &cs)
            },
            None => cs,
        };
        let query: Option<String> = match &base.query {
            Some(q) => Some(q.clone()),
            None => None,
        };
        Ok(
            Location {
                host: base.host.clone(),
                port: base.port,
                path: Some(string_of(&merged)),
                query,
            },
        )
    }
}

/// Scope filter: a raw link with an external scheme prefix always
/// resolves to the out-of-scope rejection, and every other raw link
/// resolves to a location, except one that claims the crawlable scheme
/// but is not a well-formed address.
pub proof fn lemma_scope_filter(base: LocView, raw: Seq<char>)
    ensures
        is_external_ref(raw) ==> resolve_view(base, raw) == Err::<LocView, ResolveError>(
            ResolveError::OutOfScope,
        ),
        !is_external_ref(raw) && (starts_with(raw, scheme_prefix()) ==> parse_loc(raw) is Some)
            ==> resolve_view(base, raw) is Ok,
{
}

} // verus!
