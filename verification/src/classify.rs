//! Content classification.
//!
//! Before a fetch, [`looks_like_binary`] is a cheap heuristic that skips
//! locations whose names end in a known binary suffix. After a fetch,
//! [`classify`] decides from the declared media type whether the body is
//! persisted and whether it is scanned for further links.

use vstd::prelude::*;

use crate::text::{ends_with, first_occ, chars_of, eq_chars, find_char, has_suffix, sub_vec};

verus! {

/// The fate of a fetched page, decided from its declared media type.
#[derive(Clone, Copy, Debug, PartialEq, Eq, Structural)]
pub enum Classification {
    /// The crawlable markup format: persist the body and extract links.
    StoreAndExtract,
    /// Plain text: persist the body, extract nothing.
    StoreOnly,
    /// Anything else, the default: drop the body.
    Discard,
}

/// The media type without its parameters: everything up to the first
/// semicolon.
pub open spec fn media_essence(m: Seq<char>) -> Seq<char> {
    match first_occ(m, ';') {
        Some(i) => m.take(i),
        None => m,
    }
}

/// The media type of the crawlable markup format.
pub open spec fn gemtext_media() -> Seq<char> {
    seq!['t', 'e', 'x', 't', '/', 'g', 'e', 'm', 'i', 'n', 'i']
}

/// The media type of plain text.
pub open spec fn plain_media() -> Seq<char> {
    seq!['t', 'e', 'x', 't', '/', 'p', 'l', 'a', 'i', 'n']
}

/// The classification of a declared media type: the crawlable markup
/// format is persisted and scanned for links, plain text is only
/// persisted, and everything else is dropped.
pub open spec fn classify_view(m: Seq<char>) -> Classification {
    if media_essence(m) == gemtext_media() {
        Classification::StoreAndExtract
    } else if media_essence(m) == plain_media() {
        Classification::StoreOnly
    } else {
        Classification::Discard
    }
}

/// Classifies a declared media type, exactly as [`classify_view`]
/// describes.
pub fn classify(media_type: &str) -> (r: Classification)
    ensures
        r == classify_view(media_type@),
{
    let cs = chars_of(media_type);
    let essence: Vec<char> = match find_char(&cs, ';') {
        Some(i) => sub_vec(&cs, 0, i),
        None => cs,
    };
    let gem: Vec<char> = vec!['t', 'e', 'x', 't', '/', 'g', 'e', 'm', 'i', 'n', 'i'];
    let plain: Vec<char> = vec!['t', 'e', 'x', 't', '/', 'p', 'l', 'a', 'i', 'n'];
    proof {
        assert(gem@ =~= gemtext_media());
        assert(plain@ =~= plain_media());
    }
    if eq_chars(&essence, &gem) {
        Classification::StoreAndExtract
    } else if eq_chars(&essence, &plain) {
        Classification::StoreOnly
    } else {
        Classification::Discard
    }
}

/// A location string that ends in a suffix of a known binary format:
/// archives, audio and video, images, or feed documents.
pub open spec fn looks_binary(loc: Seq<char>) -> bool {
    ||| ends_with(loc, seq!['.', 'z', 'i', 'p'])
    ||| ends_with(loc, seq!['.', 't', 'a', 'r', '.', 'g', 'z'])
    ||| ends_with(loc, seq!['.', 't', 'g', 'z'])
    ||| ends_with(loc, seq!['.', 'm', 'p', '3'])
    ||| ends_with(loc, seq!['.', 'm', 'p', '4'])
    ||| ends_with(loc, seq!['.', 'a', 'v', 'i'])
    ||| ends_with(loc, seq!['.', 'j', 'p', 'g'])
    ||| ends_with(loc, seq!['.', 'p', 'n', 'g'])
    ||| ends_with(loc, seq!['.', 'g', 'i', 'f'])
    ||| ends_with(loc, seq!['.', 'x', 'm', 'l'])
}

/// The pre-fetch bandwidth guard: true when the location's name ends in
/// a known binary suffix, exactly as [`looks_binary`] describes. A
/// fallible heuristic, used only to skip fetches, never for correctness.
pub fn looks_like_binary(loc: &str) -> (r: bool)
    ensures
        r == looks_binary(loc@),
{
    let cs = chars_of(loc);
    let zip: Vec<char> = vec!['.', 'z', 'i', 'p'];
    let targz: Vec<char> = vec!['.', 't', 'a', 'r', '.', 'g', 'z'];
    let tgz: Vec<char> = vec!['.', 't', 'g', 'z'];
    let mp3: Vec<char> = vec!['.', 'm', 'p', '3'];
    let mp4: Vec<char> = vec!['.', 'm', 'p', '4'];
    let avi: Vec<char> = vec!['.', 'a', 'v', 'i'];
    let jpg: Vec<char> = vec!['.', 'j', 'p', 'g'];
    let png: Vec<char> = vec!['.', 'p', 'n', 'g'];
    let gif: Vec<char> = vec!['.', 'g', 'i', 'f'];
    let xml: Vec<char> = vec!['.', 'x', 'm', 'l'];
    has_suffix(&cs, &zip) || has_suffix(&cs, &targz) || has_suffix(&cs, &tgz) || has_suffix(
        &cs,
        &mp3,
    ) || has_suffix(&cs, &mp4) || has_suffix(&cs, &avi) || has_suffix(&cs, &jpg) || has_suffix(
        &cs,
        &png,
    ) || has_suffix(&cs, &gif) || has_suffix(&cs, &xml)
}

} // verus!
