//! Media-type classification and the pre-fetch binary heuristic.

use gemcrawl::classify::{Classification, classify, looks_like_binary};

#[test]
fn classifier_mapping() {
    assert_eq!(classify("text/gemini; charset=utf-8"), Classification::StoreAndExtract);
    assert_eq!(classify("text/plain"), Classification::StoreOnly);
    assert_eq!(classify("image/jpeg"), Classification::Discard);
}

#[test]
fn classifier_parameters_are_ignored() {
    assert_eq!(classify("text/gemini"), Classification::StoreAndExtract);
    assert_eq!(classify("text/gemini;lang=en"), Classification::StoreAndExtract);
    assert_eq!(classify("text/plain; charset=us-ascii"), Classification::StoreOnly);
}

#[test]
fn classifier_defaults_to_discard() {
    assert_eq!(classify(""), Classification::Discard);
    assert_eq!(classify("application/octet-stream"), Classification::Discard);
    assert_eq!(classify("text/html"), Classification::Discard);
    assert_eq!(classify("text/gemini2"), Classification::Discard);
    assert_eq!(classify(" text/gemini"), Classification::Discard);
}

#[test]
fn binary_suffixes_are_skipped() {
    assert!(looks_like_binary("gemini://host/archive.zip"));
    assert!(looks_like_binary("gemini://host/backup.tar.gz"));
    assert!(looks_like_binary("gemini://host/song.mp3"));
    assert!(looks_like_binary("gemini://host/clip.mp4"));
    assert!(looks_like_binary("gemini://host/feed/atom.xml"));
    assert!(looks_like_binary("gemini://host/photo.jpg"));
}

#[test]
fn markup_names_are_not_binary() {
    assert!(!looks_like_binary("gemini://host/page.gmi"));
    assert!(!looks_like_binary("gemini://host/dir/"));
    assert!(!looks_like_binary("gemini://host"));
    assert!(!looks_like_binary("gemini://host/zip"));
}
