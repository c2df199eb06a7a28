//! A verified core for a small-web crawler: location resolution, content
//! classification, link extraction from gemtext markup, claim-based
//! deduplication, and frontier bookkeeping for graceful termination.

pub mod classify;
pub mod dedup;
pub mod engine;
pub mod frontier;
pub mod gemtext;
pub mod location;
pub mod text;
