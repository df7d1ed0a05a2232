//! A breadth-first single-host crawler core: canonical URLs, a URL-lifecycle
//! queue, an append-only journal with crash recovery, and the filesystem-name
//! codecs, all with verified contracts.

pub mod url;
pub mod queue;
pub mod journal;
pub mod crawl;
pub mod encoding;
