//! DiskScour: a disk-usage analyzer with dev-cache cleanup, as a verified library.

pub mod agreement;
pub mod browse;
pub mod builder;
pub mod builder_laws;
pub mod bulkstat;
pub mod bulkstat_laws;
pub mod caches;
pub mod caches_laws;
pub mod call_laws;
pub mod cleanup;
pub mod cli;
pub mod cli_laws;
pub mod codec;
pub mod detection;
pub mod engine;
pub mod event_laws;
pub mod forest;
pub mod format;
pub mod format_laws;
pub mod fsevents;
pub mod index;
pub mod index_laws;
pub mod json;
pub mod listing_laws;
pub mod live;
pub mod mcp;
pub mod order;
pub mod panels;
pub mod path;
pub mod path_laws;
pub mod registration;
pub mod registration_laws;
pub mod removal;
pub mod reply_laws;
pub mod report;
pub mod reuse_laws;
pub mod roundtrip;
pub mod rules;
pub mod rules_laws;
pub mod scan;
pub mod session_laws;
pub mod sessions;
pub mod status_laws;
pub mod summary;
pub mod text;
pub mod text_laws;
pub mod tool_calls;
pub mod tools;
pub mod util;
pub mod walk;
pub mod walk_laws;
pub mod window;
pub mod window_laws;
