//! Clog engine: line indexing, record scanning, pattern compilation,
//! search, tailing decisions and the viewer's per-file bookkeeping.

pub mod bytes;
pub mod thread_groups;
pub mod index;
pub mod pattern;
pub mod record;
pub mod text;
pub mod regex_scanner;
pub mod search;
pub mod smart_optimality;
pub mod wsl_layout;
pub mod slow_requests;
pub mod viewer;
pub mod minimap;
pub mod markers;
pub mod requests;
pub mod timestamps;
pub mod tail;
pub mod idx_cache;
pub mod settings;
pub mod scanners;
pub mod summary;
