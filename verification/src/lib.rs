//! Static analysis of translation keys in Rails applications.
//!
//! The crate holds the rules: how a key is split, how a key pattern matches,
//! how locale files are flattened, routed and written back, which keys a
//! source file uses, and what each check reports. It performs no input or
//! output: callers hand it plain values and act on the plain values it
//! returns.
pub mod bytes;
pub mod check;
pub mod clean_config;
pub mod commands;
pub mod config;
pub mod data;
pub mod digest;
pub mod discover;
pub mod init;
pub mod keys;
pub mod laws;
pub mod lineindex;
pub mod migrate;
pub mod paths;
pub mod pattern;
pub mod plural;
pub mod regexes;
pub mod report;
pub mod scan;
pub mod session;
pub mod settings_text;
pub mod stale;
pub mod stats;
pub mod text;
pub mod textmap;
pub mod used;
pub mod wildcards;
pub mod yaml;

use vstd::prelude::*;

verus! {

} // verus!
