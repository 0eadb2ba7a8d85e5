//! What the reports and commands are for.
//!
//! Each law here speaks of what goes into an operation and of what comes out:
//! the leaves of the locale files, the calls in the sources, the rules of the
//! configuration, and the rows, paths and files that follow from them. The
//! modules beside this one say how each result is made.
pub mod arguments;
pub mod calls;
pub mod cleanup;
pub mod commands;
pub mod comments;
pub mod counts;
pub mod detect;
pub mod eq_base;
pub mod erb;
pub mod interpolations;
pub mod keys;
pub mod layout;
pub mod loading;
pub mod locale_paths;
pub mod migration;
pub mod missing;
pub mod names;
pub mod paths;
pub mod patterns;
pub mod plural;
pub mod planning;
pub mod routing;
pub mod rows;
pub mod scalars;
pub mod scopes;
pub mod session;
pub mod settings;
pub mod sources;
pub mod tables;
pub mod templates;
pub mod unused;
pub mod values;
pub mod writing;
