//! Locale data: loading, routing and writing.
pub mod emit;
pub mod load;
pub mod locale_path;
pub mod route;
pub mod store;
