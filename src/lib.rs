//! Lookup of password hashes in a large sorted `HASH:COUNT` reference file,
//! driven by seeks and line reads rather than by loading the file.
pub mod account;
pub mod bisect;
pub mod line;
pub mod order;
pub mod pipeline;
pub mod reference;
pub mod search;
