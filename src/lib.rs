//! A file finder: walks a directory listing, keeps the entries whose names
//! pass a configurable filter, caps the number of results and orders them.
pub mod config;
pub mod guarantees;
pub mod order;
pub mod pattern;
pub mod search;
pub mod text;
