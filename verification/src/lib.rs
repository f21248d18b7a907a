//! Verified core of a small item catalogue served over HTTP.

pub mod text;
pub mod order;
pub mod listing;
pub mod paths;
pub mod form;
pub mod store;
pub mod index;
pub mod thumbnail;
pub mod assets;
