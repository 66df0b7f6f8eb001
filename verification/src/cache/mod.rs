//! A page cache of fixed capacity with six replacement strategies.
//!
//! [`model`] says what an access does to the pages in the cache, and
//! [`manager`] is the cache itself.

pub mod manager;
pub mod model;
