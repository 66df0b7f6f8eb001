//! Self-organising lists: a list that is searched from the front and
//! reorders itself on every access.
//!
//! [`model`] says what each access does to the sequence of values,
//! [`linked_list`] is the list itself.

pub mod linked_list;
pub mod model;
