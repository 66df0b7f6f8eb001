//! Online decision policies over request streams, with machine-checked contracts.
//!
//! The centre of the crate is [`allocation`]: an adaptive replica-placement
//! engine that decides, request by request, which sites hold a copy of one
//! logical object. Beside it stand three smaller policies of the same kind:
//! self-organising lists in [`list_update`], page caches in [`cache`], and a
//! page that migrates over a network in [`migration`].
//!
//! [`random`] holds the only code whose contracts are assumed rather than
//! proved: the calls into the `rand` crate. [`search`] holds what the
//! policies share about searching a sequence.

pub mod allocation;
pub mod cache;
pub mod list_update;
pub mod migration;
pub mod random;
pub mod search;
