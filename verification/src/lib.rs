//! A backend-agnostic file-storage abstraction built around an append-only,
//! object-store-backed journal.
//!
//! `aqfs` holds the value model and the capability contract every backend
//! satisfies; `codec` the lossless wire format of journal segments; `keys`
//! the sortable segment-key scheme that gives the journal its total,
//! deterministic replay order; `journal` the reconstruction of a filesystem
//! snapshot from scattered segments and the planning of journal appends;
//! and `sync` the generic two-way replicator over any two backends.

pub mod aqfs;
pub mod codec;
pub mod journal;
pub mod keys;
pub mod sync;
