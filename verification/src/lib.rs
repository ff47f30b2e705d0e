//! Account fetching, caching and program resolution for a ledger RPC session.
//!
//! The crate models one resolution session: a cache of account records keyed
//! by 32-byte addresses, a planner that turns requested address sets into a
//! minimal deduplicated fetch list, a two-pass resolver that turns cached
//! executable accounts into raw bytecode registrations, a structural bytecode
//! validator, and a versioned flat-file fixture codec for offline replay.
//! Network transport and the downstream execution registry are external
//! collaborators; the caller performs those calls and hands plain values back.

pub mod addr;
pub mod b64;
pub mod cache;
pub mod errors;
pub mod fixture;
pub mod record;
pub mod resolve;
pub mod store;
pub mod text;
pub mod util;
pub mod validate;
