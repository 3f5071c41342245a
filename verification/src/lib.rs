//! Physical-storage bookkeeping for a pool of block devices.
//!
//! The crate decides; it never touches a device. A caller looks at the
//! devices, hands the facts in as plain values, performs the writes and
//! wipes that the crate asks for, and reports how each one went. Everything
//! in between (which devices are admitted, what is rolled back after a
//! failed write, how much space is free, which extents back an allocation
//! and how the extent list of a tier is kept minimal) is computed here and
//! proved against the contracts of the functions below.
//!
//! - `resolve`: which devices the paths of a list name.
//! - `admission`: which of the devices put forward may join a pool.
//! - `batch`: giving the admitted devices their headers, and taking the
//!   headers back when a write fails.
//! - `blockdev`, `range_alloc`: the record of one device and its free space.
//! - `blockdevmgr`: the devices of a pool, taken together.
//! - `records`: the devices of a pool as plain values, and what holds of
//!   the operations on them.
//! - `segment`: extents, and how a list of them is coalesced.
//! - `data_tier`: the devices of a pool together with the extents handed
//!   to the layer above.
//! - `types`, `errors`, `ident`: plain values, failures and UUIDs.

pub mod types;
pub mod errors;
pub mod ident;
pub mod range_alloc;
pub mod blockdev;
pub mod segment;
pub mod resolve;
pub mod admission;
pub mod batch;
pub mod records;
pub mod blockdevmgr;
pub mod data_tier;
