//! Incremental synchronization of guest memory.
//!
//! An engine keeps a baseline copy of the memory of a running guest. Each
//! synchronization pass turns the per-page dirty indicators of the guest's regions
//! into batches, maximal runs of dirty pages, and sends the bytes of each batch
//! through a diff adapter, which logs their XOR with the baseline and brings the
//! baseline up to date. A worker drains the log when it is signalled.
//!
//! * [`words`]: byte buffers read as 64-bit words.
//! * [`batch`]: from dirty indicators to batches.
//! * [`model`]: what a pass does, as mathematics.
//! * [`sync`]: the diff adapter and the pass over regions given as plain values.
//! * [`layout`]: where the regions of a guest lie in the memory image.
//! * [`guest`]: the pass over the memory of a memory-mapped guest.
//! * [`sync_backend`]: the engine's state and the protocol of its worker.
//! * [`invariants`]: what a pass leaves in the engine.
//! * [`mss`]: segments and errors of the snapshot storage client.

pub mod batch;
pub mod guest;
pub mod invariants;
pub mod layout;
pub mod model;
pub mod mss;
pub mod sync;
pub mod sync_backend;
pub mod words;
