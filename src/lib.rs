//! The execution engine of a deterministic smart-contract platform: keys
//! and unforgeable references, the binary encoding of stored values, the
//! transform algebra of tracking copies over global state, the runtime
//! context's capability and gas checks, the host-side mint, transfers and the
//! phases of a deploy, and the executor's decisions.

pub mod api_error;
pub mod bytesrepr;
pub mod deploy;
pub mod deploy_item;
pub mod engine_state;
pub mod executor;
pub mod key_map;
pub mod keys;
pub mod mint;
pub mod runtime_context;
pub mod socket;
pub mod stored_value;
pub mod tracking_copy;
pub mod transform;
pub mod u512;
pub mod value_codec;
pub mod wasm_prep;
