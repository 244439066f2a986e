//! A bounded, write-through in-memory cache for a directed acyclic graph of
//! messages. Each vertex stores a message, caller-chosen metadata and the list
//! of its known children, and the cache fronts a slower backing store reached
//! through a pluggable [`hooks::Hooks`] implementation.

pub mod hooks;
pub mod message;
pub mod queue;
pub mod tangle;
pub mod utxo;
pub mod vertex;

pub use hooks::{Hooks, NullHooks};
pub use message::{Message, MessageRef};
pub use tangle::{Tangle, DEFAULT_CACHE_LEN};
pub use utxo::{Error, OutputId, TransactionId, UtxoInput, INPUT_OUTPUT_INDEX_MAX};
pub use vertex::Vertex;
