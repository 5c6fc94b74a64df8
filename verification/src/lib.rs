//! A binary codec for a simplified Bitcoin transaction wire format.
//!
//! The crate converts in-memory transaction structures to a canonical byte
//! sequence and back, byte-exact, following the little-endian and
//! variable-length-integer ("CompactSize") conventions of the Bitcoin peer
//! protocol. Every encoder states exactly which bytes it produces, every
//! decoder states exactly which value it returns and how many bytes it
//! consumed, and the round-trip and truncation laws are proved.

pub mod error;
pub mod input;
pub mod transaction;
pub mod outpoint;
pub mod script;
pub mod txid;
pub mod varint;

pub use error::BitcoinError;
pub use input::TransactionInput;
pub use transaction::BitcoinTransaction;
pub use outpoint::OutPoint;
pub use script::Script;
pub use txid::Txid;
pub use varint::CompactSize;
