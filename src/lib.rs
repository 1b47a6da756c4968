//! Block and state storage of a proof-of-work chain node: blocks, their
//! metadata and output roots kept in columns of a key-value store, the index
//! of unspent transaction outputs, and Merkle proofs of membership.
pub mod block;
pub mod codec;
pub mod digest;
pub mod flat;
pub mod hash;
pub mod kv;
pub mod merkle;
pub mod meta;
pub mod store;
pub mod unspent;
