//! Offline maintenance of a node's key-value store: integrity checking,
//! trie garbage collection, physical repacking and cascading block removal,
//! each proved against a mathematical model of the store's tables.
pub mod bytes;
pub mod table;
pub mod codec;
pub mod store;
pub mod trie_gc;
pub mod remove_block;
