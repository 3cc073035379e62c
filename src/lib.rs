//! Core of an incremental dataflow runtime: weighted ordered batches
//! (Z-sets), the worker exchange, the layer-file format and the streaming
//! input splitter.
pub mod order;
pub mod zset;
pub mod block;
pub mod exchange;
pub mod splitter;
pub mod layer;
pub mod storage;
pub mod reader;
