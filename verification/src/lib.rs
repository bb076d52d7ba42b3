//! Entropy coding for learned image codecs: a 64-bit rANS coder driven by per-symbol
//! cumulative frequency tables, and a compact code for boolean masks.
pub mod byte_laws;
pub mod bytes;
pub mod chunks;
pub mod coder;
pub mod coder_laws;
pub mod compare;
pub mod mask;
pub mod mask_laws;
pub mod mask_layout_laws;
pub mod rans;
pub mod rans_laws;
pub mod record_laws;
pub mod records;
pub mod size_laws;
pub mod sparse_laws;
pub mod stream_laws;
pub mod symbol_laws;
pub mod table_laws;
pub mod tables;
pub mod varint;
pub mod varint_laws;
