//! Cutting Rust source files into chunks at item boundaries, and the
//! bookkeeping around those chunks.

pub mod ripgrep_lines;
pub mod line_lemmas;
pub mod ripgrep_output;
pub mod code_chunk;
pub mod file_chunks;
pub mod code_chunker;
pub mod chunk_order;
pub mod load_chunks;
pub mod line_laws;
pub mod chunk_laws;
pub mod text_laws;
pub mod output_laws;
