//! Building blocks of a terminal glyph renderer: a tiling engine that reduces a
//! row-major stream to rectangular tiles, and a codec that repacks a dense
//! bitstream into word-aligned rows.

pub mod bit_chunk_iter;
pub mod bits;
pub mod chunk_iter;
pub mod composition;
pub mod frame;
pub mod hr_bw_display;
pub mod items;
pub mod render;
pub mod term_display;
pub mod tile_cells;
pub mod tiling;
pub mod traits;
pub mod types;
