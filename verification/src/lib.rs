//! Emoji-to-pixel-art logo generation: the verified core.

mod strbuf;
pub mod emoji;
pub mod cli;
pub mod svg;
pub mod raster;
pub mod domino;
pub mod palette;
pub mod palette_laws;
pub mod quantize;
pub mod sprite;
pub mod compose;
pub mod text;
pub mod bundled;
