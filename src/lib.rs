//! A small software rasterizer: a packed-colour framebuffer with a line
//! drawer, a depth-tested scanline triangle filler and a TGA codec.

pub mod geom;
pub mod line;
pub mod vbuffer;
pub mod triangle;
pub mod tga;
