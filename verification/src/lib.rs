//! A runner for GLSL fragment shaders: the rules by which a shader is
//! prepared, reloaded while it is shown, and rendered to image files tile
//! by tile.

pub mod encode;
pub mod frame;
pub mod inject;
pub mod offline;
pub mod reload;
pub mod text;
pub mod tile;
