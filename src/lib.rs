//! Rendering pipeline for a rotating wire-and-fill cube drawn as coloured
//! text: line and polygon scan conversion, depth-tested compositing and
//! colour-run text encoding, all over integer screen cells and ordered
//! depth keys.

pub mod mesh;
pub mod raster;
pub mod compose;
pub mod encode;
pub mod frame;
