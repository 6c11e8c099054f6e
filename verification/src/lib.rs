//! Integer core of a logo tracer that turns an RGBA raster into a compact SVG:
//! colors and their distances, transparency keying of images, the dominant
//! palette, SVG serialization, path-data text edits and the clustering settings.

pub mod color;
pub mod text;
pub mod image;
pub mod palette;
pub mod svg;
pub mod path_data;
pub mod cluster;

