//! Turns a raster image of solid color blocks, separated by a sentinel
//! border color, into a grid of labeled cells, and drives a resumable,
//! cell-by-cell walk through that grid.

pub mod color;
pub mod registry;
pub mod row_builder;
pub mod walker;

pub use color::separator_color;
pub use color::Rgb8;
pub use registry::ColorEntry;
pub use registry::ColorMap;
pub use registry::LookupError;
pub use walker::App;
pub use walker::NextPreview;
pub use walker::Progress;
