//! Safe, deterministic measurement and export logic for embedded Typst.

pub mod error;
pub mod float_bits;
pub mod fnv;
pub mod fonts;
pub mod format;
pub mod measure;
pub mod pdf;
pub mod query;
pub mod raster;

pub use error::{Error, Result};
pub use format::format_source;
pub use raster::RasterPage;
