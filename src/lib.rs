//! A deterministic e-book page engine: HTML fragments become styled blocks,
//! blocks become fixed-size pages, and pages become RGBA pixel buffers.
pub mod settings;
pub mod document;
pub mod measure;
pub mod paginator;
pub mod search;
pub mod selection;
pub mod raster;
pub mod render;
pub mod error;
pub mod fonts;
pub mod html;
pub mod glyphs;
pub mod plan;
