//! Deterministic generation of MapLibre sprite sheets: packing, PNG
//! encoding and the JSON sprite index, each with a verified contract.

pub mod canvas;
pub mod cli;
pub mod index;
pub mod json;
pub mod order;
pub mod permutation;
pub mod png;
pub mod potpack;
pub mod render;
pub mod sheet;

pub use index::{SpriteIndex, SpriteIndexEntry};
pub use json::index_to_json;
pub use sheet::{build_sprite_sheet, BuildOptions, Error, RenderedIcon, SpriteSheet};
