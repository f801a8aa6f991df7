//! Parser for tile maps written in the Tiled editor's XML format.
//!
//! The XML text is tokenised into a flat list of events, which verified
//! builders walk with a cursor to produce a [`TileMap`]. Tile layers are
//! decoded from base64 text, inflated with zlib, and reshaped into rows of
//! 32-bit global tile identifiers.
pub mod attrs;
pub mod cache;
pub mod colour;
pub mod data;
pub mod error;
pub mod events;
pub mod model;
pub mod objects;
pub mod text;

pub use cache::{FilesystemResourceCache, ResourceCache};
pub use colour::Colour;
pub use error::{ErrorKind, TiledError};
pub use events::{Attribute, XmlEvent};
pub use model::{parse, parse_events, Image, Layer, Orientation, Properties, TileMap, Tileset};
pub use objects::{Object, ObjectGroup};
