//! Tile deduplication and metatile encoding for indexed-colour tilesets.
//!
//! Indexed images are cut into 16x16 metatiles of four 8x8 tiles each. Tiles that are
//! equal up to mirroring share one entry of a registry, and every metatile is encoded
//! as four 16-bit words that name the entry, the mirroring and the palette. The
//! registry is emitted as one atlas image, the palettes as text files, and the
//! metatiles that a configuration lists as a flat binary.
//!
//! The library works on bytes held in memory; reading and writing files is left to
//! its callers.

pub mod atlas;
pub mod bits;
pub mod codec;
pub mod config;
pub mod error;
pub mod palette;
pub mod registry;
pub mod rom;
pub mod tile;
pub mod tileset;
pub mod word;
