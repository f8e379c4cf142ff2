//! The ways a conversion run can fail.

use vstd::prelude::*;

verus! {

/// Why a conversion run was aborted.
#[derive(Debug, PartialEq, Eq)]
pub enum TilesetError {
    /// The source image could not be decoded as an image with a colour table.
    Decode,
    /// The image sides are not both multiples of the metatile size.
    Dimension,
    /// A pixel has a colour that the image's palette does not hold.
    PaletteMismatch,
    /// A metatile definition is malformed; `line` counts configuration lines from zero.
    Parse { line: usize },
    /// A metatile definition names a sheet that no earlier line defines.
    UndefinedSymbol { line: usize, name: String },
    /// The configuration asks for a metatile that no ingested image provides.
    MissingMetatile { sheet: String, index: usize },
    /// More tiles or palettes than an encoded word can address.
    Capacity,
    /// The atlas image could not be encoded.
    Encode,
}

} // verus!
