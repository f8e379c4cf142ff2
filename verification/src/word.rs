//! The 16-bit word that places one tile inside a metatile.
//!
//! Bits 0-9 hold the tile index, bit 10 the horizontal flip, bit 11 the vertical flip
//! and bits 12-15 the palette index.

use crate::error::TilesetError;
use vstd::prelude::*;

verus! {

/// Number of tile indices that a word can address.
pub const MAX_TILES: usize = 1024;

/// Number of palette indices that a word can address.
pub const MAX_PALETTES: usize = 16;

/// Bytes that one encoded metatile takes: four words, two bytes each.
pub const METATILE_BYTES: usize = 8;

/// The four fields of an encoded word.
#[derive(Clone, Copy, Debug, PartialEq, Eq, Structural)]
pub struct WordFields {
    pub palette_id: usize,
    pub flip_x: bool,
    pub flip_y: bool,
    pub tile_id: usize,
}

/// The value of the word that packs the four fields.
pub open spec fn word_of(palette_id: int, flip_x: bool, flip_y: bool, tile_id: int) -> int {
    palette_id * 4096 + (if flip_y { 2048int } else { 0 }) + (if flip_x { 1024int } else { 0 })
        + tile_id
}

/// The fields that a word holds.
pub open spec fn fields_of(word: int) -> WordFields {
    WordFields {
        palette_id: (word / 4096) as usize,
        flip_x: (word / 1024) % 2 == 1,
        flip_y: (word / 2048) % 2 == 1,
        tile_id: (word % 1024) as usize,
    }
}

/// The two bytes of a word, low byte first.
pub open spec fn word_bytes(word: int) -> Seq<u8> {
    seq![(word % 256) as u8, (word / 256) as u8]
}

/// Whether the fields fit their bit ranges.
pub open spec fn fits_word(palette_id: int, tile_id: int) -> bool {
    0 <= palette_id < 16 && 0 <= tile_id < 1024
}

/// Packing fields that fit and unpacking the word gives the fields back.
pub proof fn lemma_word_round_trip(palette_id: int, flip_x: bool, flip_y: bool, tile_id: int)
    requires
        fits_word(palette_id, tile_id),
    ensures
        0 <= word_of(palette_id, flip_x, flip_y, tile_id) < 65536,
        fields_of(word_of(palette_id, flip_x, flip_y, tile_id)) == (WordFields {
            palette_id: palette_id as usize,
            flip_x,
            flip_y,
            tile_id: tile_id as usize,
        }),
{
}

/// Unpacking any word and packing its fields gives the word back.
pub proof fn lemma_fields_round_trip(word: int)
    requires
        0 <= word < 65536,
    ensures
        fits_word(fields_of(word).palette_id as int, fields_of(word).tile_id as int),
        word_of(
            fields_of(word).palette_id as int,
            fields_of(word).flip_x,
            fields_of(word).flip_y,
            fields_of(word).tile_id as int,
        ) == word,
{
}

/// Packs the four fields into a word.
///
/// Fails with `Capacity` exactly when a field does not fit its bit range.
pub fn encode_word(palette_id: usize, flip_x: bool, flip_y: bool, tile_id: usize) -> (r: Result<
    u16,
    TilesetError,
>)
    ensures
        fits_word(palette_id as int, tile_id as int) ==> r == Ok::<u16, TilesetError>(
            word_of(palette_id as int, flip_x, flip_y, tile_id as int) as u16,
        ),
        !fits_word(palette_id as int, tile_id as int) ==> r == Err::<u16, TilesetError>(
            TilesetError::Capacity,
        ),
{
    if palette_id >= MAX_PALETTES || tile_id >= MAX_TILES {
        return Err(TilesetError::Capacity);
    }
    let p: u16 = palette_id as u16;
    let t: u16 = tile_id as u16;
    let x: u16 = if flip_x { 1 } else { 0 };
    let y: u16 = if flip_y { 1 } else { 0 };
    let value: u16 = (p << 12) | (y << 11) | (x << 10) | t;
    proof {
        assert((p << 12) | (y << 11) | (x << 10) | t == p * 4096 + y * 2048 + x * 1024 + t)
            by (bit_vector)
            requires
                p < 16,
                t < 1024,
                x < 2,
                y < 2,
        ;
    }
    Ok(value)
}

/// Unpacks a word into its four fields.
pub fn decode_word(word: u16) -> (f: WordFields)
    ensures
        f == fields_of(word as int),
{
    let p: u16 = word >> 12;
    let t: u16 = word & 0x3ff;
    let x: u16 = (word >> 10) & 1;
    let y: u16 = (word >> 11) & 1;
    proof {
        assert(word >> 12 == word / 4096) by (bit_vector);
        assert(word & 0x3ff == word % 1024) by (bit_vector);
        assert((word >> 10) & 1 == (word / 1024) % 2) by (bit_vector);
        assert((word >> 11) & 1 == (word / 2048) % 2) by (bit_vector);
    }
    WordFields { palette_id: p as usize, flip_x: x == 1, flip_y: y == 1, tile_id: t as usize }
}

/// Appends the two bytes of a word, low byte first.
pub fn push_word(out: &mut Vec<u8>, word: u16)
    ensures
        final(out)@ == old(out)@ + word_bytes(word as int),
{
    let low: u16 = word & 0xff;
    let high: u16 = (word >> 8) & 0xff;
    proof {
        assert(word & 0xff == word % 256) by (bit_vector);
        assert((word >> 8) & 0xff == word / 256) by (bit_vector);
    }
    out.push(low as u8);
    out.push(high as u8);
    proof {
        assert(out@ =~= old(out)@ + word_bytes(word as int));
    }
}

} // verus!
