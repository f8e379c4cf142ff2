//! The atlas image: every registered tile on one fixed canvas.

use crate::bits::{pack_nibbles, packed_nibbles};
use crate::codec::{encode_image, png_encoded};
use crate::error::TilesetError;
use crate::palette::{output_palette, palette_text, palette_view, Palette};
use crate::tile::Pixels;
use crate::tileset::TileStorage;
use vstd::prelude::*;

verus! {

/// Width of the atlas canvas, in pixels.
pub const ATLAS_WIDTH: u32 = 128;

/// Height of the atlas canvas, in pixels.
pub const ATLAS_HEIGHT: u32 = 256;

/// Number of tiles that the atlas canvas shows: 16 across, 32 down.
pub const ATLAS_TILES: usize = 512;

/// Pixel `i` of the atlas canvas, counted row by row.
///
/// The canvas is a grid of 16 by 32 cells; cell `n` shows tile `n` of the registry, and
/// a cell past the end of the registry is blank.
pub open spec fn atlas_pixel(reg: Seq<Pixels>, i: int) -> u8 {
    let x = i % 128;
    let y = i / 128;
    let cell = (y / 8) * 16 + x / 8;
    if cell < reg.len() {
        reg[cell][y % 8][x % 8]
    } else {
        0
    }
}

/// The pixels of the atlas canvas, row by row.
pub open spec fn atlas_pixels(reg: Seq<Pixels>) -> Seq<u8> {
    Seq::new(32768, |i: int| atlas_pixel(reg, i))
}

/// A palette as a flat RGB colour table.
pub open spec fn color_table_of(colors: Seq<Seq<u8>>) -> Seq<u8> {
    Seq::new(48, |i: int| colors[i / 3][i % 3])
}

/// What a run writes besides the metatile binary.
#[derive(Debug, PartialEq, Eq)]
pub struct OutputFiles {
    /// The text of one palette file per ingested image, in ingestion order.
    pub palettes: Vec<String>,
    /// The atlas image as a PNG stream.
    pub tileset: Vec<u8>,
}

/// A palette as a flat RGB colour table.
pub fn color_table(palette: &Palette) -> (table: Vec<u8>)
    ensures
        table@ == color_table_of(palette_view(*palette)),
{
    let mut table: Vec<u8> = Vec::with_capacity(48);
    let mut i: usize = 0;
    while i < 16
        invariant
            i <= 16,
            table@.len() == 3 * i,
            forall|k: int| 0 <= k < 3 * i ==> table@[k] == palette[k / 3][k % 3],
        decreases 16 - i,
    {
        let color: [u8; 3] = palette[i];
        table.push(color[0]);
        table.push(color[1]);
        table.push(color[2]);
        i += 1;
    }
    proof {
        assert(table@ =~= color_table_of(palette_view(*palette)));
    }
    table
}

impl TileStorage {
    /// Whether the registry holds more tiles than the atlas canvas shows.
    pub fn exceeds_atlas(&self) -> (b: bool)
        ensures
            b == (self.tiles@.len() > 512),
    {
        self.tiles.len() > ATLAS_TILES
    }

    /// The pixels of the atlas canvas, one palette index per pixel, row by row.
    pub fn atlas_pixels(&self) -> (pixels: Vec<u8>)
        ensures
            pixels@ == atlas_pixels(self.registry()),
    {
        let count: usize = self.tiles.len();
        let mut pixels: Vec<u8> = Vec::with_capacity(32768);
        let mut i: usize = 0;
        while i < 32768
            invariant
                i <= 32768,
                count == self.tiles@.len(),
                pixels@.len() == i,
                forall|k: int| 0 <= k < i ==> pixels@[k] == atlas_pixel(self.registry(), k),
            decreases 32768 - i,
        {
            let x: usize = i % 128;
            let y: usize = i / 128;
            let cell: usize = (y / 8) * 16 + x / 8;
            let value: u8 = if cell < count {
                self.tiles[cell].data[y % 8][x % 8]
            } else {
                0
            };
            pixels.push(value);
            i += 1;
        }
        proof {
            assert(pixels@ =~= atlas_pixels(self.registry()));
        }
        pixels
    }

    /// The packed rows of the atlas image: two pixels to a byte, the left one in the
    /// high half, row after row without padding.
    pub fn atlas_rows(&self) -> (rows: Vec<u8>)
        ensures
            rows@ == packed_nibbles(atlas_pixels(self.registry())),
    {
        let pixels = self.atlas_pixels();
        pack_nibbles(pixels.as_slice())
    }

    /// The files of a run: one palette text per ingested image, and the atlas as a
    /// 4-bit indexed PNG of 128 by 256 pixels that carries the first palette.
    ///
    /// Fails with `Encode` exactly where the PNG encoder refuses the image.
    pub fn output(&self) -> (r: Result<OutputFiles, TilesetError>)
        requires
            self.palettes@.len() > 0,
        ensures
            match png_encoded(
                128,
                256,
                color_table_of(palette_view(self.palettes@[0])),
                packed_nibbles(atlas_pixels(self.registry())),
            ) {
                Some(stream) => {
                    &&& r matches Ok(files)
                    &&& files.tileset@ == stream
                    &&& files.palettes@.len() == self.palettes@.len()
                    &&& forall|i: int|
                        0 <= i < self.palettes@.len() ==> (#[trigger] files.palettes@[i])@
                            == palette_text(palette_view(self.palettes@[i]))
                },
                None => r == Err::<OutputFiles, TilesetError>(TilesetError::Encode),
            },
    {
        let mut palettes: Vec<String> = Vec::with_capacity(self.palettes.len());
        let mut i: usize = 0;
        while i < self.palettes.len()
            invariant
                i <= self.palettes@.len(),
                palettes@.len() == i,
                forall|k: int|
                    0 <= k < i ==> (#[trigger] palettes@[k])@ == palette_text(
                        palette_view(self.palettes@[k]),
                    ),
            decreases self.palettes@.len() - i,
        {
            palettes.push(output_palette(&self.palettes[i]));
            i += 1;
        }
        let table = color_table(&self.palettes[0]);
        let rows = self.atlas_rows();
        match encode_image(ATLAS_WIDTH, ATLAS_HEIGHT, &table, &rows) {
            Ok(tileset) => Ok(OutputFiles { palettes, tileset }),
            Err(e) => Err(e),
        }
    }
}

} // verus!
