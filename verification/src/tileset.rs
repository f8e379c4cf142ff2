//! The tileset atlas: the tile registry, the palettes and the encoded metatiles.

use crate::codec::{decode_image, png_decoded, DecodedImage, ImageView};
use crate::config::refs_view;
use crate::error::TilesetError;
use crate::palette::{
    color_at, color_index, colors_known, extract_palette, index_pixels, indexed_pixels,
    lemma_first_color, palette_of, palette_view, used_colors, Palette,
};
use crate::registry::{
    lemma_first_match_is_lookup, lemma_growth_is_placed, lemma_lookup_is_first_match, lookup,
    placement, placement_in, registered, registered_all,
};
use crate::tile::{
    is_blank, is_indexed, is_square, lemma_row_in_bounds, metatile_block, orientation, quadrant,
    Metatile, Pixels, Tile, METATILE_SIZE,
};
use crate::word::{encode_word, push_word, word_bytes, word_of, MAX_PALETTES, METATILE_BYTES};
use vstd::prelude::*;

verus! {

/// The encoded words of one metatile of one ingested image.
#[derive(Debug, PartialEq, Eq)]
pub struct EncodedMetatile {
    /// The image that the metatile was cut from.
    pub sheet: String,
    /// The position of the metatile in that image, counted row by row.
    pub index: usize,
    /// Four words, low byte first.
    pub words: Vec<u8>,
}

/// The mapping that a list of encoded metatiles stands for. A later entry for the same
/// sheet and index replaces an earlier one.
pub open spec fn entries_map(entries: Seq<EncodedMetatile>) -> Map<(Seq<char>, int), Seq<u8>>
    decreases entries.len(),
{
    if entries.len() == 0 {
        Map::empty()
    } else {
        entries_map(entries.drop_last()).insert(
            (entries.last().sheet@, entries.last().index as int),
            entries.last().words@,
        )
    }
}

/// The tiles of an indexed image in the order in which they are pushed: metatile by
/// metatile, row by row, and within a metatile quadrant by quadrant.
pub open spec fn image_tiles(indexed: Seq<u8>, width: int, height: int) -> Seq<Pixels> {
    Seq::new(
        (4 * ((width / 16) * (height / 16))) as nat,
        |k: int|
            quadrant(
                metatile_block(indexed, width, (k / 4) % (width / 16), (k / 4) / (width / 16)),
                k % 4,
            ),
    )
}

/// The two bytes that tile `k` of `ts` is encoded as when the tiles of `ts` are pushed
/// in order onto `reg`.
pub open spec fn encoded_quadrant(reg: Seq<Pixels>, ts: Seq<Pixels>, palette_id: int, k: int) -> Seq<
    u8,
> {
    let p = placement_in(reg, ts, k);
    word_bytes(word_of(palette_id, p.1, p.2, p.0))
}

/// The eight bytes of metatile `m`: its four quadrant words in order.
pub open spec fn encoded_metatile(reg: Seq<Pixels>, ts: Seq<Pixels>, palette_id: int, m: int) -> Seq<
    u8,
> {
    encoded_quadrant(reg, ts, palette_id, 4 * m) + encoded_quadrant(reg, ts, palette_id, 4 * m + 1)
        + encoded_quadrant(reg, ts, palette_id, 4 * m + 2) + encoded_quadrant(
        reg,
        ts,
        palette_id,
        4 * m + 3,
    )
}

/// The map `base` with the first `count` metatiles of a sheet recorded under the sheet's
/// name and their index.
pub open spec fn with_metatiles(
    base: Map<(Seq<char>, int), Seq<u8>>,
    sheet: Seq<char>,
    count: int,
    reg: Seq<Pixels>,
    ts: Seq<Pixels>,
    palette_id: int,
) -> Map<(Seq<char>, int), Seq<u8>> {
    Map::new(
        |key: (Seq<char>, int)| base.contains_key(key) || (key.0 == sheet && 0 <= key.1 < count),
        |key: (Seq<char>, int)|
            if key.0 == sheet && 0 <= key.1 < count {
                encoded_metatile(reg, ts, palette_id, key.1)
            } else {
                base[key]
            },
    )
}

/// Why an image cannot be ingested, whatever the storage holds.
///
/// An image without a colour table, or whose pixel buffer is not three bytes per pixel,
/// is a decoding failure; then the sides must be multiples of 16; then every pixel
/// must have its colour in the palette.
pub open spec fn image_fault(image: ImageView) -> Option<TilesetError> {
    if image.color_table is None || image.pixels.len() != 3 * (image.width * image.height) {
        Some(TilesetError::Decode)
    } else if image.width % 16 != 0 || image.height % 16 != 0 {
        Some(TilesetError::Dimension)
    } else if !colors_known(image.color_table.unwrap(), image.pixels) {
        Some(TilesetError::PaletteMismatch)
    } else {
        None
    }
}

/// The tiles that ingesting a faultless image pushes, in order.
pub open spec fn tiles_of(image: ImageView) -> Seq<Pixels> {
    image_tiles(
        indexed_pixels(image.color_table.unwrap(), image.pixels),
        image.width,
        image.height,
    )
}

/// The deduplicated tiles, the palettes and the encoded metatiles of one conversion run.
#[derive(Debug)]
pub struct TileStorage {
    /// The canonical tiles in registration order; a new storage holds the blank tile.
    pub tiles: Vec<Tile>,
    /// One palette per ingested image, in ingestion order.
    pub palettes: Vec<Palette>,
    /// Where the run's files are to be written.
    pub output_folder: String,
    /// The encoded metatiles of the ingested images.
    pub encoded_metatiles: Vec<EncodedMetatile>,
}

impl TileStorage {
    /// The registry: the pixels of the canonical tiles, in registration order.
    pub open spec fn registry(&self) -> Seq<Pixels> {
        Seq::new(self.tiles@.len(), |i: int| self.tiles@[i]@)
    }

    /// The encoded metatiles by sheet and index.
    pub open spec fn metatiles(&self) -> Map<(Seq<char>, int), Seq<u8>> {
        entries_map(self.encoded_metatiles@)
    }

    /// Index 0 of the registry holds the blank tile.
    pub open spec fn wf(&self) -> bool {
        &&& self.tiles@.len() >= 1
        &&& is_blank(self.tiles@[0]@)
    }

    /// A storage that holds the blank tile and nothing else.
    pub fn new(output_folder: String) -> (s: TileStorage)
        ensures
            s.wf(),
            s.tiles@.len() == 1,
            s.palettes@.len() == 0,
            s.encoded_metatiles@.len() == 0,
            s.metatiles() == Map::<(Seq<char>, int), Seq<u8>>::empty(),
            s.output_folder == output_folder,
    {
        let mut tiles: Vec<Tile> = Vec::new();
        tiles.push(Tile::blank());
        TileStorage {
            tiles,
            palettes: Vec::new(),
            output_folder,
            encoded_metatiles: Vec::new(),
        }
    }

    /// Resolves a tile against the registry, appending it if nothing matches.
    ///
    /// Returns the index of the first entry that the tile equals up to mirroring,
    /// together with the mirroring; or, when no entry matches, the index of the new
    /// entry and no mirroring.
    pub fn push(&mut self, tile: Tile) -> (r: (usize, bool, bool))
        ensures
            (r.0 as int, r.1, r.2) == placement(old(self).registry(), tile@),
            final(self).registry() == registered(old(self).registry(), tile@),
            final(self).tiles@ == if lookup(old(self).registry(), tile@) is Some {
                old(self).tiles@
            } else {
                old(self).tiles@.push(tile)
            },
            final(self).palettes == old(self).palettes,
            final(self).output_folder == old(self).output_folder,
            final(self).encoded_metatiles == old(self).encoded_metatiles,
            old(self).wf() ==> final(self).wf(),
    {
        let ghost reg = self.registry();
        let count: usize = self.tiles.len();
        let mut i: usize = 0;
        while i < count
            invariant
                i <= count,
                count == self.tiles@.len(),
                *self == *old(self),
                reg == self.registry(),
                forall|j: int| 0 <= j < i ==> orientation(#[trigger] reg[j], tile@) is None,
            decreases count - i,
        {
            let (equivalent, flip_x, flip_y) = self.tiles[i].is_equivalent(&tile);
            if equivalent {
                proof {
                    lemma_first_match_is_lookup(reg, tile@, i as int);
                }
                return (i, flip_x, flip_y);
            }
            i += 1;
        }
        proof {
            lemma_lookup_is_first_match(reg, tile@);
        }
        self.tiles.push(tile);
        proof {
            assert(self.registry() =~= reg.push(tile@));
        }
        (count, false, false)
    }

    /// Appends a palette.
    pub fn add_palette(&mut self, palette: Palette)
        ensures
            final(self).palettes@ == old(self).palettes@.push(palette),
            final(self).tiles == old(self).tiles,
            final(self).output_folder == old(self).output_folder,
            final(self).encoded_metatiles == old(self).encoded_metatiles,
    {
        self.palettes.push(palette);
    }

    /// The storage holds what `before` held: nothing was added, removed or changed.
    pub open spec fn same_as(self, before: TileStorage) -> bool {
        &&& self.tiles@ == before.tiles@
        &&& self.palettes@ == before.palettes@
        &&& self.encoded_metatiles@ == before.encoded_metatiles@
        &&& self.output_folder == before.output_folder
    }

    /// Why ingesting `image` fails, or `None` where it succeeds.
    ///
    /// A fault of the image itself comes first. Otherwise ingestion fails with
    /// `Capacity` when the storage already holds sixteen palettes, or when some tile
    /// of the image would get an index that does not fit in ten bits.
    pub open spec fn ingest_error(self, image: ImageView) -> Option<TilesetError> {
        match image_fault(image) {
            Some(e) => Some(e),
            None => if self.palettes@.len() >= 16 || exists|k: int|
                0 <= k < tiles_of(image).len() && (#[trigger] placement_in(
                    self.registry(),
                    tiles_of(image),
                    k,
                )).0 >= 1024 {
                Some(TilesetError::Capacity)
            } else {
                None
            },
        }
    }

    /// The storage is `before` with `image` ingested under the name `path`.
    ///
    /// The tiles of the image were pushed in order; the image's palette was appended;
    /// and every metatile of the image is recorded under `(path, index)`, replacing what
    /// was recorded there.
    pub open spec fn holds_image(self, before: TileStorage, path: Seq<char>, image: ImageView) -> bool {
        let ts = tiles_of(image);
        let reg = before.registry();
        let palette_id = before.palettes@.len() as int;
        let count = (image.width / 16) * (image.height / 16);
        &&& self.registry() == registered_all(reg, ts)
        &&& self.tiles@.len() >= before.tiles@.len()
        &&& self.tiles@.take(before.tiles@.len() as int) == before.tiles@
        &&& self.palettes@.len() == palette_id + 1
        &&& self.palettes@.take(palette_id) == before.palettes@
        &&& palette_view(self.palettes@[palette_id]) == palette_of(image.color_table.unwrap())
        &&& self.metatiles() == with_metatiles(before.metatiles(), path, count, reg, ts, palette_id)
        &&& self.output_folder == before.output_folder
    }

    /// Pushes the four tiles of metatile `m` and encodes their words.
    fn place_metatile(
        &mut self,
        tiles: &Vec<Tile>,
        palette_id: usize,
        Ghost(reg): Ghost<Seq<Pixels>>,
        Ghost(ts): Ghost<Seq<Pixels>>,
        Ghost(m): Ghost<int>,
    ) -> (r: Result<Vec<u8>, TilesetError>)
        requires
            tiles@.len() == 4,
            0 <= m,
            4 * m + 4 <= ts.len(),
            forall|q: int| 0 <= q < 4 ==> (#[trigger] tiles@[q])@ == ts[4 * m + q],
            old(self).registry() == registered_all(reg, ts.take(4 * m)),
            palette_id < 16,
        ensures
            final(self).tiles@.len() >= old(self).tiles@.len(),
            final(self).tiles@.take(old(self).tiles@.len() as int) == old(self).tiles@,
            final(self).palettes == old(self).palettes,
            final(self).output_folder == old(self).output_folder,
            final(self).encoded_metatiles == old(self).encoded_metatiles,
            match r {
                Ok(words) => {
                    &&& words@ == encoded_metatile(reg, ts, palette_id as int, m)
                    &&& final(self).registry() == registered_all(reg, ts.take(4 * m + 4))
                    &&& forall|k: int|
                        4 * m <= k < 4 * m + 4 ==> (#[trigger] placement_in(reg, ts, k)).0 < 1024
                },
                Err(e) => {
                    &&& e == TilesetError::Capacity
                    &&& exists|k: int|
                        4 * m <= k < 4 * m + 4 && (#[trigger] placement_in(reg, ts, k)).0 >= 1024
                },
            },
    {
        let mut words: Vec<u8> = Vec::with_capacity(METATILE_BYTES);
        let ghost base = ts.take(4 * m);
        let mut q: usize = 0;
        while q < 4
            invariant
                q <= 4,
                tiles@.len() == 4,
                0 <= m,
                4 * m + 4 <= ts.len(),
                palette_id < 16,
                forall|j: int| 0 <= j < 4 ==> (#[trigger] tiles@[j])@ == ts[4 * m + j],
                self.registry() == registered_all(reg, ts.take(4 * m + q)),
                self.tiles@.len() >= old(self).tiles@.len(),
                self.tiles@.take(old(self).tiles@.len() as int) == old(self).tiles@,
                self.palettes == old(self).palettes,
                self.output_folder == old(self).output_folder,
                self.encoded_metatiles == old(self).encoded_metatiles,
                forall|k: int| 4 * m <= k < 4 * m + q ==> (#[trigger] placement_in(reg, ts, k)).0 < 1024,
                words@.len() == 2 * q,
                forall|j: int|
                    0 <= j < q ==> #[trigger] words@.subrange(2 * j, 2 * j + 2) == encoded_quadrant(
                        reg,
                        ts,
                        palette_id as int,
                        4 * m + j,
                    ),
            decreases 4 - q,
        {
            let ghost k = 4 * m + q;
            let ghost before_tiles = self.tiles@;
            let ghost before_words = words@;
            let (tile_id, flip_x, flip_y) = self.push(tiles[q]);
            proof {
                lemma_take_step(reg, ts, k);
                assert(tiles@[q as int]@ == ts[k]);
                assert(self.tiles@.take(old(self).tiles@.len() as int) =~= before_tiles.take(
                    old(self).tiles@.len() as int,
                ));
            }
            match encode_word(palette_id, flip_x, flip_y, tile_id) {
                Ok(word) => {
                    push_word(&mut words, word);
                    proof {
                        assert(placement_in(reg, ts, k).0 < 1024);
                        assert forall|j: int| 0 <= j < q + 1 implies #[trigger] words@.subrange(
                            2 * j,
                            2 * j + 2,
                        ) == encoded_quadrant(reg, ts, palette_id as int, 4 * m + j) by {
                            if j < q {
                                assert(words@.subrange(2 * j, 2 * j + 2) =~= before_words.subrange(
                                    2 * j,
                                    2 * j + 2,
                                ));
                            } else {
                                assert(words@.subrange(2 * j, 2 * j + 2) =~= word_bytes(word as int));
                            }
                        }
                    }
                },
                Err(e) => {
                    proof {
                        assert(placement_in(reg, ts, k).0 >= 1024);
                    }
                    return Err(e);
                },
            }
            q += 1;
        }
        proof {
            let e = encoded_metatile(reg, ts, palette_id as int, m);
            assert(words@ =~= words@.subrange(0, 2) + words@.subrange(2, 4) + words@.subrange(4, 6)
                + words@.subrange(6, 8));
            assert(words@.subrange(2 * 0int, 2 * 0int + 2) == encoded_quadrant(
                reg,
                ts,
                palette_id as int,
                4 * m + 0,
            ));
            assert(words@.subrange(2 * 1int, 2 * 1int + 2) == encoded_quadrant(
                reg,
                ts,
                palette_id as int,
                4 * m + 1,
            ));
            assert(words@.subrange(2 * 2int, 2 * 2int + 2) == encoded_quadrant(
                reg,
                ts,
                palette_id as int,
                4 * m + 2,
            ));
            assert(words@.subrange(2 * 3int, 2 * 3int + 2) == encoded_quadrant(
                reg,
                ts,
                palette_id as int,
                4 * m + 3,
            ));
        }
        Ok(words)
    }

    /// Ingests a decoded image under the name `path`.
    ///
    /// The image's palette is appended, its metatiles are cut out row by row, the four
    /// tiles of each are pushed, and the resulting words are recorded under `(path,
    /// metatile index)`. On any error the storage is left as it was.
    pub fn add_decoded(&mut self, path: String, image: &DecodedImage) -> (r: Result<
        (),
        TilesetError,
    >)
        ensures
            match old(self).ingest_error(image@) {
                Some(e) => r == Err::<(), TilesetError>(e) && final(self).same_as(*old(self)),
                None => r == Ok::<(), TilesetError>(()) && final(self).holds_image(
                    *old(self),
                    path@,
                    image@,
                ),
            },
            old(self).wf() ==> final(self).wf(),
    {
        let table: &Vec<u8> = match &image.color_table {
            Some(t) => t,
            None => {
                return Err(TilesetError::Decode);
            },
        };
        let width: usize = image.width as usize;
        let height: usize = image.height as usize;
        proof {
            assert(image.width as int * image.height as int <= 0xffff_ffff * 0xffff_ffff)
                by (nonlinear_arith)
                requires
                    0 <= image.width as int <= 0xffff_ffff,
                    0 <= image.height as int <= 0xffff_ffff,
            ;
        }
        let area: u64 = image.width as u64 * image.height as u64;
        let len: usize = image.pixels.len();
        if len % 3 != 0 || (len / 3) as u64 != area {
            return Err(TilesetError::Decode);
        }
        if width % METATILE_SIZE != 0 || height % METATILE_SIZE != 0 {
            return Err(TilesetError::Dimension);
        }
        let indexed: Vec<u8> = match index_pixels(table.as_slice(), image.pixels.as_slice()) {
            Some(v) => v,
            None => {
                return Err(TilesetError::PaletteMismatch);
            },
        };
        if self.palettes.len() >= MAX_PALETTES {
            return Err(TilesetError::Capacity);
        }
        let palette_id: usize = self.palettes.len();
        let across: usize = width / METATILE_SIZE;
        let down: usize = height / METATILE_SIZE;
        let tiles_before: usize = self.tiles.len();
        let entries_before: usize = self.encoded_metatiles.len();
        let ghost reg = self.registry();
        let ghost ts = tiles_of(image@);
        let ghost base = self.metatiles();
        let ghost count = (across as int) * (down as int);
        proof {
            assert(indexed@.len() == width * height);
            assert(count == (image@.width / 16) * (image@.height / 16));
            assert(ts.len() == 4 * count);
            assert(0 <= count) by (nonlinear_arith)
                requires
                    count == (across as int) * (down as int),
                    0 <= across as int,
                    0 <= down as int,
            ;
            assert(count <= width * height) by (nonlinear_arith)
                requires
                    count == (across as int) * (down as int),
                    0 <= across as int <= width as int,
                    0 <= down as int <= height as int,
            ;
            assert(ts.take(0) =~= Seq::<Pixels>::empty());
            assert(self.tiles@.take(tiles_before as int) =~= self.tiles@);
            assert(self.encoded_metatiles@.take(entries_before as int) =~= self.encoded_metatiles@);
            assert(self.metatiles() =~= with_metatiles(base, path@, 0, reg, ts, palette_id as int));
        }
        let mut m: usize = 0;
        let mut mx: usize = 0;
        let mut my: usize = 0;
        while my < down && across > 0
            invariant
                across == width / 16,
                down == height / 16,
                width % 16 == 0,
                height % 16 == 0,
                width == image@.width,
                height == image@.height,
                image_fault(image@) is None,
                image@.color_table is Some,
                indexed@ == indexed_pixels(image@.color_table.unwrap(), image@.pixels),
                indexed@.len() == width * height,
                count == (across as int) * (down as int),
                ts == tiles_of(image@),
                ts.len() == 4 * count,
                reg == old(self).registry(),
                base == old(self).metatiles(),
                palette_id == old(self).palettes@.len(),
                palette_id < 16,
                tiles_before == old(self).tiles@.len(),
                entries_before == old(self).encoded_metatiles@.len(),
                my <= down,
                across > 0 ==> mx < across,
                my == down ==> mx == 0,
                m == my * across + mx,
                0 <= m <= count <= usize::MAX,
                self.registry() == registered_all(reg, ts.take(4 * m)),
                forall|k: int| 0 <= k < 4 * m ==> (#[trigger] placement_in(reg, ts, k)).0 < 1024,
                self.tiles@.len() >= tiles_before,
                self.tiles@.take(tiles_before as int) == old(self).tiles@,
                self.encoded_metatiles@.len() == entries_before + m,
                self.encoded_metatiles@.take(entries_before as int) == old(self).encoded_metatiles@,
                self.metatiles() == with_metatiles(base, path@, m as int, reg, ts, palette_id as int),
                self.palettes == old(self).palettes,
                self.output_folder == old(self).output_folder,
            decreases count - m,
        {
            proof {
                lemma_row_in_bounds(my as int, across as int, down as int);
                assert(across as int * down as int == down as int * across as int)
                    by (nonlinear_arith);
                vstd::arithmetic::div_mod::lemma_fundamental_div_mod_converse(
                    m as int,
                    across as int,
                    my as int,
                    mx as int,
                );
            }
            let block = Metatile::cut(&indexed, width, height, mx, my);
            let tiles = Tile::extract(block.data);
            proof {
                assert(block@ =~= Seq::new(16, |r: int| block.data[r]@));
                assert forall|q: int| 0 <= q < 4 implies (#[trigger] tiles@[q])@ == ts[4 * m + q] by {
                    let k = 4 * m + q;
                    assert(k / 4 == m && k % 4 == q);
                }
            }
            let ghost tiles_mid = self.tiles@;
            match self.place_metatile(&tiles, palette_id, Ghost(reg), Ghost(ts), Ghost(m as int)) {
                Ok(words) => {
                    let ghost entries_mid = self.encoded_metatiles@;
                    let entry = EncodedMetatile { sheet: path.clone(), index: m, words };
                    self.encoded_metatiles.push(entry);
                    proof {
                        assert(self.tiles@.take(tiles_before as int) =~= tiles_mid.take(
                            tiles_before as int,
                        ));
                        assert(self.encoded_metatiles@.drop_last() =~= entries_mid);
                        assert(self.encoded_metatiles@.take(entries_before as int)
                            =~= entries_mid.take(entries_before as int));
                        assert(self.metatiles() =~= with_metatiles(
                            base,
                            path@,
                            m as int + 1,
                            reg,
                            ts,
                            palette_id as int,
                        ));
                    }
                },
                Err(e) => {
                    self.tiles.truncate(tiles_before);
                    self.encoded_metatiles.truncate(entries_before);
                    proof {
                        assert(self.tiles@ =~= old(self).tiles@);
                        assert(self.encoded_metatiles@ =~= old(self).encoded_metatiles@);
                        let k = choose|k: int|
                            4 * m <= k < 4 * m + 4 && (#[trigger] placement_in(reg, ts, k)).0 >= 1024;
                        assert(0 <= k < ts.len() && placement_in(reg, ts, k).0 >= 1024);
                        assert(old(self).ingest_error(image@) == Some(TilesetError::Capacity));
                    }
                    return Err(e);
                },
            }
            let ghost (pm, pmx, pmy) = (m, mx, my);
            m += 1;
            mx += 1;
            if mx == across {
                mx = 0;
                my += 1;
            }
            proof {
                assert(m == my * across + mx) by (nonlinear_arith)
                    requires
                        pm == pmy * across + pmx,
                        m == pm + 1,
                        (mx == pmx + 1 && my == pmy) || (pmx + 1 == across && mx == 0 && my == pmy
                            + 1),
                ;
            }
        }
        let palette = extract_palette(table.as_slice());
        let ghost palettes_mid = self.palettes@;
        self.palettes.push(palette);
        proof {
            assert(m == count) by (nonlinear_arith)
                requires
                    m == my * across + mx,
                    count == (across as int) * (down as int),
                    my == down ==> mx == 0,
                    my <= down,
                    !(my < down && across > 0),
                    0 <= m <= count,
            ;
            assert(ts.take(4 * m) =~= ts);
            assert(self.palettes@.take(palette_id as int) =~= palettes_mid);
        }
        Ok(())
    }

    /// Ingests the PNG stream `bytes`, read from the file `path`.
    ///
    /// A stream that the decoder rejects is a `Decode` error; a decoded image is
    /// ingested as `add_decoded` says. On any error the storage is left as it was.
    pub fn add_image(&mut self, path: String, bytes: &[u8]) -> (r: Result<(), TilesetError>)
        ensures
            match png_decoded(bytes@) {
                None => r == Err::<(), TilesetError>(TilesetError::Decode) && final(self).same_as(
                    *old(self),
                ),
                Some(image) => match old(self).ingest_error(image) {
                    Some(e) => r == Err::<(), TilesetError>(e) && final(self).same_as(*old(self)),
                    None => r == Ok::<(), TilesetError>(()) && final(self).holds_image(
                        *old(self),
                        path@,
                        image,
                    ),
                },
            },
            old(self).wf() ==> final(self).wf(),
    {
        match decode_image(bytes) {
            Ok(image) => self.add_decoded(path, &image),
            Err(e) => Err(e),
        }
    }

    /// The palette of the PNG stream `bytes`.
    ///
    /// Fails with `Decode` when the decoder rejects the stream or the image has no
    /// colour table.
    pub fn read_palette(bytes: &[u8]) -> (r: Result<Palette, TilesetError>)
        ensures
            match png_decoded(bytes@) {
                Some(image) if image.color_table is Some => r is Ok && palette_view(r.unwrap())
                    == palette_of(image.color_table.unwrap()),
                _ => r == Err::<Palette, TilesetError>(TilesetError::Decode),
            },
    {
        match decode_image(bytes) {
            Ok(image) => match &image.color_table {
                Some(table) => Ok(extract_palette(table.as_slice())),
                None => Err(TilesetError::Decode),
            },
            Err(e) => Err(e),
        }
    }

    /// The words recorded for metatile `index` of `sheet`, if there are any.
    pub fn metatile_words(&self, sheet: &String, index: usize) -> (r: Option<&Vec<u8>>)
        ensures
            match r {
                Some(words) => self.metatiles().contains_key((sheet@, index as int))
                    && words@ == self.metatiles()[(sheet@, index as int)],
                None => !self.metatiles().contains_key((sheet@, index as int)),
            },
    {
        let ghost key = (sheet@, index as int);
        let ghost all = self.encoded_metatiles@;
        let mut i: usize = self.encoded_metatiles.len();
        proof {
            assert(all.take(i as int) =~= all);
        }
        while i > 0
            invariant
                i <= all.len(),
                all == self.encoded_metatiles@,
                key == (sheet@, index as int),
                entries_map(all).contains_key(key) == entries_map(all.take(i as int)).contains_key(
                    key,
                ),
                entries_map(all).contains_key(key) ==> entries_map(all)[key] == entries_map(
                    all.take(i as int),
                )[key],
            decreases i,
        {
            i -= 1;
            let entry = &self.encoded_metatiles[i];
            proof {
                assert(all.take(i + 1).drop_last() =~= all.take(i as int));
                assert(all.take(i + 1).last() == all[i as int]);
            }
            if entry.index == index && entry.sheet == *sheet {
                return Some(&entry.words);
            }
        }
        proof {
            assert(all.take(0) =~= Seq::<EncodedMetatile>::empty());
        }
        None
    }

    /// The metatile binary: the recorded words of each referenced metatile, in the
    /// order of the references.
    ///
    /// Fails with `MissingMetatile`, naming the first reference that no ingested image
    /// provides.
    pub fn metatile_binary(&self, refs: &Vec<(String, usize)>) -> (r: Result<Vec<u8>, TilesetError>)
        ensures
            match first_missing(self.metatiles(), refs_view(refs@), refs@.len() as int) {
                Some(i) => r matches Err(TilesetError::MissingMetatile { sheet, index })
                    && sheet@ == refs@[i].0@ && index == refs@[i].1,
                None => r matches Ok(bytes) && bytes@ == binary_of(
                    self.metatiles(),
                    refs_view(refs@),
                    refs@.len() as int,
                ),
            },
    {
        let ghost map = self.metatiles();
        let ghost keys = refs_view(refs@);
        let mut out: Vec<u8> = Vec::new();
        let mut i: usize = 0;
        while i < refs.len()
            invariant
                i <= refs@.len(),
                map == self.metatiles(),
                keys == refs_view(refs@),
                first_missing(map, keys, i as int) is None,
                out@ == binary_of(map, keys, i as int),
            decreases refs@.len() - i,
        {
            let sheet: &String = &refs[i].0;
            let index: usize = refs[i].1;
            match self.metatile_words(sheet, index) {
                Some(words) => {
                    let mut j: usize = 0;
                    let ghost before = out@;
                    while j < words.len()
                        invariant
                            j <= words@.len(),
                            out@ == before + words@.take(j as int),
                        decreases words@.len() - j,
                    {
                        out.push(words[j]);
                        j += 1;
                        proof {
                            assert(words@.take(j as int) =~= words@.take(j - 1).push(words@[j - 1]));
                            assert(out@ =~= before + words@.take(j as int));
                        }
                    }
                    proof {
                        assert(words@.take(j as int) =~= words@);
                    }
                },
                None => {
                    proof {
                        lemma_missing_stays(map, keys, i as int + 1, refs@.len() as int);
                    }
                    return Err(TilesetError::MissingMetatile { sheet: sheet.clone(), index });
                },
            }
            i += 1;
        }
        Ok(out)
    }
}

/// The first of the first `n` references that the map does not hold.
pub open spec fn first_missing(
    map: Map<(Seq<char>, int), Seq<u8>>,
    refs: Seq<(Seq<char>, int)>,
    n: int,
) -> Option<int>
    decreases n,
{
    if n <= 0 {
        None
    } else {
        match first_missing(map, refs, n - 1) {
            Some(i) => Some(i),
            None => if map.contains_key(refs[n - 1]) {
                None
            } else {
                Some(n - 1)
            },
        }
    }
}

/// The words of the first `n` references, one after the other.
pub open spec fn binary_of(
    map: Map<(Seq<char>, int), Seq<u8>>,
    refs: Seq<(Seq<char>, int)>,
    n: int,
) -> Seq<u8>
    decreases n,
{
    if n <= 0 {
        Seq::empty()
    } else {
        binary_of(map, refs, n - 1) + map[refs[n - 1]]
    }
}

/// A reference missing among the first `n` is the first missing among any more.
pub proof fn lemma_missing_stays(
    map: Map<(Seq<char>, int), Seq<u8>>,
    refs: Seq<(Seq<char>, int)>,
    n: int,
    m: int,
)
    requires
        n <= m,
        first_missing(map, refs, n) is Some,
    ensures
        first_missing(map, refs, m) == first_missing(map, refs, n),
    decreases m - n,
{
    if n < m {
        lemma_missing_stays(map, refs, n, m - 1);
    }
}

/// Ingesting a faultless image whose tiles would take a registry of at most 1024
/// entries past 1024 fails with `Capacity`.
pub proof fn lemma_overflow_is_capacity(storage: TileStorage, image: ImageView)
    requires
        image_fault(image) is None,
        storage.registry().len() <= 1024,
        registered_all(storage.registry(), tiles_of(image)).len() > 1024,
    ensures
        storage.ingest_error(image) == Some(TilesetError::Capacity),
{
    lemma_growth_is_placed(storage.registry(), tiles_of(image), 1024);
}

/// Every tile of a faultless image holds palette indices below sixteen.
pub proof fn lemma_image_tiles_indexed(image: ImageView, k: int)
    requires
        image_fault(image) is None,
        0 <= image.width,
        0 <= image.height,
        0 <= k < tiles_of(image).len(),
    ensures
        is_square(tiles_of(image)[k], 8),
        is_indexed(tiles_of(image)[k]),
{
    let table = image.color_table.unwrap();
    let indexed = indexed_pixels(table, image.pixels);
    let across = image.width / 16;
    let down = image.height / 16;
    let m = k / 4;
    let q = k % 4;
    assert(across > 0 && down > 0 && m < across * down) by (nonlinear_arith)
        requires
            0 <= across,
            0 <= down,
            0 <= m,
            4 * m < 4 * (across * down),
    ;
    let mx = m % across;
    let my = m / across;
    assert(0 <= my < down) by {
        vstd::arithmetic::div_mod::lemma_fundamental_div_mod(m, across);
        assert(my < down) by (nonlinear_arith)
            requires
                m == across * my + mx,
                0 <= mx < across,
                m < across * down,
        ;
        assert(0 <= my) by (nonlinear_arith)
            requires
                m == across * my + mx,
                0 <= mx < across,
                0 <= m,
        ;
    }
    let tile = tiles_of(image)[k];
    assert forall|r: int, c: int| 0 <= r < tile.len() && 0 <= c < tile[r].len() implies #[trigger] tile[r][c]
        < 16 by {
        let row = 16 * my + r + 8 * (q / 2);
        let col = 16 * mx + c + 8 * (q % 2);
        lemma_row_in_bounds(row, image.width, image.height);
        let i = row * image.width + col;
        assert(tile[r][c] == indexed[i]);
        assert(color_index(table, color_at(image.pixels, i)) is Some);
        lemma_first_color(table, color_at(image.pixels, i), used_colors(table));
    }
}

/// Pushing the first `k + 1` tiles is pushing the first `k` and then tile `k`.
pub proof fn lemma_take_step(reg: Seq<Pixels>, ts: Seq<Pixels>, k: int)
    requires
        0 <= k < ts.len(),
    ensures
        registered_all(reg, ts.take(k + 1)) == registered(registered_all(reg, ts.take(k)), ts[k]),
{
    assert(ts.take(k + 1).drop_last() =~= ts.take(k));
    assert(ts.take(k + 1).last() == ts[k]);
}

} // verus!
