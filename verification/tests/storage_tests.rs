use pokerus::atlas::OutputFiles;
use pokerus::bits::pack_nibbles;
use pokerus::codec::{decode_image, encode_image, DecodedImage};
use pokerus::error::TilesetError;
use pokerus::tile::Tile;
use pokerus::tileset::TileStorage;

fn storage() -> TileStorage {
    TileStorage::new(String::from("out"))
}

/// A tile without any symmetry.
fn lopsided(seed: u8) -> Tile {
    let mut data = [[0u8; 8]; 8];
    data[0][0] = 1;
    data[0][1] = 2;
    data[1][0] = 3;
    data[5][6] = seed % 16;
    data[6][2] = seed / 16;
    Tile::new(data)
}

/// An indexed PNG, eight bits per pixel, made by the png encoder.
fn indexed_png(width: u32, height: u32, table: &[u8], indices: &[u8]) -> Vec<u8> {
    let mut stream = Vec::new();
    {
        let mut encoder = png::Encoder::new(&mut stream, width, height);
        encoder.set_color(png::ColorType::Indexed);
        encoder.set_depth(png::BitDepth::Eight);
        encoder.set_palette(table.to_vec());
        let mut writer = encoder.write_header().unwrap();
        writer.write_image_data(indices).unwrap();
    }
    stream
}

/// A truecolor PNG without colour table.
fn rgb_png(width: u32, height: u32, pixels: &[u8]) -> Vec<u8> {
    let mut stream = Vec::new();
    {
        let mut encoder = png::Encoder::new(&mut stream, width, height);
        encoder.set_color(png::ColorType::RGB);
        encoder.set_depth(png::BitDepth::Eight);
        let mut writer = encoder.write_header().unwrap();
        writer.write_image_data(pixels).unwrap();
    }
    stream
}

/// The decoded form of an indexed image with the colours 0: black, 1: red, 2: green, 3: blue.
fn decoded(width: u32, height: u32, indices: &[u8]) -> DecodedImage {
    let table: Vec<u8> = vec![0, 0, 0, 255, 0, 0, 0, 255, 0, 0, 0, 255];
    let mut pixels = Vec::new();
    for &i in indices {
        pixels.extend_from_slice(&table[3 * i as usize..3 * i as usize + 3]);
    }
    DecodedImage { width, height, pixels, color_table: Some(table) }
}

/// An image one metatile wide whose tiles are pairwise different under every mirroring;
/// `blank_last` leaves the very last tile blank.
fn many_tiles(metatiles: usize, blank_last: bool) -> DecodedImage {
    let height = 16 * metatiles;
    let mut indices = vec![0u8; 16 * height];
    for k in 0..4 * metatiles {
        if blank_last && k == 4 * metatiles - 1 {
            continue;
        }
        let x0 = 8 * (k % 2);
        let y0 = 16 * (k / 4) + 8 * ((k % 4) / 2);
        let mut put = |r: usize, c: usize, v: u8| indices[(y0 + r) * 16 + x0 + c] = v;
        put(0, 0, 1);
        put(0, 1, 2);
        put(1, 0, 3);
        for bit in 0..12 {
            if (k >> bit) & 1 == 1 {
                put(3 + bit / 4, 2 + bit % 4, 1);
            }
        }
    }
    decoded(16, height as u32, &indices)
}

#[test]
fn new_storage_holds_only_the_blank_tile() {
    let s = storage();
    assert_eq!(s.tiles.len(), 1);
    assert_eq!(s.tiles[0], Tile::blank());
    assert_eq!(s.tiles[0].data, [[0u8; 8]; 8]);
    assert!(s.palettes.is_empty());
    assert!(s.encoded_metatiles.is_empty());
    assert_eq!(s.output_folder, "out");
}

#[test]
fn pushing_the_blank_tile_finds_index_zero() {
    let mut s = storage();
    assert_eq!(s.push(Tile::blank()), (0, false, false));
    assert_eq!(s.tiles.len(), 1);
}

#[test]
fn pushing_a_tile_twice_gives_the_same_index() {
    let mut s = storage();
    let t = lopsided(1);
    assert_eq!(s.push(t), (1, false, false));
    assert_eq!(s.push(t), (1, false, false));
    assert_eq!(s.tiles.len(), 2);
    assert_eq!(s.tiles[1], t);
}

#[test]
fn a_mirrored_tile_pushed_twice_keeps_its_flags() {
    let mut s = storage();
    let t = lopsided(1);
    s.push(t);
    assert_eq!(s.push(t.flip_x()), (1, true, false));
    assert_eq!(s.push(t.flip_x()), (1, true, false));
}

#[test]
fn mirror_images_resolve_to_the_same_index() {
    let mut s = storage();
    let t = lopsided(2);
    assert_eq!(s.push(t), (1, false, false));
    assert_eq!(s.push(t.flip_x()), (1, true, false));
    assert_eq!(s.push(t.flip_y().flip_x()), (1, true, true));
    assert_eq!(s.push(t.flip_y()), (1, false, true));
    assert_eq!(s.tiles.len(), 2);
}

#[test]
fn different_tiles_get_consecutive_indices() {
    let mut s = storage();
    for k in 0..20u8 {
        assert_eq!(s.push(lopsided(k + 1)), (k as usize + 1, false, false));
    }
    assert_eq!(s.tiles.len(), 21);
    assert_eq!(s.push(lopsided(7).flip_y()), (7, false, true));
    assert_eq!(s.tiles[0], Tile::blank());
}

#[test]
fn the_first_matching_entry_wins() {
    let mut s = storage();
    let t = lopsided(3);
    s.tiles.push(t.flip_x());
    s.tiles.push(t);
    assert_eq!(s.push(t), (1, true, false));
}

#[test]
fn add_palette_appends() {
    let mut s = storage();
    let mut p = [[0u8; 3]; 16];
    p[2] = [1, 2, 3];
    s.add_palette(p);
    s.add_palette([[9u8; 3]; 16]);
    assert_eq!(s.palettes, vec![p, [[9u8; 3]; 16]]);
    assert_eq!(s.tiles.len(), 1);
}

#[test]
fn end_to_end_single_color_image() {
    let table = [0u8, 0, 0, 255, 0, 0];
    let png = indexed_png(16, 16, &table, &[1u8; 256]);
    let mut s = storage();
    assert_eq!(s.add_image(String::from("sheet.png"), &png), Ok(()));
    assert_eq!(s.tiles.len(), 2);
    assert_eq!(s.tiles[0], Tile::blank());
    assert_eq!(s.tiles[1], Tile::new([[1u8; 8]; 8]));
    assert_eq!(s.palettes.len(), 1);
    assert_eq!(s.palettes[0][0], [0, 0, 0]);
    assert_eq!(s.palettes[0][1], [255, 0, 0]);
    assert_eq!(s.palettes[0][2], [0, 0, 0]);
    assert_eq!(s.encoded_metatiles.len(), 1);
    assert_eq!(s.encoded_metatiles[0].sheet, "sheet.png");
    assert_eq!(s.encoded_metatiles[0].index, 0);
    assert_eq!(s.encoded_metatiles[0].words, vec![1, 0, 1, 0, 1, 0, 1, 0]);
    assert_eq!(s.metatile_words(&String::from("sheet.png"), 0), Some(&vec![1u8, 0, 1, 0, 1, 0, 1, 0]));
}

#[test]
fn the_second_image_uses_the_second_palette() {
    let table = [0u8, 0, 0, 255, 0, 0];
    let png = indexed_png(16, 16, &table, &[1u8; 256]);
    let mut s = storage();
    s.add_image(String::from("one.png"), &png).unwrap();
    s.add_image(String::from("two.png"), &png).unwrap();
    assert_eq!(s.tiles.len(), 2);
    assert_eq!(s.palettes.len(), 2);
    assert_eq!(
        s.metatile_words(&String::from("two.png"), 0),
        Some(&vec![0x01u8, 0x10, 0x01, 0x10, 0x01, 0x10, 0x01, 0x10])
    );
}

#[test]
fn decode_image_reads_size_pixels_and_color_table() {
    let table = [0u8, 0, 0, 255, 0, 0, 1, 2, 3];
    let mut indices = vec![0u8; 32 * 16];
    indices[1] = 1;
    indices[33] = 2;
    let image = decode_image(&indexed_png(32, 16, &table, &indices)).unwrap();
    assert_eq!(image.width, 32);
    assert_eq!(image.height, 16);
    assert_eq!(image.color_table, Some(table.to_vec()));
    assert_eq!(image.pixels.len(), 32 * 16 * 3);
    assert_eq!(&image.pixels[0..6], &[0, 0, 0, 255, 0, 0]);
    assert_eq!(&image.pixels[99..102], &[1, 2, 3]);
}

#[test]
fn decode_image_rejects_what_is_no_png() {
    assert_eq!(decode_image(&[]), Err(TilesetError::Decode));
    assert_eq!(decode_image(b"not a png at all"), Err(TilesetError::Decode));
    let mut s = storage();
    assert_eq!(s.add_image(String::from("x"), b"junk"), Err(TilesetError::Decode));
    assert_eq!(s.tiles.len(), 1);
    assert_eq!(TileStorage::read_palette(b"junk"), Err(TilesetError::Decode));
}

#[test]
fn an_image_without_color_table_is_a_decode_error() {
    let png = rgb_png(16, 16, &[0u8; 16 * 16 * 3]);
    let mut s = storage();
    assert_eq!(s.add_image(String::from("rgb.png"), &png), Err(TilesetError::Decode));
    assert_eq!(TileStorage::read_palette(&png), Err(TilesetError::Decode));
    assert!(s.palettes.is_empty());
}

#[test]
fn a_pixel_buffer_of_the_wrong_length_is_a_decode_error() {
    let mut image = decoded(16, 16, &[0u8; 256]);
    image.pixels.pop();
    let mut s = storage();
    assert_eq!(s.add_decoded(String::from("x"), &image), Err(TilesetError::Decode));
    let mut image = decoded(16, 16, &[0u8; 256]);
    image.pixels.extend_from_slice(&[0, 0, 0]);
    assert_eq!(s.add_decoded(String::from("x"), &image), Err(TilesetError::Decode));
}

#[test]
fn sides_must_be_multiples_of_sixteen() {
    let mut s = storage();
    assert_eq!(s.add_decoded(String::from("x"), &decoded(8, 16, &[0u8; 128])), Err(TilesetError::Dimension));
    assert_eq!(s.add_decoded(String::from("x"), &decoded(16, 24, &[0u8; 384])), Err(TilesetError::Dimension));
    let png = indexed_png(24, 16, &[0, 0, 0], &[0u8; 24 * 16]);
    assert_eq!(s.add_image(String::from("x"), &png), Err(TilesetError::Dimension));
    assert!(s.palettes.is_empty());
    assert!(s.encoded_metatiles.is_empty());
}

#[test]
fn a_color_outside_the_palette_is_a_mismatch() {
    let mut image = decoded(16, 16, &[1u8; 256]);
    image.pixels[30] = 77;
    let mut s = storage();
    assert_eq!(s.add_decoded(String::from("x"), &image), Err(TilesetError::PaletteMismatch));
    assert_eq!(s.tiles.len(), 1);
    assert!(s.palettes.is_empty());
}

#[test]
fn an_empty_image_adds_only_its_palette() {
    let mut s = storage();
    assert_eq!(s.add_decoded(String::from("x"), &decoded(0, 0, &[])), Ok(()));
    assert_eq!(s.palettes.len(), 1);
    assert_eq!(s.tiles.len(), 1);
    assert!(s.encoded_metatiles.is_empty());
}

#[test]
fn metatiles_are_numbered_row_by_row() {
    // 32 x 32 pixels: four metatiles, each of one colour 0..3.
    let mut indices = vec![0u8; 32 * 32];
    for y in 0..32 {
        for x in 0..32 {
            indices[y * 32 + x] = ((y / 16) * 2 + x / 16) as u8;
        }
    }
    let mut s = storage();
    assert_eq!(s.add_decoded(String::from("grid"), &decoded(32, 32, &indices)), Ok(()));
    assert_eq!(s.tiles.len(), 4);
    let name = String::from("grid");
    assert_eq!(s.metatile_words(&name, 0), Some(&vec![0u8, 0, 0, 0, 0, 0, 0, 0]));
    assert_eq!(s.metatile_words(&name, 1), Some(&vec![1u8, 0, 1, 0, 1, 0, 1, 0]));
    assert_eq!(s.metatile_words(&name, 2), Some(&vec![2u8, 0, 2, 0, 2, 0, 2, 0]));
    assert_eq!(s.metatile_words(&name, 3), Some(&vec![3u8, 0, 3, 0, 3, 0, 3, 0]));
    assert_eq!(s.metatile_words(&name, 4), None);
    assert_eq!(s.metatile_words(&String::from("other"), 0), None);
}

#[test]
fn quadrants_are_encoded_with_their_flips() {
    // One metatile: top-left a lopsided tile, top-right its horizontal mirror image,
    // bottom-left its vertical mirror image, bottom-right its image under both.
    let t = lopsided(0x21);
    let quadrants = [t, t.flip_x(), t.flip_y(), t.flip_x().flip_y()];
    let mut indices = vec![0u8; 256];
    for q in 0..4 {
        for r in 0..8 {
            for c in 0..8 {
                indices[(8 * (q / 2) + r) * 16 + 8 * (q % 2) + c] = quadrants[q].data[r][c];
            }
        }
    }
    let mut s = storage();
    s.add_palette([[0u8; 3]; 16]);
    assert_eq!(s.add_decoded(String::from("m"), &decoded(16, 16, &indices)), Ok(()));
    assert_eq!(s.tiles.len(), 2);
    assert_eq!(s.tiles[1], t);
    assert_eq!(
        s.metatile_words(&String::from("m"), 0),
        Some(&vec![0x01u8, 0x10, 0x01, 0x14, 0x01, 0x18, 0x01, 0x1c])
    );
}

#[test]
fn ingesting_a_sheet_again_replaces_its_metatiles() {
    let mut s = storage();
    s.add_decoded(String::from("m"), &decoded(16, 16, &[1u8; 256])).unwrap();
    s.add_decoded(String::from("m"), &decoded(16, 16, &[2u8; 256])).unwrap();
    assert_eq!(
        s.metatile_words(&String::from("m"), 0),
        Some(&vec![0x02u8, 0x10, 0x02, 0x10, 0x02, 0x10, 0x02, 0x10])
    );
}

#[test]
fn the_seventeenth_palette_is_a_capacity_error() {
    let mut s = storage();
    let image = decoded(16, 16, &[1u8; 256]);
    for i in 0..16 {
        assert_eq!(s.add_decoded(format!("sheet{}", i), &image), Ok(()));
    }
    assert_eq!(
        s.metatile_words(&String::from("sheet15"), 0),
        Some(&vec![0x01u8, 0xf0, 0x01, 0xf0, 0x01, 0xf0, 0x01, 0xf0])
    );
    assert_eq!(s.add_decoded(String::from("sheet16"), &image), Err(TilesetError::Capacity));
    assert_eq!(s.palettes.len(), 16);
    assert_eq!(s.encoded_metatiles.len(), 16);
    assert_eq!(s.metatile_words(&String::from("sheet16"), 0), None);
}

#[test]
fn the_registry_takes_1023_tiles_beside_the_blank_one() {
    let mut s = storage();
    assert_eq!(s.add_decoded(String::from("big"), &many_tiles(256, true)), Ok(()));
    assert_eq!(s.tiles.len(), 1024);
    assert_eq!(s.encoded_metatiles.len(), 256);
    // The last metatile: tiles 1021, 1022, 1023 and the blank tile.
    assert_eq!(
        s.metatile_words(&String::from("big"), 255),
        Some(&vec![0xfdu8, 0x03, 0xfe, 0x03, 0xff, 0x03, 0x00, 0x00])
    );
}

#[test]
fn more_than_1023_unique_tiles_is_a_capacity_error() {
    let mut s = storage();
    assert_eq!(s.add_decoded(String::from("big"), &many_tiles(256, false)), Err(TilesetError::Capacity));
    // Nothing of the failed image stays behind.
    assert_eq!(s.tiles.len(), 1);
    assert!(s.palettes.is_empty());
    assert!(s.encoded_metatiles.is_empty());
}

#[test]
fn a_full_registry_still_resolves_known_tiles() {
    let mut s = storage();
    s.add_decoded(String::from("big"), &many_tiles(256, true)).unwrap();
    assert_eq!(s.add_decoded(String::from("again"), &many_tiles(2, false)), Ok(()));
    assert_eq!(s.tiles.len(), 1024);
    assert_eq!(s.add_decoded(String::from("new"), &decoded(16, 16, &[3u8; 256])), Err(TilesetError::Capacity));
    assert_eq!(s.tiles.len(), 1024);
    assert_eq!(s.palettes.len(), 2);
}

#[test]
fn read_palette_takes_the_color_table() {
    let table = [9u8, 8, 7, 6, 5, 4];
    let png = indexed_png(16, 16, &table, &[0u8; 256]);
    let p = TileStorage::read_palette(&png).unwrap();
    assert_eq!(p[0], [9, 8, 7]);
    assert_eq!(p[1], [6, 5, 4]);
    for i in 2..16 {
        assert_eq!(p[i], [0, 0, 0]);
    }
}

#[test]
fn metatile_binary_follows_the_references() {
    let mut s = storage();
    s.add_decoded(String::from("a"), &decoded(16, 16, &[1u8; 256])).unwrap();
    s.add_decoded(String::from("b"), &decoded(16, 16, &[2u8; 256])).unwrap();
    let refs = vec![(String::from("b"), 0), (String::from("a"), 0), (String::from("b"), 0)];
    let a = [0x01u8, 0x00, 0x01, 0x00, 0x01, 0x00, 0x01, 0x00];
    let b = [0x02u8, 0x10, 0x02, 0x10, 0x02, 0x10, 0x02, 0x10];
    let mut expected = Vec::new();
    expected.extend_from_slice(&b);
    expected.extend_from_slice(&a);
    expected.extend_from_slice(&b);
    assert_eq!(s.metatile_binary(&refs), Ok(expected));
    assert_eq!(s.metatile_binary(&Vec::new()), Ok(Vec::new()));
}

#[test]
fn metatile_binary_names_the_first_missing_metatile() {
    let mut s = storage();
    s.add_decoded(String::from("a"), &decoded(16, 16, &[1u8; 256])).unwrap();
    let refs = vec![
        (String::from("a"), 0),
        (String::from("a"), 1),
        (String::from("zz"), 5),
    ];
    assert_eq!(
        s.metatile_binary(&refs),
        Err(TilesetError::MissingMetatile { sheet: String::from("a"), index: 1 })
    );
}

#[test]
fn pack_nibbles_puts_the_first_pixel_in_the_high_half() {
    assert_eq!(pack_nibbles(&[1, 2, 3, 4]), vec![0x12, 0x34]);
    assert_eq!(pack_nibbles(&[0xf, 0, 0, 0xf]), vec![0xf0, 0x0f]);
    assert_eq!(pack_nibbles(&[]), Vec::<u8>::new());
}

#[test]
fn pack_nibbles_pads_an_odd_run_and_drops_high_bits() {
    assert_eq!(pack_nibbles(&[1, 2, 3]), vec![0x12, 0x30]);
    assert_eq!(pack_nibbles(&[0x1f, 0x22]), vec![0xf2]);
}

#[test]
fn atlas_pixels_lay_the_tiles_out_in_rows_of_sixteen() {
    let mut s = storage();
    for k in 1..=17u8 {
        s.push(lopsided(k));
    }
    let pixels = s.atlas_pixels();
    assert_eq!(pixels.len(), 128 * 256);
    for i in 0..pixels.len() {
        let (x, y) = (i % 128, i / 128);
        let cell = (y / 8) * 16 + x / 8;
        let want = if cell < s.tiles.len() { s.tiles[cell].data[y % 8][x % 8] } else { 0 };
        assert_eq!(pixels[i], want);
    }
    // Tile 1 starts at pixel column 8 of the first row; tile 16 starts the second row of cells.
    assert_eq!(&pixels[8..11], &[1, 2, 0]);
    assert_eq!(pixels[128 + 8], 3);
    assert_eq!(&pixels[8 * 128..8 * 128 + 2], &[1, 2]);
    assert!(!s.exceeds_atlas());
}

#[test]
fn atlas_rows_pack_two_pixels_per_byte() {
    let mut s = storage();
    s.push(lopsided(1));
    let rows = s.atlas_rows();
    assert_eq!(rows.len(), 128 * 256 / 2);
    assert_eq!(rows[4], 0x12);
    assert_eq!(rows[64 + 4], 0x30);
    let pixels = s.atlas_pixels();
    for i in 0..rows.len() {
        assert_eq!(rows[i], (pixels[2 * i] << 4) | pixels[2 * i + 1]);
    }
}

#[test]
fn tiles_beyond_the_canvas_are_left_out() {
    let mut s = storage();
    s.add_decoded(String::from("big"), &many_tiles(256, true)).unwrap();
    assert!(s.exceeds_atlas());
    let pixels = s.atlas_pixels();
    assert_eq!(pixels.len(), 128 * 256);
    // The last cell of the canvas shows tile 511.
    let last = &s.tiles[511];
    for r in 0..8 {
        for c in 0..8 {
            assert_eq!(pixels[(248 + r) * 128 + 120 + c], last.data[r][c]);
        }
    }
}

#[test]
fn encode_image_writes_a_png_that_decodes_to_the_same_pixels() {
    let table = vec![0u8, 0, 0, 255, 0, 0, 0, 255, 0];
    let mut rows = vec![0u8; 16 * 16 / 2];
    rows[0] = 0x12;
    rows[9] = 0x21;
    let stream = encode_image(16, 16, &table, &rows).unwrap();
    assert_eq!(&stream[0..8], &[137, 80, 78, 71, 13, 10, 26, 10]);
    let image = decode_image(&stream).unwrap();
    assert_eq!((image.width, image.height), (16, 16));
    assert_eq!(image.color_table, Some(table));
    assert_eq!(&image.pixels[0..6], &[255, 0, 0, 0, 255, 0]);
    assert_eq!(&image.pixels[3 * 18..3 * 18 + 6], &[0, 255, 0, 255, 0, 0]);
}

#[test]
fn encode_image_refuses_rows_of_the_wrong_length() {
    assert_eq!(encode_image(16, 16, &vec![0, 0, 0], &vec![0u8; 5]), Err(TilesetError::Encode));
    assert_eq!(encode_image(0, 16, &vec![0, 0, 0], &Vec::new()), Err(TilesetError::Encode));
}

#[test]
fn output_gives_palette_texts_and_the_atlas_image() {
    let table = [0u8, 0, 0, 255, 0, 0, 0, 0, 255];
    let mut indices = vec![1u8; 256];
    indices[0] = 2;
    let mut s = storage();
    s.add_image(String::from("one.png"), &indexed_png(16, 16, &table, &indices)).unwrap();
    s.add_image(String::from("two.png"), &indexed_png(16, 16, &[7, 7, 7], &[0u8; 256])).unwrap();
    let files: OutputFiles = s.output().unwrap();
    assert_eq!(files.palettes.len(), 2);
    assert!(files.palettes[0].starts_with("JASC-PAL\r\n0100\r\n16\r\n0 0 0\r\n255 0 0\r\n0 0 255\r\n0 0 0\r\n"));
    assert!(files.palettes[1].starts_with("JASC-PAL\r\n0100\r\n16\r\n7 7 7\r\n0 0 0\r\n"));
    assert_eq!(files.palettes[0].matches("\r\n").count(), 19);

    // The atlas carries the first palette and shows the registry.
    let image = decode_image(&files.tileset).unwrap();
    assert_eq!((image.width, image.height), (128, 256));
    let palette = s.palettes[0];
    let mut flat = Vec::new();
    for color in palette.iter() {
        flat.extend_from_slice(color);
    }
    assert_eq!(image.color_table, Some(flat));
    let pixels = s.atlas_pixels();
    assert_eq!(image.pixels.len(), 3 * pixels.len());
    for i in 0..pixels.len() {
        assert_eq!(&image.pixels[3 * i..3 * i + 3], &palette[pixels[i] as usize]);
    }
    // Tile 1 is the top-left quadrant (blue corner), tile 2 the plain red one.
    assert_eq!(&image.pixels[3 * 8..3 * 8 + 6], &[0, 0, 255, 255, 0, 0]);
    assert_eq!(&image.pixels[3 * 16..3 * 16 + 3], &[255, 0, 0]);
    assert_eq!(&image.pixels[3 * 24..3 * 24 + 3], &[0, 0, 0]);
}

#[test]
fn the_atlas_image_is_four_bits_deep_and_indexed() {
    let mut s = storage();
    s.add_decoded(String::from("a"), &decoded(16, 16, &[1u8; 256])).unwrap();
    let files = s.output().unwrap();
    let decoder = png::Decoder::new(&files.tileset[..]);
    let (_, reader) = decoder.read_info().unwrap();
    assert_eq!(reader.info().color_type, png::ColorType::Indexed);
    assert_eq!(reader.info().bit_depth, png::BitDepth::Four);
    assert_eq!((reader.info().width, reader.info().height), (128, 256));
}
