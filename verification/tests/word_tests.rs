use pokerus::error::TilesetError;
use pokerus::word::{decode_word, encode_word, push_word, WordFields};

#[test]
fn encode_word_packs_the_fields() {
    assert_eq!(encode_word(0, false, false, 0), Ok(0));
    assert_eq!(encode_word(0, false, false, 1), Ok(1));
    assert_eq!(encode_word(0, true, false, 0), Ok(0x0400));
    assert_eq!(encode_word(0, false, true, 0), Ok(0x0800));
    assert_eq!(encode_word(1, false, false, 0), Ok(0x1000));
    assert_eq!(encode_word(3, true, false, 5), Ok(13317));
    assert_eq!(encode_word(15, true, true, 1023), Ok(0xffff));
}

#[test]
fn encode_word_refuses_fields_that_do_not_fit() {
    assert_eq!(encode_word(16, false, false, 0), Err(TilesetError::Capacity));
    assert_eq!(encode_word(0, false, false, 1024), Err(TilesetError::Capacity));
    assert_eq!(encode_word(usize::MAX, true, true, usize::MAX), Err(TilesetError::Capacity));
}

#[test]
fn decode_word_unpacks_the_fields() {
    assert_eq!(
        decode_word(13317),
        WordFields { palette_id: 3, flip_x: true, flip_y: false, tile_id: 5 }
    );
    assert_eq!(
        decode_word(0x0800),
        WordFields { palette_id: 0, flip_x: false, flip_y: true, tile_id: 0 }
    );
}

#[test]
fn every_word_round_trips() {
    for palette_id in 0..16usize {
        for tile_id in 0..1024usize {
            for flags in 0..4u8 {
                let flip_x = flags & 1 == 1;
                let flip_y = flags & 2 == 2;
                let word = encode_word(palette_id, flip_x, flip_y, tile_id).unwrap();
                assert_eq!(decode_word(word), WordFields { palette_id, flip_x, flip_y, tile_id });
            }
        }
    }
    for word in 0..=u16::MAX {
        let f = decode_word(word);
        assert_eq!(encode_word(f.palette_id, f.flip_x, f.flip_y, f.tile_id), Ok(word));
    }
}

#[test]
fn push_word_writes_the_low_byte_first() {
    let mut out = vec![7u8];
    push_word(&mut out, 0x1234);
    push_word(&mut out, 0x00ff);
    assert_eq!(out, vec![7, 0x34, 0x12, 0xff, 0x00]);
}
