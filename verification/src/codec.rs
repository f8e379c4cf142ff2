//! PNG decoding and encoding, done in memory by the `png` crate.

use crate::error::TilesetError;
use vstd::prelude::*;

verus! {

#[verifier::external_type_specification]
#[verifier::external_body]
pub struct ExDecodingError(png::DecodingError);

#[verifier::external_type_specification]
#[verifier::external_body]
pub struct ExEncodingError(png::EncodingError);

/// What a decoded image holds: its size, its pixel buffer and its colour table, if any.
#[derive(Debug, PartialEq, Eq)]
pub struct DecodedImage {
    pub width: u32,
    pub height: u32,
    /// The first frame as the decoder hands it out; three bytes per pixel, row by row,
    /// for an indexed image without transparency.
    pub pixels: Vec<u8>,
    /// The colour table as flat RGB bytes.
    pub color_table: Option<Vec<u8>>,
}

/// The mathematical model of a decoded image.
pub struct ImageView {
    pub width: int,
    pub height: int,
    pub pixels: Seq<u8>,
    pub color_table: Option<Seq<u8>>,
}

impl View for DecodedImage {
    type V = ImageView;

    open spec fn view(&self) -> ImageView {
        ImageView {
            width: self.width as int,
            height: self.height as int,
            pixels: self.pixels@,
            color_table: match self.color_table {
                Some(table) => Some(table@),
                None => None,
            },
        }
    }
}

/// What the `png` decoder makes of a byte stream: width, height, the first frame and
/// the colour table, or `None` where it rejects the stream.
pub uninterp spec fn png_decoded(bytes: Seq<u8>) -> Option<ImageView>;

/// The PNG stream that the `png` encoder writes for a 4-bit indexed image of the given
/// size, colour table and packed rows, or `None` where it refuses them.
pub uninterp spec fn png_encoded(width: u32, height: u32, color_table: Seq<u8>, rows: Seq<u8>) -> Option<Seq<u8>>;

/// Runs `png::Decoder` with its default settings over an in-memory stream
/// (`Decoder::new`, `read_info`, `Reader::next_frame`, `Reader::info`).
///
/// Nothing is claimed of the decoder but that its outcome is a function of the bytes:
/// the image it yields is the one that `png_decoded` names, and it fails where
/// `png_decoded` is `None`.
#[verifier::external_body]
fn png_decode(bytes: &[u8]) -> (r: Result<DecodedImage, png::DecodingError>)
    ensures
        match r {
            Ok(image) => png_decoded(bytes@) == Some(image@),
            Err(_) => png_decoded(bytes@) is None,
        },
{
    let (info, mut reader) = png::Decoder::new(bytes).read_info()?;
    let mut pixels = vec![0u8; info.buffer_size()];
    reader.next_frame(&mut pixels)?;
    let color_table = reader.info().palette.clone();
    Ok(DecodedImage { width: info.width, height: info.height, pixels, color_table })
}

/// Runs `png::Encoder` into memory for a 4-bit indexed image (`Encoder::new`,
/// `set_color`, `set_depth`, `set_palette`, `write_header`, `Writer::write_image_data`).
///
/// Nothing is claimed of the encoder but that its outcome is a function of the
/// arguments: the stream it writes is the one that `png_encoded` names, and it fails
/// where `png_encoded` is `None`.
#[verifier::external_body]
fn png_encode(width: u32, height: u32, color_table: &Vec<u8>, rows: &Vec<u8>) -> (r: Result<
    Vec<u8>,
    png::EncodingError,
>)
    ensures
        match r {
            Ok(stream) => png_encoded(width, height, color_table@, rows@) == Some(stream@),
            Err(_) => png_encoded(width, height, color_table@, rows@) is None,
        },
{
    let mut stream = Vec::new();
    let mut encoder = png::Encoder::new(&mut stream, width, height);
    encoder.set_color(png::ColorType::Indexed);
    encoder.set_depth(png::BitDepth::Four);
    encoder.set_palette(color_table.clone());
    let mut writer = encoder.write_header()?;
    writer.write_image_data(rows)?;
    drop(writer);
    Ok(stream)
}

/// Decodes a PNG stream held in memory.
///
/// Fails with `Decode` exactly where the decoder rejects the stream.
pub fn decode_image(bytes: &[u8]) -> (r: Result<DecodedImage, TilesetError>)
    ensures
        match r {
            Ok(image) => png_decoded(bytes@) == Some(image@),
            Err(e) => e == TilesetError::Decode && png_decoded(bytes@) is None,
        },
{
    match png_decode(bytes) {
        Ok(image) => Ok(image),
        Err(_) => Err(TilesetError::Decode),
    }
}

/// Encodes a 4-bit indexed image as a PNG stream held in memory.
///
/// `rows` holds the packed pixel rows, two pixels to a byte. Fails with `Encode`
/// exactly where the encoder refuses the image.
pub fn encode_image(width: u32, height: u32, color_table: &Vec<u8>, rows: &Vec<u8>) -> (r: Result<
    Vec<u8>,
    TilesetError,
>)
    ensures
        match r {
            Ok(stream) => png_encoded(width, height, color_table@, rows@) == Some(stream@),
            Err(e) => e == TilesetError::Encode && png_encoded(width, height, color_table@, rows@)
                is None,
        },
{
    match png_encode(width, height, color_table, rows) {
        Ok(stream) => Ok(stream),
        Err(_) => Err(TilesetError::Encode),
    }
}

} // verus!
