use vstd::prelude::*;
use image::ImageError;
use crate::config::GridConfig;
use crate::fingerprint::GrayBuffer;
use crate::piece::{Piece, RgbBuffer, UNRESOLVED};

verus! {

#[verifier::external_type_specification]
#[verifier::external_body]
pub struct ExImageError(image::ImageError);

/// Why a tile could not be taken in.
#[derive(Clone, Copy, Debug, PartialEq, Eq, Structural)]
pub enum IngestError {
    /// The bytes are not an image the decoder understands.
    Undecodable,
    /// The image has no pixels.
    Empty,
}

/// Relies on image::load_from_memory, DynamicImage::to_luma8,
/// DynamicImage::to_rgb8 and ImageBuffer::into_raw: decodes the bytes (the
/// format is guessed from them) into the image's width, height, grayscale
/// bytes and RGB bytes. Both conversions keep the image's dimensions, and an
/// ImageBuffer holds at least one byte per pixel and channel. Whether
/// decoding succeeds also depends on the formats built in and on hooks
/// registered in the process, so nothing is promised of it.
#[verifier::external_body]
fn decode_parts(bytes: &[u8]) -> (r: Result<(u32, u32, Vec<u8>, Vec<u8>), ImageError>)
    ensures
        r is Ok ==> {
            let (w, h, luma, rgb) = r->Ok_0;
            luma@.len() >= w * h && rgb@.len() >= 3 * w * h
        },
{
    let img = image::load_from_memory(bytes)?;
    let gray = img.to_luma8();
    let (w, h) = gray.dimensions();
    Ok((w, h, gray.into_raw(), img.to_rgb8().into_raw()))
}

impl Piece {
    /// Builds the piece of a decoded tile of `w` by `h` pixels from its
    /// grayscale bytes `luma` and RGB bytes `rgb`: anchors are recognised by
    /// the dimensions and the fingerprints are taken from the grayscale
    /// pixels.
    pub fn from_parts(w: u32, h: u32, luma: Vec<u8>, rgb: Vec<u8>, config: &GridConfig) -> (r: Result<
        Piece,
        IngestError,
    >)
        requires
            luma@.len() >= w * h,
            rgb@.len() >= 3 * w * h,
        ensures
            (r is Err) == (w == 0 || h == 0),
            r is Err ==> r == Err::<Piece, IngestError>(IngestError::Empty),
            r is Ok ==> {
                let p = r->Ok_0;
                &&& p.image.width == w
                &&& p.image.height == h
                &&& p.image.data@ == rgb@.subrange(0, 3 * w * h)
                &&& p.col == (if w == config.first_col_width { 0 } else { UNRESOLVED })
                &&& p.row == (if h == config.first_row_height { 0 } else { UNRESOLVED })
                &&& p.edge_hashes@ == GrayBuffer::fingerprints_of(w, h, luma@.subrange(0, w * h))
            },
    {
        if w == 0 || h == 0 {
            return Err(IngestError::Empty);
        }
        let mut pixels = luma;
        let mut data = rgb;
        assert(pixels@.len() == pixels.len() && data@.len() == data.len());
        assert(3 * w * h == 3 * (w * h)) by (nonlinear_arith);
        pixels.truncate(w as usize * h as usize);
        data.truncate(3 * (w as usize * h as usize));
        let gray = GrayBuffer { width: w, height: h, pixels };
        assert(gray.wf());
        let image = RgbBuffer { width: w, height: h, data };
        Ok(Piece::new(&gray, image, config))
    }
}

/// Decodes one tile file's bytes into a piece: `Err(Undecodable)` when the
/// decoder refuses the bytes, otherwise what `Piece::from_parts` makes of the
/// decoded width, height, grayscale and RGB bytes.
pub fn load_piece(bytes: &[u8], config: &GridConfig) -> (r: Result<Piece, IngestError>)
    ensures
        r is Ok ==> {
            let p = r->Ok_0;
            &&& p.image.wf()
            &&& 1 <= p.image.width
            &&& 1 <= p.image.height
            &&& p.col == (if p.image.width == config.first_col_width { 0 } else { UNRESOLVED })
            &&& p.row == (if p.image.height == config.first_row_height { 0 } else { UNRESOLVED })
        },
{
    match decode_parts(bytes) {
        Ok((w, h, luma, rgb)) => {
            let r = Piece::from_parts(w, h, luma, rgb, config);
            proof {
                if r is Ok {
                    assert(3 * w * h == 3 * (w * h)) by (nonlinear_arith);
                }
            }
            r
        },
        Err(_) => Err(IngestError::Undecodable),
    }
}

} // verus!
