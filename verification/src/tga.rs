use vstd::prelude::*;

use crate::batteries::Pixel;

verus! {

#[verifier::external_type_specification]
#[verifier::external_body]
pub struct ExBgra(tgar::BGRA);

/// The bytes that a `tgar::BGRA` image holds.
pub uninterp spec fn bgra_data(image: tgar::BGRA) -> Seq<u8>;

/// The image identification text that tgar writes into every header.
pub open spec fn tga_image_id() -> Seq<u8> {
    seq![
        100u8, 114, 101, 119, 99, 114, 97, 119, 102, 111, 114, 100, 47, 116, 103, 97, 114,
    ]
}

/// The layout of an uncompressed 32-bit TGA file of `width` by `height`
/// pixels as tgar writes it: a 35-byte header (image type 2, 32 bits per
/// pixel, origin at the upper left, the width and height little-endian,
/// then the 17-byte image id), the pixels in order as `b, g, r, a` bytes,
/// and one byte more whose value is not fixed.
pub open spec fn tga_layout(bytes: Seq<u8>, width: u16, height: u16, pixels: Seq<Pixel>) -> bool {
    &&& bytes.len() == 36 + 4 * pixels.len()
    &&& bytes.subrange(0, 12) == seq![17u8, 0, 2, 0, 0, 0, 0, 0, 0, 0, 0, 0]
    &&& bytes[12] == width % 256
    &&& bytes[13] == width / 256
    &&& bytes[14] == height % 256
    &&& bytes[15] == height / 256
    &&& bytes[16] == 32
    &&& bytes[17] == 40
    &&& bytes.subrange(18, 35) == tga_image_id()
    &&& forall|i: int|
        0 <= i < pixels.len() ==> {
            &&& bytes[35 + 4 * i] == #[trigger] pixels[i].b
            &&& bytes[35 + 4 * i + 1] == pixels[i].g
            &&& bytes[35 + 4 * i + 2] == pixels[i].r
            &&& bytes[35 + 4 * i + 3] == pixels[i].a
        }
}

/// Calls `tgar::BGRA::new` on the pixels, each converted field for field to
/// a `tgar::PixelBGRA`. Its source asserts that `width * height` is the
/// number of pixels and allocates `36 + 4 * n` bytes; it writes the
/// `repr(C)` header (36 bytes with one byte of padding) at offset 0 and the
/// pixels from offset 35 on. The last byte of the allocation is never written,
/// so nothing is claimed of it.
#[verifier::external_body]
fn bgra_new(width: u16, height: u16, pixels: &[Pixel]) -> (image: tgar::BGRA)
    requires
        width * height == pixels@.len(),
        36 + 4 * pixels@.len() <= isize::MAX,
    ensures
        tga_layout(bgra_data(image), width, height, pixels@),
{
    let data: Vec<tgar::PixelBGRA> = pixels.iter().map(
        |p| tgar::PixelBGRA { b: p.b, g: p.g, r: p.r, a: p.a },
    ).collect();
    tgar::BGRA::new(width, height, &data)
}

/// Calls `tgar::BGRA::into_data`, which hands out the image's bytes unchanged.
#[verifier::external_body]
fn bgra_into_data(image: tgar::BGRA) -> (data: Vec<u8>)
    ensures
        data@ == bgra_data(image),
{
    image.into_data().into_vec()
}

/// Encodes a row-major image of `width` by `height` pixels as an
/// uncompressed 32-bit TGA file.
pub fn encode_tga(width: u16, height: u16, pixels: &[Pixel]) -> (bytes: Vec<u8>)
    requires
        width * height == pixels@.len(),
        36 + 4 * pixels@.len() <= isize::MAX,
    ensures
        tga_layout(bytes@, width, height, pixels@),
{
    let image = bgra_new(width, height, pixels);
    bgra_into_data(image)
}

} // verus!
