//! Turning the bytes of an image file into the image a page is made of.

use vstd::prelude::*;
use crate::pages::ImageData;

verus! {

/// The values of the EXIF `Orientation` field of the primary image in these
/// bytes, as `exif::Reader::read_from_container` and `Exif::get_field` find
/// it, where it is there and holds shorts.
pub uninterp spec fn exif_orientation_values(data: Seq<u8>) -> Option<Seq<u16>>;

/// Why an image that is no JPEG could not be made one.
#[derive(Debug, PartialEq, Eq, Structural)]
pub enum ImageError {
    /// `image` could not decode the bytes.
    Undecodable,
    /// `image` could not encode the decoded image as a JPEG.
    Unencodable,
}

/// What the `image` crate makes of these bytes: decoded by
/// `load_from_memory`, turned into 8-bit RGB by `into_rgb8` (which drops any
/// alpha channel), and encoded as a JPEG by `write_to`; the JPEG with the
/// width and the height of the image, or the stage that failed.
pub uninterp spec fn rgb_jpeg(data: Seq<u8>) -> Result<(Seq<u8>, u32, u32), ImageError>;

/// `exif::Reader::read_from_container` over the bytes, then
/// `Exif::get_field` for `Tag::Orientation` in `In::PRIMARY`: its shorts,
/// where the field is found and holds shorts.
#[verifier::external_body]
fn orientation_values(data: &Vec<u8>) -> (r: Option<Vec<u16>>)
    ensures
        match r {
            Some(v) => exif_orientation_values(data@) == Some(v@),
            None => exif_orientation_values(data@) is None,
        },
{
    let exif = exif::Reader::new().read_from_container(&mut std::io::Cursor::new(data)).ok()?;
    match &exif.get_field(exif::Tag::Orientation, exif::In::PRIMARY)?.value {
        exif::Value::Short(v) => Some(v.clone()),
        _ => None,
    }
}

/// `image::load_from_memory`, `DynamicImage::into_rgb8`, `ImageBuffer::write_to`
/// with `ImageFormat::Jpeg`, and the image's width and height.
#[verifier::external_body]
fn encode_rgb_jpeg(data: &Vec<u8>) -> (r: Result<(Vec<u8>, u32, u32), ImageError>)
    ensures
        match r {
            Ok((bytes, width, height)) => rgb_jpeg(data@) == Ok::<(Seq<u8>, u32, u32), ImageError>((bytes@, width, height)),
            Err(e) => rgb_jpeg(data@) == Err::<(Seq<u8>, u32, u32), ImageError>(e),
        },
{
    let rgb = image::load_from_memory(data).map_err(|_| ImageError::Undecodable)?.into_rgb8();
    let mut bytes = Vec::new();
    rgb.write_to(&mut std::io::Cursor::new(&mut bytes), image::ImageFormat::Jpeg).map_err(|_| ImageError::Unencodable)?;
    Ok((bytes, rgb.width(), rgb.height()))
}

/// The orientation under which an image is to be shown: the first value of
/// its EXIF `Orientation` field, and 1 (upright) where there is none.
pub open spec fn orientation_of(data: Seq<u8>) -> u16 {
    match exif_orientation_values(data) {
        Some(v) => if v.len() > 0 { v[0] } else { 1 },
        None => 1,
    }
}

/// The EXIF orientation of an image file's bytes (1 where none can be read).
pub fn image_orientation(data: &Vec<u8>) -> (orientation: u16)
    ensures
        orientation == orientation_of(data@),
{
    match orientation_values(data) {
        Some(v) => if v.len() > 0 { v[0] } else { 1 },
        None => 1,
    }
}

/// The bytes begin as a JPEG file does, with `FF D8`.
pub open spec fn jpeg_signature(data: Seq<u8>) -> bool {
    data.len() >= 2 && data[0] == 0xFF && data[1] == 0xD8
}

/// Whether the bytes are those of a JPEG file.
pub fn is_jpeg(data: &[u8]) -> (r: bool)
    ensures
        r == jpeg_signature(data@),
{
    data.len() >= 2 && data[0] == 0xFF && data[1] == 0xD8
}

/// The image of a JPEG file whose size the caller has read: its bytes go
/// into the document as they are.
pub fn image_from_jpeg(data: Vec<u8>, width: u32, height: u32) -> (img: ImageData)
    ensures
        img.data@ == data@,
        img.width == width,
        img.height == height,
        img.orientation == orientation_of(data@),
{
    let orientation = image_orientation(&data);
    ImageData { data, width, height, orientation }
}

/// The image of a file of another format (PNG, WebP, ...): decoded, stripped
/// of any alpha channel and encoded again as a JPEG, with the orientation
/// read from the original bytes; the pixels are not turned, the page turns
/// them.
pub fn image_from_other(data: Vec<u8>) -> (r: Result<ImageData, ImageError>)
    ensures
        match rgb_jpeg(data@) {
            Ok((bytes, width, height)) => r matches Ok(img) && img.data@ == bytes && img.width == width
                && img.height == height && img.orientation == orientation_of(data@),
            Err(e) => r == Err::<ImageData, ImageError>(e),
        },
{
    let orientation = image_orientation(&data);
    let (bytes, width, height) = encode_rgb_jpeg(&data)?;
    Ok(ImageData { data: bytes, width, height, orientation })
}

/// The orientation of an image is the first value of the EXIF `Orientation`
/// field of its bytes wherever there is one, whatever format the bytes are
/// in (a PNG, a WebP or a TIFF file keeps its orientation as a JPEG does),
/// and 1, upright, where there is none.
pub proof fn law_orientation_from_exif(data: Seq<u8>)
    ensures
        match exif_orientation_values(data) {
            Some(v) => orientation_of(data) == (if v.len() > 0 { v[0] } else { 1u16 }),
            None => orientation_of(data) == 1,
        },
        forall|other: Seq<u8>| exif_orientation_values(other) == exif_orientation_values(data)
            ==> #[trigger] orientation_of(other) == orientation_of(data),
{
}

/// Bytes are taken for a JPEG file exactly when they begin with `FF D8`,
/// whatever follows (an Exif or a JFIF header alike): the answer depends on
/// the first two bytes alone.
pub proof fn law_jpeg_signature(data: Seq<u8>)
    ensures
        jpeg_signature(data) <==> (data.len() >= 2 && data[0] == 0xFF && data[1] == 0xD8),
        data.len() >= 2 ==> jpeg_signature(data) == jpeg_signature(data.take(2)),
        forall|more: Seq<u8>| jpeg_signature(data) ==> #[trigger] jpeg_signature(data + more),
{
    assert forall|more: Seq<u8>| jpeg_signature(data) implies #[trigger] jpeg_signature(data + more) by {
        assert((data + more)[0] == data[0] && (data + more)[1] == data[1]);
    }
    if data.len() >= 2 {
        assert(data.take(2)[0] == data[0] && data.take(2)[1] == data[1]);
    }
}

} // verus!
