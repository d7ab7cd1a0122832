//! Turning encoded image bytes into RGBA8 rasters: full-size decoding with a
//! validity check, and bounded thumbnails with a JPEG fast path that lets the
//! JPEG decoder scale down while it decodes.

use vstd::prelude::*;
use vstd::arithmetic::div_mod::lemma_fundamental_div_mod_converse;

verus! {

/// A decoded image: tightly packed RGBA8 samples, `[width, height]`, and the
/// path it came from (left empty by the decoders; the caller fills it in).
pub struct DecodedImage {
    pub rgba: Vec<u8>,
    pub size: [usize; 2],
    pub path: String,
}

/// The sample layout a JPEG decoder reports for the pixels it returns.
#[derive(Clone, Copy, Debug, PartialEq, Eq)]
pub enum JpegPixelFormat {
    L8,
    L16,
    Rgb24,
    Cmyk32,
}

/// What a scaled JPEG decode hands back: the output size, the raw samples and
/// the pixel format the decoder reports (if it reports one).
pub struct ScaledJpeg {
    pub width: u16,
    pub height: u16,
    pub pixels: Vec<u8>,
    pub format: Option<JpegPixelFormat>,
}

/// Width, height and RGBA8 samples that `image::load_from_memory` followed by
/// `DynamicImage::to_rgba8` yields for `bytes`; `None` where decoding fails.
pub uninterp spec fn decoded_rgba8(bytes: Seq<u8>) -> Option<(u32, u32, Seq<u8>)>;

/// Width, height and RGBA8 samples that `image::load_from_memory`, then
/// `DynamicImage::thumbnail(size, size)`, then `to_rgba8` yield for `bytes`.
pub uninterp spec fn decoded_thumbnail(bytes: Seq<u8>, size: u32) -> Option<(u32, u32, Seq<u8>)>;

/// Width, height and RGBA8 samples of `DynamicImage::thumbnail(size, size)`
/// applied to the RGBA8 image `width`×`height` holding `rgba`.
pub uninterp spec fn rgba_thumbnail(width: u32, height: u32, rgba: Seq<u8>, size: u32) -> (u32, u32, Seq<u8>);

/// Output width, output height and reported pixel format of a `jpeg_decoder`
/// decode of `bytes` scaled towards `size`×`size`; `None` where it fails.
pub uninterp spec fn jpeg_scaled_layout(bytes: Seq<u8>, size: u16) -> Option<(u16, u16, Option<JpegPixelFormat>)>;

/// The spec view of a raster handed back by a decoder.
pub open spec fn raster_view(r: Option<(u32, u32, Vec<u8>)>) -> Option<(u32, u32, Seq<u8>)> {
    match r {
        Some(t) => Some((t.0, t.1, t.2@)),
        None => None,
    }
}

/// `d` holds exactly the raster `t`, with an empty path.
pub open spec fn shows(d: DecodedImage, t: (u32, u32, Seq<u8>)) -> bool {
    &&& d.size[0] == t.0
    &&& d.size[1] == t.1
    &&& d.rgba@ == t.2
    &&& d.path@.len() == 0
}

/// `r` is present exactly when `t` is, and then holds it.
pub open spec fn shows_opt(r: Option<DecodedImage>, t: Option<(u32, u32, Seq<u8>)>) -> bool {
    match r {
        Some(d) => t matches Some(x) && shows(d, x),
        None => t is None,
    }
}

/// A raster is well formed when it is non-empty and holds exactly four bytes per pixel.
pub open spec fn valid_raster(t: (u32, u32, Seq<u8>)) -> bool {
    t.0 > 0 && t.1 > 0 && t.2.len() == t.0 * t.1 * 4
}

/// `decode_image_bytes` in terms of what the decoder produced.
pub open spec fn checked_raster(t: Option<(u32, u32, Seq<u8>)>) -> Option<(u32, u32, Seq<u8>)> {
    match t {
        Some(x) => if valid_raster(x) { Some(x) } else { None },
        None => None,
    }
}

/// The bytes begin with a JPEG start-of-image marker followed by another marker byte.
pub open spec fn has_jpeg_magic(bytes: Seq<u8>) -> bool {
    bytes.len() >= 3 && bytes[0] == 0xFF && bytes[1] == 0xD8 && bytes[2] == 0xFF
}

/// Grey samples spread to RGBA: each sample becomes `[v, v, v, 255]`.
pub open spec fn grey_to_rgba(s: Seq<u8>) -> Seq<u8> {
    Seq::new(s.len() * 4, |i: int| if i % 4 == 3 { 255u8 } else { s[i / 4] })
}

/// RGB triples spread to RGBA: each whole triple becomes `[r, g, b, 255]`;
/// trailing bytes that do not fill a triple are dropped.
pub open spec fn rgb_to_rgba(s: Seq<u8>) -> Seq<u8> {
    Seq::new((s.len() / 3) * 4, |i: int| if i % 4 == 3 { 255u8 } else { s[(i / 4) * 3 + i % 4] })
}

/// Formats whose samples are read one per pixel.
pub open spec fn is_grey(format: Option<JpegPixelFormat>) -> bool {
    format == Some(JpegPixelFormat::L8) || format == Some(JpegPixelFormat::L16)
}

/// JPEG samples as RGBA, read one byte per pixel for grey formats and three otherwise.
pub open spec fn jpeg_samples_to_rgba(pixels: Seq<u8>, format: Option<JpegPixelFormat>) -> Seq<u8> {
    if is_grey(format) { grey_to_rgba(pixels) } else { rgb_to_rgba(pixels) }
}

/// The RGBA raster of a scaled JPEG decode, kept only when it has exactly
/// four bytes for each of the `width`×`height` pixels.
pub open spec fn jpeg_rgba(width: u16, height: u16, pixels: Seq<u8>, format: Option<JpegPixelFormat>) -> Option<Seq<u8>> {
    let rgba = jpeg_samples_to_rgba(pixels, format);
    if rgba.len() == width * height * 4 { Some(rgba) } else { None }
}

/// The thumbnail made from a scaled JPEG decode whose RGBA form can be held
/// in memory; `None` when it cannot.
pub open spec fn scaled_thumbnail(width: u16, height: u16, pixels: Seq<u8>, format: Option<JpegPixelFormat>, size: u32) -> Option<(u32, u32, Seq<u8>)> {
    if jpeg_samples_to_rgba(pixels, format).len() <= usize::MAX {
        jpeg_thumbnail(width, height, pixels, format, size)
    } else {
        None
    }
}

/// The thumbnail made from a scaled JPEG decode.
pub open spec fn jpeg_thumbnail(width: u16, height: u16, pixels: Seq<u8>, format: Option<JpegPixelFormat>, size: u32) -> Option<(u32, u32, Seq<u8>)> {
    match jpeg_rgba(width, height, pixels, format) {
        Some(rgba) => Some(rgba_thumbnail(width as u32, height as u32, rgba, size)),
        None => None,
    }
}

/// The size handed to the JPEG decoder: the requested size cut to 16 bits.
pub open spec fn jpeg_request(size: u32) -> u16 {
    (size % 65536) as u16
}

/// `t` is what the JPEG fast path makes of some scaled decode of `bytes`.
pub open spec fn from_jpeg_path(bytes: Seq<u8>, size: u32, t: (u32, u32, Seq<u8>)) -> bool {
    exists|w: u16, h: u16, f: Option<JpegPixelFormat>, px: Seq<u8>|
        jpeg_scaled_layout(bytes, jpeg_request(size)) == Some((w, h, f))
            && #[trigger] scaled_thumbnail(w, h, px, f, size) == Some(t)
}

/// The box a thumbnail of `size` fits: `size`, or 1 when `size` is 0.
pub open spec fn thumb_cap(size: u32) -> int {
    if size >= 1 { size as int } else { 1 }
}

/// Both sides of a `tw`×`th` thumbnail lie between 1 and the box.
pub open spec fn in_thumb_box(size: u32, tw: int, th: int) -> bool {
    1 <= tw <= thumb_cap(size) && 1 <= th <= thumb_cap(size)
}

/// `tw`×`th` is the size `DynamicImage::thumbnail(size, size)` gives a
/// `w`×`h` image: inside the box, and for a non-empty image and a positive
/// `size`, the longer side exactly `size` and the other side rounded from the
/// kept aspect ratio (off by at most one pixel's worth).
pub open spec fn thumb_size_ok(w: u32, h: u32, size: u32, tw: int, th: int) -> bool {
    let longer: int = if w >= h { w as int } else { h as int };
    &&& in_thumb_box(size, tw, th)
    &&& size >= 1 && w >= 1 && h >= 1 ==> {
        &&& (w >= h ==> tw == size)
        &&& (h >= w ==> th == size)
        &&& -longer <= tw * h - th * w <= longer
    }
}

/// What is promised of a thumbnail `r` of `bytes` at `size`: it exists
/// whenever the bytes decode; both its sides lie in the box; and, for a
/// positive `size` and an image without an empty side, its longer side is
/// exactly `size`.
pub open spec fn thumbnail_promise(bytes: Seq<u8>, size: u32, r: Option<DecodedImage>) -> bool {
    &&& decoded_rgba8(bytes) is Some ==> r is Some
    &&& r matches Some(t) ==> in_thumb_box(size, t.size[0] as int, t.size[1] as int)
    &&& size >= 1 && decodes_non_empty(bytes) ==> (r matches Some(t) ==> longer_side(t.size[0] as int, t.size[1] as int) == size)
}

/// The longer of two sides.
pub open spec fn longer_side(a: int, b: int) -> int {
    if a >= b { a } else { b }
}

/// The image `bytes` decode to has no empty side.
pub open spec fn decodes_non_empty(bytes: Seq<u8>) -> bool {
    decoded_rgba8(bytes) matches Some(d) ==> d.0 >= 1 && d.1 >= 1
}

/// A thumbnail request whose output, at most `size`×`size` RGBA pixels, fits in memory.
pub open spec fn thumbnail_fits(size: u32) -> bool {
    size * size * 4 <= isize::MAX
}

/// Decodes `bytes` with `image::load_from_memory`, which guesses the format
/// from the content, and converts the image with `DynamicImage::to_rgba8`.
/// Claimed: the outcome is `decoded_rgba8(bytes)`, a function of the bytes,
/// with four samples per pixel (decoders fill a buffer of exactly the image's
/// byte count, and `to_rgba8` either clones it or converts into a new
/// `width`×`height` buffer).
#[verifier::external_body]
fn load_rgba8(bytes: &[u8]) -> (r: Option<(u32, u32, Vec<u8>)>)
    ensures
        raster_view(r) == decoded_rgba8(bytes@),
        r matches Some(t) ==> t.2@.len() == t.0 * t.1 * 4,
{
    let img = image::load_from_memory(bytes).ok()?.to_rgba8();
    Some((img.width(), img.height(), img.into_raw()))
}

/// Decodes `bytes` with `image::load_from_memory`, shrinks the image with
/// `DynamicImage::thumbnail(size, size)` and converts it with `to_rgba8`.
/// Claimed: the outcome is `decoded_thumbnail(bytes, size)`, and the samples
/// are four per pixel, as the buffer `to_rgba8` allocates for the thumbnail;
/// it is present exactly when `load_from_memory` decodes the bytes, as
/// `decoded_rgba8` is; and its size is what `thumbnail`'s
/// `resize_dimensions(w, h, size, size, false)` computes for the decoded
/// `w`×`h` image (`thumb_size_ok`: each side at least 1 and within the box;
/// the longer side rounds to exactly `size` and the other to the aspect
/// ratio, the f64 errors being far below half a pixel).
#[verifier::external_body]
fn load_thumbnail_rgba8(bytes: &[u8], size: u32) -> (r: Option<(u32, u32, Vec<u8>)>)
    requires
        thumbnail_fits(size),
    ensures
        raster_view(r) == decoded_thumbnail(bytes@, size),
        r matches Some(t) ==> t.2@.len() == t.0 * t.1 * 4,
        r is Some <==> decoded_rgba8(bytes@) is Some,
        r matches Some(t) ==> (decoded_rgba8(bytes@) matches Some(d) && thumb_size_ok(d.0, d.1, size, t.0 as int, t.1 as int)),
{
    let img = image::load_from_memory(bytes).ok()?.thumbnail(size, size).to_rgba8();
    Some((img.width(), img.height(), img.into_raw()))
}

/// Wraps `rgba` with `image::RgbaImage::from_raw(width, height, rgba)`, then
/// applies `DynamicImage::thumbnail(size, size)` and `to_rgba8`.
/// Claimed: `from_raw` accepts the buffer exactly when it holds at least
/// `width * height * 4` bytes; the thumbnail is `rgba_thumbnail(..)` of the
/// arguments, with four samples per pixel, and sized as `thumb_size_ok`
/// says (see `load_thumbnail_rgba8`).
#[verifier::external_body]
fn thumbnail_of_rgba(width: u32, height: u32, rgba: Vec<u8>, size: u32) -> (r: Option<(u32, u32, Vec<u8>)>)
    requires
        thumbnail_fits(size),
    ensures
        r is Some <==> width * height * 4 <= rgba@.len(),
        r matches Some(t) ==> (t.0, t.1, t.2@) == rgba_thumbnail(width, height, rgba@, size),
        r matches Some(t) ==> t.2@.len() == t.0 * t.1 * 4,
        r matches Some(t) ==> thumb_size_ok(width, height, size, t.0 as int, t.1 as int),
{
    let img = image::RgbaImage::from_raw(width, height, rgba)?;
    let img = image::DynamicImage::ImageRgba8(img).thumbnail(size, size).to_rgba8();
    Some((img.width(), img.height(), img.into_raw()))
}

/// Runs `jpeg_decoder::Decoder` on `bytes` with the RGB colour transform,
/// scaled with `Decoder::scale(size, size)`, then `decode`, and reads the
/// pixel format from `Decoder::info`.
/// Claimed: bytes whose `jpeg_scaled_layout` is `None` (the decoder refuses
/// them) give `None`, and a decode that succeeds has the output size and pixel
/// format of `jpeg_scaled_layout`. Success itself is not promised: on large
/// images the decoder starts worker threads, and a failure to start one makes
/// the decode fail whatever the bytes. The samples are left unsaid too: the
/// decoder picks a SIMD inverse DCT at run time whose rounding may differ by
/// machine.
#[verifier::external_body]
fn jpeg_decode_scaled(bytes: &[u8], size: u16) -> (r: Option<ScaledJpeg>)
    ensures
        jpeg_scaled_layout(bytes@, size) is None ==> r is None,
        r matches Some(s) ==> jpeg_scaled_layout(bytes@, size) == Some((s.width, s.height, s.format)),
        r matches Some(s) ==> s.width >= 1 && s.height >= 1,
{
    let mut dec = jpeg_decoder::Decoder::new(std::io::Cursor::new(bytes));
    dec.set_color_transform(jpeg_decoder::ColorTransform::RGB);
    let (width, height) = dec.scale(size, size).ok()?;
    let pixels = dec.decode().ok()?;
    let format = match dec.info().map(|i| i.pixel_format) {
        Some(jpeg_decoder::PixelFormat::L8) => Some(JpegPixelFormat::L8),
        Some(jpeg_decoder::PixelFormat::L16) => Some(JpegPixelFormat::L16),
        Some(jpeg_decoder::PixelFormat::RGB24) => Some(JpegPixelFormat::Rgb24),
        Some(jpeg_decoder::PixelFormat::CMYK32) => Some(JpegPixelFormat::Cmyk32),
        None => None,
    };
    Some(ScaledJpeg { width, height, pixels, format })
}

/// Index facts for byte `c` of pixel `k` in a four-bytes-per-pixel buffer.
proof fn lemma_rgba_index(k: int, c: int)
    requires
        0 <= k,
        0 <= c < 4,
    ensures
        (k * 4 + c) / 4 == k,
        (k * 4 + c) % 4 == c,
{
    lemma_fundamental_div_mod_converse(k * 4 + c, 4, k, c);
}

/// True when `bytes` starts with the JPEG marker bytes `FF D8 FF`.
pub fn starts_with_jpeg_magic(bytes: &[u8]) -> (r: bool)
    ensures
        r == has_jpeg_magic(bytes@),
{
    bytes.len() >= 3 && bytes[0] == 0xFF && bytes[1] == 0xD8 && bytes[2] == 0xFF
}

/// Spreads grey samples to RGBA, one pixel per byte.
pub fn grey_samples_to_rgba(pixels: &[u8]) -> (r: Vec<u8>)
    requires
        pixels@.len() * 4 <= usize::MAX,
    ensures
        r@ == grey_to_rgba(pixels@),
{
    let mut out: Vec<u8> = Vec::new();
    let mut i: usize = 0;
    while i < pixels.len()
        invariant
            i <= pixels@.len(),
            out@.len() == i * 4,
            forall|j: int| 0 <= j < i * 4 ==> #[trigger] out@[j] == grey_to_rgba(pixels@)[j],
        decreases pixels@.len() - i,
    {
        let v = pixels[i];
        let ghost before = out@;
        out.push(v);
        out.push(v);
        out.push(v);
        out.push(255u8);
        proof {
            assert forall|j: int| 0 <= j < (i + 1) * 4 implies #[trigger] out@[j] == grey_to_rgba(pixels@)[j] by {
                if j < i * 4 {
                    assert(out@[j] == before[j]);
                } else {
                    lemma_rgba_index(i as int, j - i * 4);
                }
            }
        }
        i = i + 1;
    }
    assert(out@ =~= grey_to_rgba(pixels@));
    out
}

/// Spreads RGB triples to RGBA, one pixel per whole triple.
pub fn rgb_samples_to_rgba(pixels: &[u8]) -> (r: Vec<u8>)
    requires
        (pixels@.len() / 3) * 4 <= usize::MAX,
    ensures
        r@ == rgb_to_rgba(pixels@),
{
    let len: usize = pixels.len();
    let n: usize = len / 3;
    let mut out: Vec<u8> = Vec::new();
    let mut k: usize = 0;
    while k < n
        invariant
            len == pixels@.len(),
            n == len / 3,
            k <= n,
            out@.len() == k * 4,
            forall|j: int| 0 <= j < k * 4 ==> #[trigger] out@[j] == rgb_to_rgba(pixels@)[j],
        decreases n - k,
    {
        assert(k * 3 + 2 < pixels@.len());
        let ghost before = out@;
        out.push(pixels[k * 3]);
        out.push(pixels[k * 3 + 1]);
        out.push(pixels[k * 3 + 2]);
        out.push(255u8);
        proof {
            assert forall|j: int| 0 <= j < (k + 1) * 4 implies #[trigger] out@[j] == rgb_to_rgba(pixels@)[j] by {
                if j < k * 4 {
                    assert(out@[j] == before[j]);
                } else {
                    lemma_rgba_index(k as int, j - k * 4);
                }
            }
        }
        k = k + 1;
    }
    assert(out@ =~= rgb_to_rgba(pixels@));
    out
}

/// True for the formats whose samples are read one byte per pixel.
pub fn grey_format(format: Option<JpegPixelFormat>) -> (r: bool)
    ensures
        r == is_grey(format),
{
    match format {
        Some(JpegPixelFormat::L8) => true,
        Some(JpegPixelFormat::L16) => true,
        _ => false,
    }
}

/// True when the RGBA form of these JPEG samples can be held in memory.
pub fn rgba_expansion_fits(pixels: &[u8], format: Option<JpegPixelFormat>) -> (r: bool)
    ensures
        r == (jpeg_samples_to_rgba(pixels@, format).len() <= usize::MAX),
{
    let len: usize = pixels.len();
    if grey_format(format) {
        len <= usize::MAX / 4
    } else {
        len / 3 <= usize::MAX / 4
    }
}

/// Builds a `DecodedImage` from a decoder's raster when it is non-empty and
/// holds exactly four bytes per pixel; `None` otherwise.
pub fn checked_decoded(width: u32, height: u32, rgba: Vec<u8>) -> (r: Option<DecodedImage>)
    ensures
        shows_opt(r, checked_raster(Some((width, height, rgba@)))),
{
    if width == 0 || height == 0 {
        return None;
    }
    let w: u64 = width as u64;
    let h: u64 = height as u64;
    assert(w * h <= 0xffff_ffff_ffff_ffffu64) by (nonlinear_arith)
        requires
            w <= 0xffff_ffff,
            h <= 0xffff_ffff,
    ;
    let area: u64 = w * h;
    let len: u64 = rgba.len() as u64;
    if len % 4 != 0 || area != len / 4 {
        return None;
    }
    Some(DecodedImage { rgba, size: [width as usize, height as usize], path: String::new() })
}

/// Builds a `DecodedImage` from a thumbnail raster as it stands.
pub fn raster_to_decoded(width: u32, height: u32, rgba: Vec<u8>) -> (r: DecodedImage)
    ensures
        shows(r, (width, height, rgba@)),
{
    DecodedImage { rgba, size: [width as usize, height as usize], path: String::new() }
}

/// Decodes an image file held in memory to RGBA8. `None` when the bytes do
/// not decode, or decode to an empty image or one without four bytes per pixel.
pub fn decode_image_bytes(bytes: &[u8]) -> (r: Option<DecodedImage>)
    ensures
        shows_opt(r, checked_raster(decoded_rgba8(bytes@))),
        r matches Some(d) ==> d.size[0] > 0 && d.size[1] > 0 && d.rgba@.len() == d.size[0] * d.size[1] * 4,
        decoded_rgba8(bytes@) matches Some(d) ==> (r is Some <==> d.0 >= 1 && d.1 >= 1),
{
    match load_rgba8(bytes) {
        Some((width, height, rgba)) => checked_decoded(width, height, rgba),
        None => None,
    }
}

/// The thumbnail made from a scaled JPEG decode: its samples spread to RGBA
/// (one byte per pixel for grey formats, three otherwise), kept only when
/// that fits in memory and fills the decoded size exactly, then shrunk to fit
/// `size`×`size`.
pub fn thumbnail_from_scaled_jpeg(scaled: ScaledJpeg, size: u32) -> (r: Option<DecodedImage>)
    requires
        thumbnail_fits(size),
    ensures
        shows_opt(r, scaled_thumbnail(scaled.width, scaled.height, scaled.pixels@, scaled.format, size)),
        r matches Some(d) ==> d.rgba@.len() == d.size[0] * d.size[1] * 4,
        r matches Some(d) ==> thumb_size_ok(scaled.width as u32, scaled.height as u32, size, d.size[0] as int, d.size[1] as int),
{
    if !rgba_expansion_fits(&scaled.pixels, scaled.format) {
        return None;
    }
    let rgba = if grey_format(scaled.format) {
        grey_samples_to_rgba(&scaled.pixels)
    } else {
        rgb_samples_to_rgba(&scaled.pixels)
    };
    let w: u64 = scaled.width as u64;
    let h: u64 = scaled.height as u64;
    assert(w * h * 4 <= 0x4_0000_0000u64) by (nonlinear_arith)
        requires
            w <= 0xffff,
            h <= 0xffff,
    ;
    if rgba.len() as u64 != w * h * 4 {
        return None;
    }
    match thumbnail_of_rgba(scaled.width as u32, scaled.height as u32, rgba, size) {
        Some((tw, th, thumb)) => Some(raster_to_decoded(tw, th, thumb)),
        None => None,
    }
}

/// The full-decode thumbnail: the image decoded in full, then shrunk to fit
/// `size`×`size`.
fn full_thumbnail(bytes: &[u8], size: u32) -> (r: Option<DecodedImage>)
    requires
        thumbnail_fits(size),
    ensures
        shows_opt(r, decoded_thumbnail(bytes@, size)),
        r matches Some(d) ==> d.rgba@.len() == d.size[0] * d.size[1] * 4,
        r is Some <==> decoded_rgba8(bytes@) is Some,
        r matches Some(t) ==> (decoded_rgba8(bytes@) matches Some(d) && thumb_size_ok(d.0, d.1, size, t.size[0] as int, t.size[1] as int)),
{
    match load_thumbnail_rgba8(bytes, size) {
        Some((width, height, rgba)) => Some(raster_to_decoded(width, height, rgba)),
        None => None,
    }
}

/// What the JPEG path makes of the outcome of a scaled decode: the thumbnail
/// of the decoder's samples when they fill the decoded size; otherwise, and
/// when the scaled decode failed, the full-decode thumbnail of `bytes`.
pub fn thumbnail_or_full(bytes: &[u8], size: u32, scaled: Option<ScaledJpeg>) -> (r: Option<DecodedImage>)
    requires
        thumbnail_fits(size),
    ensures
        shows_opt(r, match scaled {
            Some(s) => match scaled_thumbnail(s.width, s.height, s.pixels@, s.format, size) {
                Some(t) => Some(t),
                None => decoded_thumbnail(bytes@, size),
            },
            None => decoded_thumbnail(bytes@, size),
        }),
        r matches Some(d) ==> d.rgba@.len() == d.size[0] * d.size[1] * 4,
        (scaled matches Some(s) ==> s.width >= 1 && s.height >= 1) ==> thumbnail_promise(bytes@, size, r),
{
    match scaled {
        Some(s) => match thumbnail_from_scaled_jpeg(s, size) {
            Some(d) => Some(d),
            None => full_thumbnail(bytes, size),
        },
        None => full_thumbnail(bytes, size),
    }
}

/// The JPEG path: a decode scaled down by the decoder, then a thumbnail;
/// when the decoder refuses the bytes, fails, or its samples do not fill the
/// decoded size, the image is decoded in full instead.
fn decode_jpeg_thumb(bytes: &[u8], size: u32) -> (r: Option<DecodedImage>)
    requires
        thumbnail_fits(size),
    ensures
        jpeg_scaled_layout(bytes@, jpeg_request(size)) is None ==> shows_opt(r, decoded_thumbnail(bytes@, size)),
        shows_opt(r, decoded_thumbnail(bytes@, size))
            || (r matches Some(d) && from_jpeg_path(bytes@, size, (d.size[0] as u32, d.size[1] as u32, d.rgba@))),
        r matches Some(d) ==> d.rgba@.len() == d.size[0] * d.size[1] * 4 && d.path@.len() == 0,
        thumbnail_promise(bytes@, size, r),
{
    let request: u16 = (size % 65536) as u16;
    let scaled = jpeg_decode_scaled(bytes, request);
    let ghost outcome = scaled;
    let r = thumbnail_or_full(bytes, size, scaled);
    proof {
        if let Some(s) = outcome {
            if let Some(t) = scaled_thumbnail(s.width, s.height, s.pixels@, s.format, size) {
                assert(from_jpeg_path(bytes@, size, t));
            }
        }
    }
    r
}

/// Decodes an image file held in memory to a thumbnail that fits in
/// `size`×`size`, keeping the aspect ratio. JPEG files first go through the
/// decoder's own down-scaling; when that path fails, and for every other
/// format, the image is decoded in full and shrunk.
pub fn decode_thumbnail_bytes(bytes: &[u8], size: u32) -> (r: Option<DecodedImage>)
    requires
        thumbnail_fits(size),
    ensures
        !has_jpeg_magic(bytes@) ==> shows_opt(r, decoded_thumbnail(bytes@, size)),
        has_jpeg_magic(bytes@) && jpeg_scaled_layout(bytes@, jpeg_request(size)) is None
            ==> shows_opt(r, decoded_thumbnail(bytes@, size)),
        has_jpeg_magic(bytes@) ==> shows_opt(r, decoded_thumbnail(bytes@, size))
            || (r matches Some(d) && from_jpeg_path(bytes@, size, (d.size[0] as u32, d.size[1] as u32, d.rgba@))),
        r matches Some(d) ==> d.rgba@.len() == d.size[0] * d.size[1] * 4 && d.path@.len() == 0,
        thumbnail_promise(bytes@, size, r),
        !has_jpeg_magic(bytes@) ==> (r matches Some(t) ==> (decoded_rgba8(bytes@) matches Some(d)
            && thumb_size_ok(d.0, d.1, size, t.size[0] as int, t.size[1] as int))),
{
    if starts_with_jpeg_magic(bytes) {
        decode_jpeg_thumb(bytes, size)
    } else {
        full_thumbnail(bytes, size)
    }
}

} // verus!
