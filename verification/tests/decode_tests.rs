use mmcompare::decode::{
    checked_decoded, decode_image_bytes, decode_thumbnail_bytes, grey_samples_to_rgba,
    rgb_samples_to_rgba, starts_with_jpeg_magic, thumbnail_from_scaled_jpeg, thumbnail_or_full, JpegPixelFormat,
    ScaledJpeg,
};

fn make_jpeg(w: u32, h: u32) -> Vec<u8> {
    let mut img = image::RgbaImage::new(w, h);
    for y in 0..h {
        for x in 0..w {
            img.put_pixel(x, y, image::Rgba([(x % 255) as u8, (y % 255) as u8, 128, 255]));
        }
    }
    let mut out = std::io::Cursor::new(Vec::new());
    image::DynamicImage::ImageRgba8(img)
        .write_to(&mut out, image::ImageFormat::Jpeg)
        .unwrap();
    out.into_inner()
}

fn make_png(w: u32, h: u32) -> Vec<u8> {
    let mut img = image::RgbaImage::new(w, h);
    for y in 0..h {
        for x in 0..w {
            img.put_pixel(x, y, image::Rgba([(x % 255) as u8, (y % 255) as u8, 128, 255]));
        }
    }
    let mut out = std::io::Cursor::new(Vec::new());
    image::DynamicImage::ImageRgba8(img)
        .write_to(&mut out, image::ImageFormat::Png)
        .unwrap();
    out.into_inner()
}

#[test]
fn jpeg_thumbnail_is_64x64() {
    let bytes = make_jpeg(4000, 3000);
    let thumb = decode_thumbnail_bytes(&bytes, 64).expect("jpeg thumb decode");
    assert_eq!(thumb.size[0].max(thumb.size[1]), 64);
    assert_eq!(thumb.rgba.len(), thumb.size[0] * thumb.size[1] * 4);
}

#[test]
fn png_thumbnail_is_64x64() {
    let bytes = make_png(4000, 3000);
    let thumb = decode_thumbnail_bytes(&bytes, 64).expect("png thumb decode");
    assert_eq!(thumb.size[0].max(thumb.size[1]), 64);
    assert_eq!(thumb.rgba.len(), thumb.size[0] * thumb.size[1] * 4);
}

#[test]
fn small_image_thumbnail_ok() {
    let bytes = make_jpeg(100, 80);
    let thumb = decode_thumbnail_bytes(&bytes, 64).expect("small jpeg thumb decode");
    assert_eq!(thumb.size[0].max(thumb.size[1]), 64);
}

#[test]
fn grayscale_jpeg_thumbnail_ok() {
    let mut img = image::GrayImage::new(2000, 1500);
    for y in 0..1500 {
        for x in 0..2000 {
            img.put_pixel(x, y, image::Luma([(x % 255) as u8]));
        }
    }
    let mut out = std::io::Cursor::new(Vec::new());
    image::DynamicImage::ImageLuma8(img)
        .write_to(&mut out, image::ImageFormat::Jpeg)
        .unwrap();
    let thumb = decode_thumbnail_bytes(&out.into_inner(), 64).expect("gray jpeg thumb decode");
    assert_eq!(thumb.size[0].max(thumb.size[1]), 64);
}

#[test]
fn corrupt_bytes_fallback_to_none() {
    assert!(decode_thumbnail_bytes(b"not an image at all", 64).is_none());
}

#[test]
fn png_decodes_to_exact_pixels() {
    let mut img = image::RgbaImage::new(3, 2);
    for y in 0..2u32 {
        for x in 0..3u32 {
            img.put_pixel(x, y, image::Rgba([x as u8 * 10, y as u8 * 20, 7, 200]));
        }
    }
    let mut out = std::io::Cursor::new(Vec::new());
    image::DynamicImage::ImageRgba8(img)
        .write_to(&mut out, image::ImageFormat::Png)
        .unwrap();
    let d = decode_image_bytes(&out.into_inner()).expect("png decode");
    assert_eq!(d.size, [3, 2]);
    assert_eq!(d.rgba.len(), 24);
    assert_eq!(&d.rgba[0..4], &[0, 0, 7, 200]);
    assert_eq!(&d.rgba[20..24], &[20, 20, 7, 200]);
    assert!(d.path.is_empty());
}

#[test]
fn garbage_does_not_decode() {
    assert!(decode_image_bytes(b"definitely not pixels").is_none());
    assert!(decode_image_bytes(&[]).is_none());
}

#[test]
fn png_thumbnail_keeps_aspect_within_box() {
    let bytes = make_png(200, 100);
    let thumb = decode_thumbnail_bytes(&bytes, 50).expect("png thumb");
    assert_eq!(thumb.size, [50, 25]);
    assert_eq!(thumb.rgba.len(), 50 * 25 * 4);
}

#[test]
fn checked_decoded_rejects_bad_rasters() {
    assert!(checked_decoded(0, 2, vec![]).is_none());
    assert!(checked_decoded(2, 0, vec![]).is_none());
    assert!(checked_decoded(2, 2, vec![0; 15]).is_none());
    assert!(checked_decoded(2, 2, vec![0; 17]).is_none());
    let d = checked_decoded(2, 2, vec![9; 16]).expect("valid raster");
    assert_eq!(d.size, [2, 2]);
    assert_eq!(d.rgba, vec![9; 16]);
}

#[test]
fn jpeg_magic_is_three_bytes() {
    assert!(starts_with_jpeg_magic(&[0xFF, 0xD8, 0xFF, 0xE0]));
    assert!(starts_with_jpeg_magic(&[0xFF, 0xD8, 0xFF]));
    assert!(!starts_with_jpeg_magic(&[0xFF, 0xD8]));
    assert!(!starts_with_jpeg_magic(&[0x89, b'P', b'N', b'G']));
}

#[test]
fn grey_and_rgb_samples_spread_to_rgba() {
    assert_eq!(grey_samples_to_rgba(&[1, 2]), vec![1, 1, 1, 255, 2, 2, 2, 255]);
    assert_eq!(rgb_samples_to_rgba(&[1, 2, 3, 4, 5, 6, 7]), vec![1, 2, 3, 255, 4, 5, 6, 255]);
    assert!(rgb_samples_to_rgba(&[1, 2]).is_empty());
}

#[test]
fn scaled_jpeg_with_short_samples_is_refused() {
    let scaled = ScaledJpeg { width: 2, height: 2, pixels: vec![0; 11], format: Some(JpegPixelFormat::Rgb24) };
    assert!(thumbnail_from_scaled_jpeg(scaled, 64).is_none());
    let grey = ScaledJpeg { width: 2, height: 1, pixels: vec![5, 6], format: Some(JpegPixelFormat::L8) };
    let t = thumbnail_from_scaled_jpeg(grey, 64).expect("grey thumb");
    assert_eq!(t.rgba.len(), t.size[0] * t.size[1] * 4);
    assert_eq!(t.size[0].max(t.size[1]), 64);
}

#[test]
fn short_scaled_samples_fall_back_to_the_full_decode() {
    let bytes = make_png(100, 50);
    let full = decode_thumbnail_bytes(&bytes, 50).expect("full decode");
    let short = ScaledJpeg { width: 2, height: 2, pixels: vec![0; 11], format: Some(JpegPixelFormat::Rgb24) };
    let r = thumbnail_or_full(&bytes, 50, Some(short)).expect("fallback");
    assert_eq!(r.size, full.size);
    assert_eq!(r.rgba, full.rgba);
    let r = thumbnail_or_full(&bytes, 50, None).expect("fallback without a scaled decode");
    assert_eq!(r.size, [50, 25]);
    let grey = ScaledJpeg { width: 2, height: 1, pixels: vec![5, 6], format: Some(JpegPixelFormat::L8) };
    let r = thumbnail_or_full(&bytes, 50, Some(grey)).expect("scaled thumbnail");
    assert_eq!(r.size, [50, 25]);
    assert!(r.rgba[0] == r.rgba[1] && r.rgba[1] == r.rgba[2] && r.rgba[3] == 255, "grey samples");
    assert!(r.rgba[0] >= 5 && r.rgba[0] <= 6);
    assert!(thumbnail_or_full(b"junk", 50, None).is_none());
}

#[test]
fn thumbnails_keep_the_longer_side_at_the_box() {
    for (w, h) in [(100u32, 50u32), (50, 100), (7, 3), (1, 1), (300, 299)] {
        let t = decode_thumbnail_bytes(&make_png(w, h), 40).expect("thumb");
        assert_eq!(t.size[0].max(t.size[1]), 40, "{w}x{h}");
        assert!(t.size[0] >= 1 && t.size[1] >= 1);
        let (tw, th) = (t.size[0] as i64, t.size[1] as i64);
        assert!((tw * h as i64 - th * w as i64).abs() <= w.max(h) as i64, "{w}x{h}");
    }
    let t = decode_thumbnail_bytes(&make_jpeg(640, 480), 64).expect("jpeg thumb");
    assert_eq!(t.size[0].max(t.size[1]), 64);
    let t = decode_thumbnail_bytes(&make_png(10, 5), 0).expect("zero box");
    assert_eq!(t.size, [1, 1]);
}
