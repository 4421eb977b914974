use simplan::imagery::{
    decode_imagery_tile, imagery_file_name, imagery_from_rgba8, imagery_tile_url, ImageryTile,
    TILE_BYTES,
};
use std::io::Cursor;

fn encode_png(img: &image::RgbaImage) -> Vec<u8> {
    let mut out = Cursor::new(Vec::new());
    img.write_to(&mut out, image::ImageFormat::Png).unwrap();
    out.into_inner()
}

#[test]
fn blank_is_mid_grey() {
    let t = ImageryTile::blank();
    assert_eq!(t.rgba.len(), 256 * 256 * 4);
    assert!(t.rgba.iter().all(|&b| b == 128));
}

#[test]
fn imagery_bytes_roundtrip() {
    let mut t = ImageryTile::blank();
    t.rgba[5] = 9;
    let bytes = t.to_bytes().to_vec();
    let back = ImageryTile::from_bytes(bytes.clone()).expect("accepted");
    assert_eq!(back.rgba, bytes);
    assert_eq!(back.to_bytes(), t.to_bytes());
}

#[test]
fn imagery_wrong_length_is_rejected() {
    assert!(ImageryTile::from_bytes(vec![0u8; TILE_BYTES - 1]).is_none());
    assert!(ImageryTile::from_bytes(vec![]).is_none());
    assert!(ImageryTile::from_bytes(vec![0u8; TILE_BYTES]).is_some());
}

#[test]
fn decode_full_size_tile() {
    let img = image::RgbaImage::from_fn(256, 256, |x, y| image::Rgba([x as u8, y as u8, 7, 255]));
    let tile = decode_imagery_tile(&encode_png(&img)).ok().expect("decodes");
    assert_eq!(tile.rgba, img.into_raw());
}

#[test]
fn decode_resamples_other_sizes() {
    let img = image::RgbaImage::from_fn(64, 32, |x, y| image::Rgba([x as u8 * 3, y as u8, 200, 255]));
    let expected = image::imageops::resize(&img, 256, 256, image::imageops::FilterType::Lanczos3)
        .into_raw();
    let tile = decode_imagery_tile(&encode_png(&img)).ok().expect("decodes");
    assert_eq!(tile.rgba.len(), TILE_BYTES);
    assert_eq!(tile.rgba, expected);
}

#[test]
fn decode_garbage_fails() {
    match decode_imagery_tile(&[1, 2, 3, 4]) {
        Err(e) => assert!(!e.message().is_empty()),
        Ok(_) => panic!("accepted garbage"),
    }
}

#[test]
fn imagery_names() {
    assert_eq!(
        imagery_tile_url(4242, 1234, 13),
        "https://server.arcgisonline.com/ArcGIS/rest/services/World_Imagery/MapServer/tile/13/1234/4242"
    );
    assert_eq!(imagery_file_name(4242, -1234, 13), "13_4242_-1234.rgba");
}

#[test]
fn full_size_pixels_are_kept() {
    let px: Vec<u8> = (0..TILE_BYTES).map(|i| (i % 253) as u8).collect();
    let t = imagery_from_rgba8(256, 256, px.clone());
    assert_eq!(t.rgba, px);
}

#[test]
fn other_sizes_are_resampled() {
    let t = imagery_from_rgba8(2, 2, vec![10, 20, 30, 255].repeat(4));
    assert_eq!(t.rgba.len(), TILE_BYTES);
    assert_eq!(&t.rgba[..4], &[10, 20, 30, 255]);
    assert_eq!(&t.rgba[TILE_BYTES - 4..], &[10, 20, 30, 255]);
}
