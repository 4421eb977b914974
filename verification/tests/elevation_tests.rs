use simplan::binary32::encode_256ths;
use simplan::elevation::{
    decode_terrarium, elevation_file_name, elevation_tile_url, terrarium_from_frame,
    ElevationTile, PngColour, PngFrame, GRID, TILE_FILE_BYTES,
};

fn png_bytes(width: u32, height: u32, colour: png::ColorType, data: &[u8]) -> Vec<u8> {
    let mut out = Vec::new();
    {
        let mut enc = png::Encoder::new(&mut out, width, height);
        enc.set_color(colour);
        enc.set_depth(png::BitDepth::Eight);
        let mut writer = enc.write_header().unwrap();
        writer.write_image_data(data).unwrap();
    }
    out
}

fn terrarium_f32(r: u8, g: u8, b: u8) -> f32 {
    r as f32 * 256.0 + g as f32 + b as f32 / 256.0 - 32768.0
}

#[test]
fn flat_tile_is_sea_level() {
    let t = ElevationTile::flat();
    assert_eq!(t.heights.len(), GRID);
    assert!(t.heights.iter().all(|&h| f32::from_bits(h) == 0.0));
}

#[test]
fn encoding_matches_single_precision() {
    for raw in [-8388608i32, -256, -1, 0, 1, 255, 256, 12345, 8388607, 8388608] {
        let expected = (raw as f32 / 256.0).to_bits();
        assert_eq!(encode_256ths(raw), expected, "raw = {raw}");
    }
    // every height a Terrarium pixel can encode, on a coarse sweep
    let mut raw = -8388608i32;
    while raw <= 8388607 {
        assert_eq!(encode_256ths(raw), (raw as f32 / 256.0).to_bits());
        raw += 997;
    }
}

#[test]
fn decode_rgb_terrarium_tile() {
    let mut data = Vec::with_capacity(256 * 256 * 3);
    for i in 0..256 * 256usize {
        data.push((i % 251) as u8);
        data.push((i % 256) as u8);
        data.push((i * 7 % 256) as u8);
    }
    let png = png_bytes(256, 256, png::ColorType::Rgb, &data);
    let tile = decode_terrarium(&png).ok().expect("decodes");
    assert_eq!(tile.heights.len(), GRID);
    for i in 0..GRID {
        let h = terrarium_f32(data[3 * i], data[3 * i + 1], data[3 * i + 2]);
        assert_eq!(tile.heights[i], h.to_bits(), "pixel {i}");
    }
}

#[test]
fn decode_rgba_terrarium_tile() {
    let mut data = Vec::with_capacity(256 * 256 * 4);
    for i in 0..256 * 256usize {
        data.extend_from_slice(&[128, (i / 256) as u8, (i % 256) as u8, 255]);
    }
    let png = png_bytes(256, 256, png::ColorType::Rgba, &data);
    let tile = decode_terrarium(&png).ok().expect("decodes");
    // R = 128 is sea level; G adds metres, B adds 1/256 m
    assert_eq!(f32::from_bits(tile.heights[0]), 0.0);
    assert_eq!(f32::from_bits(tile.heights[1]), 1.0 / 256.0);
    assert_eq!(f32::from_bits(tile.heights[256]), 1.0);
    assert_eq!(f32::from_bits(tile.heights[256 * 256 - 1]), 255.0 + 255.0 / 256.0);
}

#[test]
fn larger_tile_uses_leading_pixels() {
    // a 512-wide image: the first 65536 pixels are its first 128 rows
    let mut data = Vec::with_capacity(512 * 256 * 3);
    for i in 0..512 * 256usize {
        data.extend_from_slice(&[(i % 200) as u8, 7, 9]);
    }
    let png = png_bytes(512, 256, png::ColorType::Rgb, &data);
    let tile = decode_terrarium(&png).ok().expect("decodes");
    for i in [0usize, 511, 512, 65535] {
        let h = terrarium_f32((i % 200) as u8, 7, 9);
        assert_eq!(tile.heights[i], h.to_bits());
    }
}

#[test]
fn small_tile_is_rejected() {
    let data = vec![0u8; 100 * 300 * 3];
    let png = png_bytes(100, 300, png::ColorType::Rgb, &data);
    match decode_terrarium(&png) {
        Err(e) => assert_eq!(e.0, "tile too small: 100×300"),
        Ok(_) => panic!("accepted a small tile"),
    }
}

#[test]
fn grayscale_tile_is_rejected() {
    let data = vec![0u8; 256 * 256];
    let png = png_bytes(256, 256, png::ColorType::Grayscale, &data);
    match decode_terrarium(&png) {
        Err(e) => assert_eq!(e.message(), "unsupported PNG colour type: Grayscale"),
        Ok(_) => panic!("accepted a grayscale tile"),
    }
}

#[test]
fn garbage_is_a_png_error() {
    match decode_terrarium(b"definitely not a png") {
        Err(e) => assert!(!e.0.is_empty()),
        Ok(_) => panic!("accepted garbage"),
    }
}

#[test]
fn tile_bytes_roundtrip() {
    let mut t = ElevationTile::flat();
    for i in 0..GRID {
        t.heights[i] = ((i as f32) * 0.25 - 1000.0).to_bits();
    }
    let bytes = t.to_bytes();
    assert_eq!(bytes.len(), TILE_FILE_BYTES);
    // the disk format is little-endian f32
    assert_eq!(&bytes[4..8], &(0.25f32 - 1000.0).to_le_bytes());
    let back = ElevationTile::from_bytes(&bytes).expect("accepted");
    assert_eq!(back.heights, t.heights);
    assert_eq!(back.to_bytes(), bytes);
}

#[test]
fn elevation_wrong_length_is_rejected() {
    assert!(ElevationTile::from_bytes(&[0u8; 12]).is_none());
    assert!(ElevationTile::from_bytes(&vec![0u8; TILE_FILE_BYTES + 4]).is_none());
    assert!(ElevationTile::from_bytes(&vec![0u8; TILE_FILE_BYTES]).is_some());
}

#[test]
fn elevation_names() {
    assert_eq!(
        elevation_tile_url(33, -7, 12),
        format!("https://s3.amazonaws.com/elevation-tiles-prod/terrarium/{}/{}/{}.png", 12, 33, -7)
    );
    assert_eq!(elevation_file_name(4242, 1234, 13), "13_4242_1234.bin");
    assert_eq!(elevation_file_name(-1, 0, 0), "0_-1_0.bin");
    assert_eq!(
        elevation_file_name(i32::MIN, i32::MAX, u32::MAX),
        format!("{}_{}_{}.bin", u32::MAX, i32::MIN, i32::MAX)
    );
}

#[test]
fn frame_with_known_pixels() {
    // Leading pixels: sea level, 1 m, -1 m, 0.5 m, lowest, highest.
    let mut pixels = vec![128, 0, 0, 128, 1, 0, 127, 255, 0, 128, 0, 128, 0, 0, 0, 255, 255, 255];
    pixels.resize(256 * 256 * 3, 0);
    let frame = PngFrame { width: 256, height: 256, colour: PngColour::Rgb, pixels };
    let tile = terrarium_from_frame(frame).ok().expect("decodes");
    let got: Vec<f32> = tile.heights[..6].iter().map(|b| f32::from_bits(*b)).collect();
    assert_eq!(got, vec![0.0, 1.0, -1.0, 0.5, -32768.0, 32767.99609375]);
    assert_eq!(f32::from_bits(tile.heights[GRID - 1]), -32768.0);
}

#[test]
fn short_frame_leaves_remaining_heights_zero() {
    let frame = PngFrame {
        width: 256,
        height: 256,
        colour: PngColour::Rgba,
        pixels: vec![128, 2, 0, 255, 128, 3, 0, 255],
    };
    let tile = terrarium_from_frame(frame).ok().expect("decodes");
    assert_eq!(f32::from_bits(tile.heights[0]), 2.0);
    assert_eq!(f32::from_bits(tile.heights[1]), 3.0);
    assert!(tile.heights[2..].iter().all(|b| *b == 0));
}

#[test]
fn frame_errors_name_the_problem() {
    let small = PngFrame { width: 255, height: 300, colour: PngColour::Rgb, pixels: vec![] };
    assert_eq!(terrarium_from_frame(small).err().unwrap().message(), "tile too small: 255×300");
    let grey = PngFrame { width: 256, height: 256, colour: PngColour::GrayscaleAlpha, pixels: vec![] };
    assert_eq!(
        terrarium_from_frame(grey).err().unwrap().message(),
        "unsupported PNG colour type: GrayscaleAlpha"
    );
}
