//! Terrarium elevation tiles: decode, disk format and names.
//!
//! Terrarium encodes height as `R * 256 + G + B / 256 − 32768` metres.
//! Heights are kept as IEEE-754 binary32 bit patterns, row-major,
//! index = row * 256 + col, row 0 = north.

use vstd::prelude::*;
use crate::binary32::{encode_256ths, encodes_256ths};
use crate::text::{decimal, push_decimal, push_signed_decimal, signed_decimal};

verus! {

/// Number of heights in a tile: 256 × 256.
pub const GRID: usize = 65536;

/// Number of bytes of a tile on disk: four per height.
pub const TILE_FILE_BYTES: usize = 262144;

/// Smallest PNG side accepted by the decoder.
pub const MIN_PNG_SIDE: u32 = 256;

/// 256×256 elevation grid decoded from one Terrarium PNG tile; each entry
/// is the binary32 bit pattern of a height in metres.
pub struct ElevationTile {
    pub heights: Vec<u32>,
}

impl View for ElevationTile {
    type V = Seq<u32>;

    open spec fn view(&self) -> Seq<u32> {
        self.heights@
    }
}

/// Byte `k` (0 = least significant) of a little-endian word.
pub open spec fn le_byte(w: u32, k: int) -> u8 {
    if k == 0 {
        (w % 256) as u8
    } else if k == 1 {
        ((w / 256) % 256) as u8
    } else if k == 2 {
        ((w / 65536) % 256) as u8
    } else {
        (w / 16777216) as u8
    }
}

/// The word made of four little-endian bytes.
pub open spec fn le_word(b0: u8, b1: u8, b2: u8, b3: u8) -> u32 {
    (b0 + 256 * b1 + 65536 * b2 + 16777216 * b3) as u32
}

/// The little-endian byte form of a sequence of words.
pub open spec fn le_bytes(words: Seq<u32>) -> Seq<u8> {
    Seq::new(4 * words.len(), |i: int| le_byte(words[i / 4], i % 4))
}

/// The words read little-endian from a byte sequence (a trailing partial
/// word is ignored).
pub open spec fn le_words(bytes: Seq<u8>) -> Seq<u32> {
    Seq::new(
        bytes.len() / 4,
        |i: int| le_word(bytes[4 * i], bytes[4 * i + 1], bytes[4 * i + 2], bytes[4 * i + 3]),
    )
}

impl ElevationTile {
    /// A tile holds exactly one 256×256 grid.
    pub open spec fn wf(&self) -> bool {
        self.heights@.len() == GRID
    }

    /// All-zero (sea level, +0.0) placeholder used when a fetch fails.
    pub fn flat() -> (t: Self)
        ensures
            t.wf(),
            forall|i: int| 0 <= i < GRID ==> #[trigger] t@[i] == 0u32,
    {
        Self { heights: vec![0u32; GRID] }
    }

    /// Serialize to raw little-endian words for the disk cache.
    pub fn to_bytes(&self) -> (out: Vec<u8>)
        requires
            self.wf(),
        ensures
            out@ == le_bytes(self@),
    {
        let mut out: Vec<u8> = Vec::with_capacity(TILE_FILE_BYTES);
        let n = self.heights.len();
        for i in 0..n
            invariant
                n == self.heights@.len(),
                n == GRID,
                out@ =~= le_bytes(self@.take(i as int)),
        {
            let h = self.heights[i];
            let ghost before = out@;
            out.push((h % 256) as u8);
            out.push(((h / 256) % 256) as u8);
            out.push(((h / 65536) % 256) as u8);
            out.push((h / 16777216) as u8);
            assert forall|j: int| 0 <= j < 4 * (i + 1) implies #[trigger] out@[j] == le_byte(
                self@.take(i + 1)[j / 4],
                j % 4,
            ) by {
                if j < 4 * i {
                    assert(out@[j] == before[j]);
                    assert(self@.take(i + 1)[j / 4] == self@.take(i as int)[j / 4]);
                }
            }
            assert(out@ =~= le_bytes(self@.take(i + 1)));
        }
        assert(self@.take(n as int) =~= self@);
        out
    }

    /// Deserialize from raw bytes written by `to_bytes`: accepted exactly
    /// when the length is that of one tile.
    pub fn from_bytes(bytes: &[u8]) -> (r: Option<Self>)
        ensures
            r is Some <==> bytes@.len() == TILE_FILE_BYTES,
            r matches Some(t) ==> t@ == le_words(bytes@) && t.wf(),
    {
        if bytes.len() != TILE_FILE_BYTES {
            return None;
        }
        let mut heights: Vec<u32> = Vec::with_capacity(GRID);
        for i in 0..GRID
            invariant
                bytes@.len() == TILE_FILE_BYTES,
                heights@ =~= le_words(bytes@).take(i as int),
        {
            let k = 4 * i;
            let w = bytes[k] as u32 + 256 * (bytes[k + 1] as u32) + 65536 * (bytes[k + 2] as u32)
                + 16777216 * (bytes[k + 3] as u32);
            heights.push(w);
            assert(heights@ =~= le_words(bytes@).take(i + 1));
        }
        assert(le_words(bytes@).take(GRID as int) =~= le_words(bytes@));
        Some(Self { heights })
    }
}

/// Reading back what `to_bytes` wrote gives the same heights.
pub proof fn law_tile_bytes_roundtrip(words: Seq<u32>)
    ensures
        le_words(le_bytes(words)) == words,
{
    let b = le_bytes(words);
    assert forall|i: int| 0 <= i < words.len() implies #[trigger] le_words(b)[i] == words[i] by {
        let w = words[i];
        assert((4 * i) / 4 == i && (4 * i + 1) / 4 == i && (4 * i + 2) / 4 == i && (4 * i + 3)
            / 4 == i);
        assert((4 * i) % 4 == 0 && (4 * i + 1) % 4 == 1 && (4 * i + 2) % 4 == 2 && (4 * i + 3)
            % 4 == 3);
        assert(w == ((w % 256) + 256 * ((w / 256) % 256) + 65536 * ((w / 65536) % 256)
            + 16777216 * (w / 16777216)) as u32) by (bit_vector);
    }
    assert(le_words(b) =~= words);
}

/// Writing back what `from_bytes` read gives the same bytes, for any file
/// of whole words.
pub proof fn law_tile_words_roundtrip(bytes: Seq<u8>)
    requires
        bytes.len() % 4 == 0,
    ensures
        le_bytes(le_words(bytes)) == bytes,
{
    let w = le_words(bytes);
    assert forall|j: int| 0 <= j < bytes.len() implies #[trigger] le_bytes(w)[j] == bytes[j] by {
        let i = j / 4;
        let k = j % 4;
        assert(4 * i + k == j);
        let b0 = bytes[4 * i];
        let b1 = bytes[4 * i + 1];
        let b2 = bytes[4 * i + 2];
        let b3 = bytes[4 * i + 3];
        assert(le_byte(le_word(b0, b1, b2, b3), 0) == b0 && le_byte(le_word(b0, b1, b2, b3), 1)
            == b1 && le_byte(le_word(b0, b1, b2, b3), 2) == b2 && le_byte(
            le_word(b0, b1, b2, b3),
            3,
        ) == b3) by {
            let x = ((b0 as u32) + 256 * (b1 as u32) + 65536 * (b2 as u32) + 16777216 * (
            b3 as u32)) as u32;
            assert(x % 256 == b0 as u32 && (x / 256) % 256 == b1 as u32 && (x / 65536) % 256
                == b2 as u32 && x / 16777216 == b3 as u32) by (bit_vector)
                requires
                    x == ((b0 as u32) + 256 * (b1 as u32) + 65536 * (b2 as u32) + 16777216 * (
                    b3 as u32)) as u32,
            ;
        }
    }
    assert(le_bytes(w) =~= bytes);
}


// ── Terrarium decode ─────────────────────────────────────────────────────────

/// Colour type of a decoded PNG frame.
#[derive(PartialEq, Eq, Structural, Clone, Copy, Debug)]
pub enum PngColour {
    Grayscale,
    Rgb,
    Indexed,
    GrayscaleAlpha,
    Rgba,
}

/// The first frame of a decoded PNG file: its size, colour type and the
/// frame's pixel bytes.
pub struct PngFrame {
    pub width: u32,
    pub height: u32,
    pub colour: PngColour,
    pub pixels: Vec<u8>,
}

/// What the `png` crate decodes from a file: the first frame's width,
/// height, colour type and pixel bytes, or the text of its error.
pub uninterp spec fn png_decoded(file: Seq<u8>) -> Result<(u32, u32, PngColour, Seq<u8>), Seq<char>>;

/// Decode the first frame of a PNG file with `png::Decoder` (`read_info`,
/// then `next_frame` into a buffer of `output_buffer_size` bytes, kept up
/// to the frame's `buffer_size`).  The result is named by `png_decoded`;
/// nothing more is claimed of it.
#[verifier::external_body]
fn decode_png(file: &[u8]) -> (r: Result<PngFrame, String>)
    ensures
        match r {
            Ok(f) => png_decoded(file@) == Ok::<(u32, u32, PngColour, Seq<u8>), Seq<char>>(
                (f.width, f.height, f.colour, f.pixels@),
            ),
            Err(m) => png_decoded(file@) == Err::<(u32, u32, PngColour, Seq<u8>), Seq<char>>(m@),
        },
{
    let decoder = png::Decoder::new(std::io::Cursor::new(file));
    let mut reader = decoder.read_info().map_err(|e| e.to_string())?;
    let mut pixels = vec![0u8; reader.output_buffer_size().unwrap_or(0)];
    let info = reader.next_frame(&mut pixels).map_err(|e| e.to_string())?;
    pixels.truncate(info.buffer_size());
    let colour = match info.color_type {
        png::ColorType::Grayscale => PngColour::Grayscale,
        png::ColorType::Rgb => PngColour::Rgb,
        png::ColorType::Indexed => PngColour::Indexed,
        png::ColorType::GrayscaleAlpha => PngColour::GrayscaleAlpha,
        png::ColorType::Rgba => PngColour::Rgba,
    };
    Ok(PngFrame { width: info.width, height: info.height, colour, pixels })
}

/// Error raised while fetching or decoding an elevation tile.
pub struct FetchError(pub String);

impl FetchError {
    /// The error's text.
    pub fn message(&self) -> (s: String)
        ensures
            s@ == self.0@,
    {
        self.0.clone()
    }
}

/// Height in 1/256 m of a Terrarium pixel: 256 · (R·256 + G + B/256 − 32768).
pub open spec fn terrarium_256ths(r: u8, g: u8, b: u8) -> int {
    r * 65536 + g * 256 + b - 8388608
}

/// Bytes per pixel of the colour types Terrarium tiles come in.
pub open spec fn stride_of(c: PngColour) -> int {
    match c {
        PngColour::Rgb => 3,
        PngColour::Rgba => 4,
        _ => 0,
    }
}

/// `t` is the grid decoded from the pixel bytes `px` with `stride` bytes
/// per pixel: the first pixels (at most 256 × 256, and only whole pixels)
/// give heights, the rest of the grid is +0.0.
pub open spec fn decoded_heights(t: Seq<u32>, px: Seq<u8>, stride: int) -> bool {
    &&& t.len() == GRID
    &&& forall|i: int|
        0 <= i < GRID ==> if i < (px.len() as int) / stride {
            encodes_256ths(
                #[trigger] t[i],
                terrarium_256ths(px[stride * i], px[stride * i + 1], px[stride * i + 2]),
            )
        } else {
            t[i] == 0
        }
}

/// Debug name of a colour type.
pub open spec fn colour_name(c: PngColour) -> Seq<char> {
    match c {
        PngColour::Grayscale => "Grayscale"@,
        PngColour::Rgb => "Rgb"@,
        PngColour::Indexed => "Indexed"@,
        PngColour::GrayscaleAlpha => "GrayscaleAlpha"@,
        PngColour::Rgba => "Rgba"@,
    }
}

/// Text of the error for a frame smaller than 256 × 256.
pub open spec fn too_small_text(w: u32, h: u32) -> Seq<char> {
    "tile too small: "@ + decimal(w as nat) + "×"@ + decimal(h as nat)
}

/// Text of the error for a colour type other than RGB or RGBA.
pub open spec fn unsupported_colour_text(c: PngColour) -> Seq<char> {
    "unsupported PNG colour type: "@ + colour_name(c)
}

fn colour_name_str(c: PngColour) -> (s: &'static str)
    ensures
        s@ == colour_name(c),
{
    match c {
        PngColour::Grayscale => "Grayscale",
        PngColour::Rgb => "Rgb",
        PngColour::Indexed => "Indexed",
        PngColour::GrayscaleAlpha => "GrayscaleAlpha",
        PngColour::Rgba => "Rgba",
    }
}

fn too_small_message(w: u32, h: u32) -> (s: String)
    ensures
        s@ == too_small_text(w, h),
{
    let mut s = String::from_str("tile too small: ");
    push_decimal(&mut s, w as u64);
    s.append("×");
    push_decimal(&mut s, h as u64);
    assert(s@ =~= too_small_text(w, h));
    s
}

fn unsupported_colour_message(c: PngColour) -> (s: String)
    ensures
        s@ == unsupported_colour_text(c),
{
    let mut s = String::from_str("unsupported PNG colour type: ");
    s.append(colour_name_str(c));
    s
}

/// Decode Terrarium heights from the pixels of a frame, `stride` bytes per pixel.
fn terrarium_grid(px: &Vec<u8>, stride: usize) -> (heights: Vec<u32>)
    requires
        stride == 3 || stride == 4,
    ensures
        decoded_heights(heights@, px@, stride as int),
{
    let mut heights = vec![0u32; GRID];
    let avail = px.len() / stride;
    let n = if avail < GRID {
        avail
    } else {
        GRID
    };
    for i in 0..n
        invariant
            heights@.len() == GRID,
            n <= GRID,
            n <= (px@.len() as int) / (stride as int),
            n == GRID || n == (px@.len() as int) / (stride as int),
            stride == 3 || stride == 4,
            forall|j: int|
                0 <= j < GRID ==> if j < i {
                    encodes_256ths(
                        #[trigger] heights@[j],
                        terrarium_256ths(
                            px@[stride * j],
                            px@[stride * j + 1],
                            px@[stride * j + 2],
                        ),
                    )
                } else {
                    heights@[j] == 0
                },
    {
        assert(stride * i + 2 < px@.len()) by (nonlinear_arith)
            requires
                i < (px@.len() as int) / (stride as int),
                stride == 3 || stride == 4,
        ;
        let k = stride * i;
        let raw: i32 = (px[k] as i32) * 65536 + (px[k + 1] as i32) * 256 + (px[k + 2] as i32)
            - 8388608;
        heights.set(i, encode_256ths(raw));
    }
    assert(decoded_heights(heights@, px@, stride as int));
    heights
}

/// Turn the first frame of a Terrarium PNG into an elevation grid: frames
/// narrower or shorter than 256 pixels and colour types other than RGB and
/// RGBA are refused.
pub fn terrarium_from_frame(frame: PngFrame) -> (r: Result<ElevationTile, FetchError>)
    ensures
        if frame.width < MIN_PNG_SIDE || frame.height < MIN_PNG_SIDE {
            r matches Err(e) && e.0@ == too_small_text(frame.width, frame.height)
        } else if frame.colour == PngColour::Rgb || frame.colour == PngColour::Rgba {
            r matches Ok(t) && t.wf() && decoded_heights(t@, frame.pixels@, stride_of(frame.colour))
        } else {
            r matches Err(e) && e.0@ == unsupported_colour_text(frame.colour)
        },
{
    if frame.width < MIN_PNG_SIDE || frame.height < MIN_PNG_SIDE {
        return Err(FetchError(too_small_message(frame.width, frame.height)));
    }
    let stride: usize = match frame.colour {
        PngColour::Rgb => 3,
        PngColour::Rgba => 4,
        other => {
            return Err(FetchError(unsupported_colour_message(other)));
        },
    };
    Ok(ElevationTile { heights: terrarium_grid(&frame.pixels, stride) })
}

/// Decode a Terrarium PNG tile into an elevation grid.
pub fn decode_terrarium(png_bytes: &[u8]) -> (r: Result<ElevationTile, FetchError>)
    ensures
        match png_decoded(png_bytes@) {
            Err(msg) => r matches Err(e) && e.0@ == msg,
            Ok((w, h, c, px)) => if w < MIN_PNG_SIDE || h < MIN_PNG_SIDE {
                r matches Err(e) && e.0@ == too_small_text(w, h)
            } else if c == PngColour::Rgb || c == PngColour::Rgba {
                r matches Ok(t) && t.wf() && decoded_heights(t@, px, stride_of(c))
            } else {
                r matches Err(e) && e.0@ == unsupported_colour_text(c)
            },
        },
{
    match decode_png(png_bytes) {
        Ok(frame) => terrarium_from_frame(frame),
        Err(m) => Err(FetchError(m)),
    }
}

// ── Tile names ───────────────────────────────────────────────────────────────

/// URL of the AWS Terrarium tile (x, y) at `zoom`.
pub open spec fn elevation_url_text(x: i32, y: i32, zoom: u32) -> Seq<char> {
    "https://s3.amazonaws.com/elevation-tiles-prod/terrarium/"@ + decimal(zoom as nat) + "/"@
        + signed_decimal(x as int) + "/"@ + signed_decimal(y as int) + ".png"@
}

/// File name of the disk-cached elevation tile (x, y) at `zoom`.
pub open spec fn elevation_file_text(x: i32, y: i32, zoom: u32) -> Seq<char> {
    decimal(zoom as nat) + "_"@ + signed_decimal(x as int) + "_"@ + signed_decimal(y as int)
        + ".bin"@
}

/// URL of the AWS Terrarium tile (x, y) at `zoom`.
pub fn elevation_tile_url(x: i32, y: i32, zoom: u32) -> (s: String)
    ensures
        s@ == elevation_url_text(x, y, zoom),
{
    let mut s = String::from_str("https://s3.amazonaws.com/elevation-tiles-prod/terrarium/");
    push_decimal(&mut s, zoom as u64);
    s.append("/");
    push_signed_decimal(&mut s, x as i64);
    s.append("/");
    push_signed_decimal(&mut s, y as i64);
    s.append(".png");
    assert(s@ =~= elevation_url_text(x, y, zoom));
    s
}

/// File name of the disk-cached elevation tile (x, y) at `zoom`.
pub fn elevation_file_name(x: i32, y: i32, zoom: u32) -> (s: String)
    ensures
        s@ == elevation_file_text(x, y, zoom),
{
    let mut s = String::new();
    push_decimal(&mut s, zoom as u64);
    s.append("_");
    push_signed_decimal(&mut s, x as i64);
    s.append("_");
    push_signed_decimal(&mut s, y as i64);
    s.append(".bin");
    assert(s@ =~= elevation_file_text(x, y, zoom));
    s
}

} // verus!
