//! Satellite imagery tiles: 256×256 RGBA8 pixel blocks.

use vstd::prelude::*;
use crate::text::{decimal, push_decimal, push_signed_decimal, signed_decimal};

verus! {

/// Side of an imagery tile in pixels.
pub const TILE_SIDE: u32 = 256;

/// Number of bytes of one RGBA8 imagery tile: 256 * 256 * 4.
pub const TILE_BYTES: usize = 262144;

/// 256×256 RGBA satellite image decoded from one Web-Mercator imagery tile.
/// Row-major: pixel (col, row) starts at byte (row * 256 + col) * 4.
/// Row 0 = north edge, row 255 = south edge.
pub struct ImageryTile {
    /// Raw RGBA8 bytes, exactly 256 * 256 * 4 = 262 144 bytes for a well-formed tile.
    pub rgba: Vec<u8>,
}

impl View for ImageryTile {
    type V = Seq<u8>;

    open spec fn view(&self) -> Seq<u8> {
        self.rgba@
    }
}

/// The byte strings `from_bytes` accepts: exactly one tile's worth.
pub open spec fn imagery_bytes_accepted(b: Seq<u8>) -> bool {
    b.len() == TILE_BYTES
}

/// Every pixel of the RGBA8 bytes `px` has the colour `c`.
pub open spec fn all_colour(px: Seq<u8>, c: Seq<u8>) -> bool {
    &&& c.len() == 4
    &&& px.len() % 4 == 0
    &&& forall|i: int| 0 <= i < px.len() ==> #[trigger] px[i] == c[i % 4]
}

/// The pixels `from_bytes` rebuilds from `b`, or `None` when it refuses them.
pub open spec fn tile_from_bytes(b: Seq<u8>) -> Option<Seq<u8>> {
    if imagery_bytes_accepted(b) {
        Some(b)
    } else {
        None
    }
}

impl ImageryTile {
    /// A tile is well formed when it holds exactly one RGBA8 256×256 image.
    pub open spec fn wf(&self) -> bool {
        self.rgba@.len() == TILE_BYTES
    }

    /// Mid-grey "no data" placeholder used when a fetch fails.
    pub fn blank() -> (t: Self)
        ensures
            t.wf(),
            forall|i: int| 0 <= i < TILE_BYTES ==> #[trigger] t@[i] == 128u8,
    {
        Self { rgba: vec![128u8; TILE_BYTES] }
    }

    /// Borrow as raw bytes for disk persistence.
    pub fn to_bytes(&self) -> (b: &[u8])
        ensures
            b@ == self@,
    {
        self.rgba.as_slice()
    }

    /// Reconstruct from raw bytes saved by `to_bytes`: accepted exactly when
    /// the byte count is that of one tile, and then kept unchanged.
    pub fn from_bytes(bytes: Vec<u8>) -> (r: Option<Self>)
        ensures
            r is Some <==> imagery_bytes_accepted(bytes@),
            r matches Some(t) ==> t@ == bytes@ && t.wf(),
            match r {
                Some(t) => tile_from_bytes(bytes@) == Some(t@),
                None => tile_from_bytes(bytes@) is None,
            },
    {
        if bytes.len() == TILE_BYTES {
            Some(Self { rgba: bytes })
        } else {
            None
        }
    }
}


// ── Decode ───────────────────────────────────────────────────────────────────

/// Error raised while fetching or decoding an imagery tile.
pub struct ImageryFetchError(pub String);

impl ImageryFetchError {
    /// The error's text.
    pub fn message(&self) -> (s: String)
        ensures
            s@ == self.0@,
    {
        self.0.clone()
    }
}

/// What the `image` crate decodes from an encoded image file, converted to
/// RGBA8: width, height and the row-major pixel bytes, or the text of its
/// error.
pub uninterp spec fn image_rgba8(file: Seq<u8>) -> Result<(u32, u32, Seq<u8>), Seq<char>>;

/// Decode an image file with `image::load_from_memory` and convert it with
/// `to_rgba8`.  Claimed: the result is `image_rgba8` of the file, and the
/// pixel buffer of a decoded image holds exactly width × height × 4 bytes
/// (the decoders allocate exactly that, and `to_rgba8` builds a buffer of
/// that size).
#[verifier::external_body]
fn load_rgba8(file: &[u8]) -> (r: Result<(u32, u32, Vec<u8>), String>)
    ensures
        match r {
            Ok((w, h, px)) => image_rgba8(file@) == Ok::<(u32, u32, Seq<u8>), Seq<char>>(
                (w, h, px@),
            ) && px@.len() == w * h * 4,
            Err(m) => image_rgba8(file@) == Err::<(u32, u32, Seq<u8>), Seq<char>>(m@),
        },
{
    let img = image::load_from_memory(file).map_err(|e| e.to_string())?;
    let rgba = img.to_rgba8();
    Ok((rgba.width(), rgba.height(), rgba.into_raw()))
}

/// Resample an RGBA8 image with `image::imageops::resize` and the Lanczos3
/// filter.  Claimed: the result holds nw × nh × 4 bytes, and an image of one
/// colour resamples to that colour, as long as neither side shrinks more
/// than 16-fold.  The source shows why: each output value is a sum of input
/// values times weights that `resize` divides by their own sum, so for one
/// colour c it is c times a sum that is 1 up to float rounding, at most a few
/// hundred terms here, which is far less than the half a unit that the final
/// round to nearest (`FloatNearest`) would need to move it.  The other pixel
/// values are left unsaid: the filter weights come from the platform's
/// `f32::sin`, so they need not be the same on every machine.
#[verifier::external_body]
fn resize_lanczos3(w: u32, h: u32, px: Vec<u8>, nw: u32, nh: u32) -> (out: Vec<u8>)
    requires
        px@.len() == w * h * 4,
    ensures
        out@.len() == nw * nh * 4,
        0 < w <= 16 * nw && 0 < h <= 16 * nh && all_colour(px@, px@.subrange(0, 4))
            ==> all_colour(out@, px@.subrange(0, 4)),
{
    let img: image::RgbaImage = image::ImageBuffer::from_raw(w, h, px).unwrap();
    image::imageops::resize(&img, nw, nh, image::imageops::FilterType::Lanczos3).into_raw()
}

/// Make a tile of a decoded `w`×`h` RGBA8 image: kept as it is when it is
/// 256×256, otherwise resampled to 256×256.
pub fn imagery_from_rgba8(w: u32, h: u32, px: Vec<u8>) -> (t: ImageryTile)
    requires
        px@.len() == w * h * 4,
    ensures
        w == TILE_SIDE && h == TILE_SIDE ==> t@ == px@,
        w <= 16 * TILE_SIDE && h <= 16 * TILE_SIDE && px@.len() >= 4 && all_colour(
            px@,
            px@.subrange(0, 4),
        ) ==> all_colour(t@, px@.subrange(0, 4)),
        t.wf(),
{
    let rgba = if w != TILE_SIDE || h != TILE_SIDE {
        resize_lanczos3(w, h, px, TILE_SIDE, TILE_SIDE)
    } else {
        assert(px@.len() == TILE_BYTES) by (nonlinear_arith)
            requires
                px@.len() == w * h * 4,
                w == TILE_SIDE,
                h == TILE_SIDE,
        ;
        px
    };
    ImageryTile { rgba }
}

/// Decode an encoded imagery tile into 256×256 RGBA8, resampling other sizes.
pub fn decode_imagery_tile(bytes: &[u8]) -> (r: Result<ImageryTile, ImageryFetchError>)
    ensures
        match image_rgba8(bytes@) {
            Err(msg) => r matches Err(e) && e.0@ == msg,
            Ok((w, h, px)) => r matches Ok(t) && t.wf() && (w == TILE_SIDE && h == TILE_SIDE
                ==> t@ == px) && (w <= 16 * TILE_SIDE && h <= 16 * TILE_SIDE && px.len() >= 4
                && all_colour(px, px.subrange(0, 4)) ==> all_colour(t@, px.subrange(0, 4))),
        },
{
    match load_rgba8(bytes) {
        Err(m) => Err(ImageryFetchError(m)),
        Ok((w, h, px)) => Ok(imagery_from_rgba8(w, h, px)),
    }
}

// ── Tile names ───────────────────────────────────────────────────────────────

/// URL of the ESRI World Imagery tile (x, y) at `zoom`; ESRI orders the
/// path as zoom / y / x.
pub open spec fn imagery_url_text(x: i32, y: i32, zoom: u32) -> Seq<char> {
    "https://server.arcgisonline.com/ArcGIS/rest/services/World_Imagery/MapServer/tile/"@
        + decimal(zoom as nat) + "/"@ + signed_decimal(y as int) + "/"@ + signed_decimal(x as int)
}

/// File name of the disk-cached imagery tile (x, y) at `zoom`.
pub open spec fn imagery_file_text(x: i32, y: i32, zoom: u32) -> Seq<char> {
    decimal(zoom as nat) + "_"@ + signed_decimal(x as int) + "_"@ + signed_decimal(y as int)
        + ".rgba"@
}

/// URL of the ESRI World Imagery tile (x, y) at `zoom`.
pub fn imagery_tile_url(x: i32, y: i32, zoom: u32) -> (s: String)
    ensures
        s@ == imagery_url_text(x, y, zoom),
{
    let mut s = String::from_str(
        "https://server.arcgisonline.com/ArcGIS/rest/services/World_Imagery/MapServer/tile/",
    );
    push_decimal(&mut s, zoom as u64);
    s.append("/");
    push_signed_decimal(&mut s, y as i64);
    s.append("/");
    push_signed_decimal(&mut s, x as i64);
    assert(s@ =~= imagery_url_text(x, y, zoom));
    s
}

/// File name of the disk-cached imagery tile (x, y) at `zoom`.
pub fn imagery_file_name(x: i32, y: i32, zoom: u32) -> (s: String)
    ensures
        s@ == imagery_file_text(x, y, zoom),
{
    let mut s = String::new();
    push_decimal(&mut s, zoom as u64);
    s.append("_");
    push_signed_decimal(&mut s, x as i64);
    s.append("_");
    push_signed_decimal(&mut s, y as i64);
    s.append(".rgba");
    assert(s@ =~= imagery_file_text(x, y, zoom));
    s
}

/// A tile survives the disk round trip: `from_bytes` rebuilds from the bytes
/// that `to_bytes` gives of a well-formed tile (its pixels, `t@`) exactly
/// that tile's pixels.
pub proof fn law_imagery_bytes_roundtrip(t: ImageryTile)
    requires
        t.wf(),
    ensures
        tile_from_bytes(t@) == Some(t@),
{
}

} // verus!
