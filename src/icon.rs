//! An executable's icon as a PNG data URL: pixel order conversion, the
//! checks on the bitmap, and the encodings.
use vstd::prelude::*;
use vstd::string::*;

verus! {

/// The byte at `i` of `b` after swapping the first and third byte of
/// every four (blue and red of each pixel).
pub open spec fn swapped_at(b: Seq<u8>, i: int) -> u8 {
    if i % 4 == 0 && i + 2 < b.len() {
        b[i + 2]
    } else if i % 4 == 2 {
        b[i - 2]
    } else {
        b[i]
    }
}

/// Turns BGRA pixels into RGBA in place.
pub fn bgra_to_rgba(pixels: &mut Vec<u8>)
    requires
        old(pixels)@.len() % 4 != 1,
        old(pixels)@.len() % 4 != 2,
    ensures
        final(pixels)@.len() == old(pixels)@.len(),
        forall|i: int|
            0 <= i < old(pixels)@.len() ==> #[trigger] final(pixels)@[i] == swapped_at(old(pixels)@, i),
{
    let n = pixels.len();
    let ghost orig = pixels@;
    let mut k: usize = 0;
    while k < n && n - k > 2
        invariant
            n == orig.len(),
            n % 4 != 1 && n % 4 != 2,
            pixels@.len() == n,
            k % 4 == 0 || k == n,
            k <= n,
            forall|i: int| 0 <= i < k ==> #[trigger] pixels@[i] == swapped_at(orig, i),
            forall|i: int| k <= i < n ==> #[trigger] pixels@[i] == orig[i],
        decreases n - k,
    {
        let b = pixels[k];
        let r = pixels[k + 2];
        pixels.set(k, r);
        pixels.set(k + 2, b);
        if n - k >= 4 {
            k = k + 4;
        } else {
            k = n;
        }
    }
    assert forall|i: int| k <= i < n implies #[trigger] pixels@[i] == swapped_at(orig, i) by {
        assert(!(i % 4 == 0 && i + 2 < n));
        assert(i % 4 != 2);
    }
}

/// The PNG file that encodes an RGBA image, as the `image` crate writes
/// it; none when the encoder refuses the image.
pub uninterp spec fn png_of(width: u32, height: u32, rgba: Seq<u8>) -> Option<Seq<u8>>;

/// Relies on `image::write_buffer_with_format` with PNG and 8-bit RGBA:
/// the encoded file, or the encoder's error. Writing into memory cannot
/// fail, so which of the two comes depends on the arguments alone. It
/// panics unless the buffer holds exactly four bytes per pixel.
#[verifier::external_body]
fn encode_png(width: u32, height: u32, rgba: &Vec<u8>) -> (r: Result<Vec<u8>, String>)
    requires
        rgba@.len() == width as int * height as int * 4,
    ensures
        match png_of(width, height, rgba@) {
            Some(b) => r matches Ok(x) && x@ == b,
            None => r is Err,
        },
{
    let mut out: Vec<u8> = Vec::new();
    let mut cursor = std::io::Cursor::new(&mut out);
    let color = image::ExtendedColorType::Rgba8;
    match image::write_buffer_with_format(&mut cursor, rgba, width, height, color, image::ImageFormat::Png) {
        Ok(()) => Ok(out),
        Err(e) => Err(e.to_string()),
    }
}

/// The standard, padded base64 text of some bytes.
pub uninterp spec fn base64_of(b: Seq<u8>) -> Seq<char>;

/// Relies on `base64::Engine::encode` with the STANDARD engine: padded
/// base64, four characters for every three bytes or part of three. It
/// panics when that length overflows.
#[verifier::external_body]
fn to_base64(b: &Vec<u8>) -> (r: String)
    requires
        b@.len() <= usize::MAX / 2,
    ensures
        r@ == base64_of(b@),
        r@.len() == 4 * ((b@.len() + 2) / 3),
{
    base64::Engine::encode(&base64::engine::general_purpose::STANDARD, b)
}

/// A PNG file as a `data:` URL.
pub fn png_data_url(png: &Vec<u8>) -> (r: String)
    requires
        png@.len() <= usize::MAX / 2,
    ensures
        r@ == "data:image/png;base64,"@ + base64_of(png@),
{
    let b64 = to_base64(png);
    let prefix = String::from_str("data:image/png;base64,");
    prefix.concat(b64.as_str())
}

/// The RGBA pixels of a `width` x `height` image read from BGRA bytes.
pub open spec fn rgba_image(width: u32, height: u32, bgra: Seq<u8>) -> Seq<u8> {
    let n = width as int * height as int * 4;
    Seq::new(n as nat, |i: int| swapped_at(bgra.subrange(0, n), i))
}

/// What went wrong turning a bitmap into a data URL.
pub open spec fn icon_failure(width: u32, height: u32, len: nat) -> Option<Seq<char>> {
    if width == 0 || height == 0 {
        Some("Invalid icon dimensions"@)
    } else if len < width as int * height as int * 4 {
        Some("Failed to create image"@)
    } else {
        None
    }
}

/// The data URL of a `width` x `height` bitmap given as BGRA rows, top row
/// first. Fails on an empty size or a buffer too short for it; a longer
/// buffer is cut to the image's size. What the encoders make of the pixels
/// is `png_of` and `base64_of`; a PNG too long to encode as base64 is
/// an error of its own.
pub fn icon_data_url(width: u32, height: u32, bgra: Vec<u8>) -> (r: Result<String, String>)
    ensures
        match icon_failure(width, height, bgra@.len()) {
            Some(m) => r matches Err(e) && e@ == m,
            None => match png_of(width, height, rgba_image(width, height, bgra@)) {
                Some(b) => if b.len() <= usize::MAX / 2 {
                    r matches Ok(u) && u@ == "data:image/png;base64,"@ + base64_of(b)
                } else {
                    r matches Err(e) && e@ == "PNG too large"@
                },
                None => r matches Err(e) && exists|m: Seq<char>| e@ == "Failed to encode PNG: "@ + m,
            },
        },
{
    if width == 0 || height == 0 {
        return Err(String::from_str("Invalid icon dimensions"));
    }
    assert(width as u64 * height as u64 <= u64::MAX) by (nonlinear_arith)
        requires
            width <= u32::MAX,
            height <= u32::MAX,
    ;
    let area: u64 = width as u64 * height as u64;
    let len: usize = bgra.len();
    if area > (usize::MAX / 4) as u64 {
        assert(len < width as int * height as int * 4) by (nonlinear_arith)
            requires
                area == width as int * height as int,
                area > usize::MAX / 4,
                len <= usize::MAX,
        ;
        return Err(String::from_str("Failed to create image"));
    }
    let need: usize = (area * 4) as usize;
    if bgra.len() < need {
        return Err(String::from_str("Failed to create image"));
    }
    let mut px = bgra;
    px.truncate(need);
    let ghost cut = px@;
    assert(cut == bgra@.subrange(0, need as int));
    assert(need as int == width as int * height as int * 4) by (nonlinear_arith)
        requires
            area == width as int * height as int,
            need == area * 4,
    ;
    bgra_to_rgba(&mut px);
    assert(px@ =~= rgba_image(width, height, bgra@));
    match encode_png(width, height, &px) {
        Ok(png) => {
            if png.len() > usize::MAX / 2 {
                return Err(String::from_str("PNG too large"));
            }
            Ok(png_data_url(&png))
        },
        Err(e) => {
            let p = String::from_str("Failed to encode PNG: ");
            let m = p.concat(e.as_str());
            assert(m@ == "Failed to encode PNG: "@ + e@);
            Err(m)
        },
    }
}

} // verus!
