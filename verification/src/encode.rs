//! Preparing source image files as pages: compressed formats (WebP, JPEG, JPEG XL)
//! pass through untouched, everything else is decoded to RGB for re-encoding as WebP.
use vstd::prelude::*;

use crate::format::{riff_tag, webp_tag, ImageFormat};
use crate::jxl::{is_jxl, is_jxl_file, jxl_dimensions, jxl_size};
use crate::pack::EncodedPage;
use vstd::string::StringExecFns;

verus! {

/// What content sniffing says a source file is.
#[derive(Clone, Copy, Debug, PartialEq, Eq, Structural)]
pub enum SourceKind {
    WebP,
    Jpeg,
    Other,
}

/// The sniffing rule of the `image` crate, restricted to the two formats that pass
/// through: a RIFF container of form "WEBP", or the JPEG start-of-image marker.
pub open spec fn source_kind_of(raw: Seq<u8>) -> SourceKind {
    if raw.len() >= 12 && raw.subrange(0, 4) == riff_tag() && raw.subrange(8, 12) == webp_tag() {
        SourceKind::WebP
    } else if raw.len() >= 3 && raw.subrange(0, 3) == seq![0xffu8, 0xd8u8, 0xffu8] {
        SourceKind::Jpeg
    } else {
        SourceKind::Other
    }
}

/// What the `image` crate's decoder for JPEG (`jpeg`) or WebP, chosen explicitly,
/// reads from the header of `raw`: width and height, or the text of its error.
pub uninterp spec fn decoded_dimensions(raw: Seq<u8>, jpeg: bool) -> Result<(u32, u32), Seq<char>>;

/// Calls `image::guess_format`, which compares the start of the bytes against a
/// table of magic numbers and fails only where no row matches. The WebP row (a RIFF
/// header of form "WEBP") and the JPEG row (the start-of-image marker) are those of
/// `source_kind_of`; the other rows (PNG, GIF, TIFF, ...) begin with other bytes, so
/// every other outcome, failure included, is `Other`.
#[verifier::external_body]
fn sniff_kind(raw: &[u8]) -> (r: SourceKind)
    ensures
        r == source_kind_of(raw@),
{
    match image::guess_format(raw) {
        Ok(image::ImageFormat::WebP) => SourceKind::WebP,
        Ok(image::ImageFormat::Jpeg) => SourceKind::Jpeg,
        _ => SourceKind::Other,
    }
}

/// Calls `image::ImageReader::with_format` (JPEG if `jpeg`, else WebP; no format
/// hooks are consulted for a format given this way) and `into_dimensions`, and
/// returns the width and height or the error's text, as `decoded_dimensions` names
/// them. The JPEG decoder adds the lengths of extended-XMP segments in a `u32` (and
/// would overflow past `u32::MAX` bytes of them), so JPEG input is limited to
/// `u32::MAX` bytes.
#[verifier::external_body]
fn read_dimensions(raw: &[u8], jpeg: bool) -> (r: Result<(u32, u32), String>)
    requires
        jpeg ==> raw@.len() <= u32::MAX,
    ensures
        match r {
            Ok(d) => decoded_dimensions(raw@, jpeg) == Ok::<(u32, u32), Seq<char>>(d),
            Err(e) => decoded_dimensions(raw@, jpeg) == Err::<(u32, u32), Seq<char>>(e@),
        },
{
    let format = if jpeg {
        image::ImageFormat::Jpeg
    } else {
        image::ImageFormat::WebP
    };
    let reader = image::ImageReader::with_format(std::io::Cursor::new(raw), format);
    reader.into_dimensions().map_err(|e| e.to_string())
}

/// Calls `image::load_from_memory`, then reads width, height and the RGB8 pixel
/// buffer (`to_rgb8().into_raw()`); an error is returned as its text. Which outcome
/// comes is not claimed: `load_from_memory` consults the crate's process-wide
/// format-detection and decoding hooks, so it is not a function of `raw`. Of every
/// image it is claimed that the buffer holds at least 3 bytes per pixel: an
/// `ImageBuffer` is only ever made with at least width x height x channels values.
/// The built-in decoders give exactly that many; a decoder installed through a hook
/// may report a larger `total_bytes`, and the longer buffer is then kept, so no more
/// than the lower bound is claimed.
#[verifier::external_body]
fn decode_rgb8(raw: &[u8]) -> (r: Result<(u32, u32, Vec<u8>), String>)
    ensures
        r matches Ok((w, h, px)) ==> px@.len() >= 3 * w * h,
{
    let img = image::load_from_memory(raw).map_err(|e| e.to_string())?;
    Ok((img.width(), img.height(), img.to_rgb8().into_raw()))
}

/// A source file made ready for packing.
pub enum PreparedPage {
    /// Already compressed: stored byte for byte.
    Ready(EncodedPage),
    /// Decoded pixels that still have to be encoded as WebP.
    NeedsWebp { rgb: Vec<u8>, width: u32, height: u32 },
}

/// `p` is the page that stores `raw` unchanged as `format`, `w x h` (truncated to `u16`).
pub open spec fn is_ready_page(p: PreparedPage, raw: Seq<u8>, w: int, h: int, format: ImageFormat) -> bool {
    match p {
        PreparedPage::Ready(page) => {
            &&& page.data@ == raw
            &&& page.width == w as u16
            &&& page.height == h as u16
            &&& page.format == format
        },
        _ => false,
    }
}

/// The bytes that dimensions are read from: all of `raw`, but for JPEG at most the
/// first `u32::MAX` bytes (the decoder's limit; the header lies at the start).
pub open spec fn dimension_input(raw: Seq<u8>, jpeg: bool) -> Seq<u8> {
    if jpeg && raw.len() > u32::MAX {
        raw.take(u32::MAX as int)
    } else {
        raw
    }
}

/// `r` is what preparing `raw` as WebP or JPEG gives: the page as it is, with the
/// dimensions the decoder reads, or the decoder's error text.
pub open spec fn passthrough_result(
    r: Result<PreparedPage, String>,
    raw: Seq<u8>,
    kind: SourceKind,
) -> bool {
    let jpeg = kind == SourceKind::Jpeg;
    let format = if jpeg {
        ImageFormat::Jpeg
    } else {
        ImageFormat::WebP
    };
    match decoded_dimensions(dimension_input(raw, jpeg), jpeg) {
        Ok((w, h)) => r matches Ok(p) && is_ready_page(p, raw, w as int, h as int, format),
        Err(msg) => r matches Err(e) && e@ == msg,
    }
}

/// Turns what the decoder gave for a file to be re-encoded into the prepared page:
/// the pixels as they are, or the decoder's error unchanged.
pub fn prepare_decoded(decoded: Result<(u32, u32, Vec<u8>), String>) -> (r: Result<
    PreparedPage,
    String,
>)
    ensures
        match decoded {
            Ok((w, h, px)) => r matches Ok(PreparedPage::NeedsWebp { rgb, width, height }) && rgb@
                == px@ && width == w && height == h,
            Err(e) => r matches Err(e2) && e2@ == e@,
        },
{
    match decoded {
        Ok((width, height, rgb)) => Ok(PreparedPage::NeedsWebp { rgb, width, height }),
        Err(e) => Err(e),
    }
}

/// Prepares `raw`, already sniffed as `kind`: WebP and JPEG pass through with the
/// dimensions their header gives (truncated to `u16`); anything else is decoded to RGB8.
pub fn prepare_as(raw: Vec<u8>, kind: SourceKind) -> (r: Result<PreparedPage, String>)
    ensures
        kind != SourceKind::Other ==> passthrough_result(r, raw@, kind),
        kind == SourceKind::Other ==> (r matches Ok(p) ==> p is NeedsWebp),
        r matches Ok(PreparedPage::NeedsWebp { rgb, width, height }) ==> rgb@.len() >= 3 * width
            * height,
{
    match kind {
        SourceKind::Other => prepare_decoded(decode_rgb8(raw.as_slice())),
        _ => {
            let jpeg = match kind {
                SourceKind::Jpeg => true,
                _ => false,
            };
            let input: &[u8] = if jpeg && raw.len() > 0xffff_ffff {
                &raw.as_slice()[0..0xffff_ffff]
            } else {
                raw.as_slice()
            };
            assert(input@ == dimension_input(raw@, jpeg));
            match read_dimensions(input, jpeg) {
                Ok((w, h)) => {
                    let format = if jpeg {
                        ImageFormat::Jpeg
                    } else {
                        ImageFormat::WebP
                    };
                    Ok(
                        PreparedPage::Ready(
                            EncodedPage { data: raw, width: w as u16, height: h as u16, format },
                        ),
                    )
                },
                Err(e) => Err(e),
            }
        },
    }
}

/// The error text for a JPEG XL file whose size header cannot be read.
pub open spec fn bad_jxl_message() -> Seq<char> {
    "invalid JPEG XL header"@
}

/// Prepares the bytes of a source image file. JPEG XL (bare codestream or container)
/// passes through unchanged, with the dimensions of its size header; otherwise the
/// format is sniffed and the file prepared as `prepare_as` does.
pub fn prepare_page(raw: Vec<u8>) -> (r: Result<PreparedPage, String>)
    ensures
        is_jxl(raw@) ==> match jxl_size(raw@) {
            Some((w, h)) => r matches Ok(p) && is_ready_page(
                p,
                raw@,
                w as int,
                h as int,
                ImageFormat::Jxl,
            ),
            None => r matches Err(e) && e@ == bad_jxl_message(),
        },
        !is_jxl(raw@) && source_kind_of(raw@) != SourceKind::Other ==> passthrough_result(
            r,
            raw@,
            source_kind_of(raw@),
        ),
        !is_jxl(raw@) && source_kind_of(raw@) == SourceKind::Other ==> (r matches Ok(p)
            ==> p is NeedsWebp),
        r matches Ok(PreparedPage::NeedsWebp { rgb, width, height }) ==> rgb@.len() >= 3 * width
            * height,
{
    if is_jxl_file(raw.as_slice()) {
        return match jxl_dimensions(raw.as_slice()) {
            Some((w, h)) => Ok(
                PreparedPage::Ready(
                    EncodedPage {
                        data: raw,
                        width: w as u16,
                        height: h as u16,
                        format: ImageFormat::Jxl,
                    },
                ),
            ),
            None => {
                proof {
                    reveal_strlit("invalid JPEG XL header");
                }
                Err(String::from_str("invalid JPEG XL header"))
            },
        };
    }
    let kind = sniff_kind(raw.as_slice());
    prepare_as(raw, kind)
}

impl EncodedPage {
    /// The page made of freshly encoded WebP bytes for an image of `width x height`
    /// (dimensions truncated to `u16`).
    pub fn from_webp(data: Vec<u8>, width: u32, height: u32) -> (r: EncodedPage)
        ensures
            r.data@ == data@,
            r.width == width as u16,
            r.height == height as u16,
            r.format == ImageFormat::WebP,
    {
        EncodedPage { data, width: width as u16, height: height as u16, format: ImageFormat::WebP }
    }
}

/// File extensions (without the dot) of the source images that a directory pack takes.
pub open spec fn is_image_extension_spec(ext: Seq<u8>) -> bool {
    ||| ext == seq![0x70u8, 0x6eu8, 0x67u8]
    ||| ext == seq![0x6au8, 0x70u8, 0x67u8]
    ||| ext == seq![0x6au8, 0x70u8, 0x65u8, 0x67u8]
    ||| ext == seq![0x77u8, 0x65u8, 0x62u8, 0x70u8]
    ||| ext == seq![0x6au8, 0x78u8, 0x6cu8]
    ||| ext == seq![0x62u8, 0x6du8, 0x70u8]
    ||| ext == seq![0x74u8, 0x69u8, 0x66u8, 0x66u8]
}

/// Bytes read as characters, one per byte.
pub open spec fn as_chars(b: Seq<u8>) -> Seq<char> {
    b.map_values(|x: u8| x as char)
}

proof fn lemma_byte_char_injective(x: u8, y: u8)
    requires
        x as char == y as char,
    ensures
        x == y,
{
    assert(x as char as int == x as int);
    assert(y as char as int == y as int);
}

proof fn lemma_as_chars_injective(a: Seq<u8>, b: Seq<u8>)
    requires
        as_chars(a) == as_chars(b),
    ensures
        a == b,
{
    assert(a.len() == as_chars(a).len());
    assert(b.len() == as_chars(b).len());
    assert forall|i: int| 0 <= i < a.len() implies a[i] == b[i] by {
        assert(as_chars(a)[i] == a[i] as char);
        assert(as_chars(b)[i] == b[i] as char);
        lemma_byte_char_injective(a[i], b[i]);
    }
    assert(a =~= b);
}

/// The extensions taken are exactly seven, compared byte for byte: `png`, `jpg`,
/// `jpeg`, `webp`, `jxl`, `bmp` and `tiff`; anything else (`xml`, `txt`, `gif`, an
/// upper-case spelling, ...) is not an image source.
pub proof fn lemma_image_extensions(ext: Seq<u8>)
    ensures
        is_image_extension_spec(ext) <==> {
            let t = as_chars(ext);
            ||| t == "png"@
            ||| t == "jpg"@
            ||| t == "jpeg"@
            ||| t == "webp"@
            ||| t == "jxl"@
            ||| t == "bmp"@
            ||| t == "tiff"@
        },
{
    reveal_strlit("png");
    reveal_strlit("jpg");
    reveal_strlit("jpeg");
    reveal_strlit("webp");
    reveal_strlit("jxl");
    reveal_strlit("bmp");
    reveal_strlit("tiff");
    let t = as_chars(ext);
    if ext == seq![0x70u8, 0x6eu8, 0x67u8] {
        assert(t =~= "png"@);
    }
    if ext == seq![0x6au8, 0x70u8, 0x67u8] {
        assert(t =~= "jpg"@);
    }
    if ext == seq![0x6au8, 0x70u8, 0x65u8, 0x67u8] {
        assert(t =~= "jpeg"@);
    }
    if ext == seq![0x77u8, 0x65u8, 0x62u8, 0x70u8] {
        assert(t =~= "webp"@);
    }
    if ext == seq![0x6au8, 0x78u8, 0x6cu8] {
        assert(t =~= "jxl"@);
    }
    if ext == seq![0x62u8, 0x6du8, 0x70u8] {
        assert(t =~= "bmp"@);
    }
    if ext == seq![0x74u8, 0x69u8, 0x66u8, 0x66u8] {
        assert(t =~= "tiff"@);
    }
    if t == "png"@ {
        assert(as_chars(seq![0x70u8, 0x6eu8, 0x67u8]) =~= "png"@);
        lemma_as_chars_injective(ext, seq![0x70u8, 0x6eu8, 0x67u8]);
    }
    if t == "jpg"@ {
        assert(as_chars(seq![0x6au8, 0x70u8, 0x67u8]) =~= "jpg"@);
        lemma_as_chars_injective(ext, seq![0x6au8, 0x70u8, 0x67u8]);
    }
    if t == "jpeg"@ {
        assert(as_chars(seq![0x6au8, 0x70u8, 0x65u8, 0x67u8]) =~= "jpeg"@);
        lemma_as_chars_injective(ext, seq![0x6au8, 0x70u8, 0x65u8, 0x67u8]);
    }
    if t == "webp"@ {
        assert(as_chars(seq![0x77u8, 0x65u8, 0x62u8, 0x70u8]) =~= "webp"@);
        lemma_as_chars_injective(ext, seq![0x77u8, 0x65u8, 0x62u8, 0x70u8]);
    }
    if t == "jxl"@ {
        assert(as_chars(seq![0x6au8, 0x78u8, 0x6cu8]) =~= "jxl"@);
        lemma_as_chars_injective(ext, seq![0x6au8, 0x78u8, 0x6cu8]);
    }
    if t == "bmp"@ {
        assert(as_chars(seq![0x62u8, 0x6du8, 0x70u8]) =~= "bmp"@);
        lemma_as_chars_injective(ext, seq![0x62u8, 0x6du8, 0x70u8]);
    }
    if t == "tiff"@ {
        assert(as_chars(seq![0x74u8, 0x69u8, 0x66u8, 0x66u8]) =~= "tiff"@);
        lemma_as_chars_injective(ext, seq![0x74u8, 0x69u8, 0x66u8, 0x66u8]);
    }
}

/// Whether `ext` equals the bytes `want`.
pub(crate) fn bytes_eq(ext: &[u8], want: &[u8]) -> (r: bool)
    ensures
        r == (ext@ == want@),
{
    if ext.len() != want.len() {
        return false;
    }
    let mut i: usize = 0;
    while i < ext.len()
        invariant
            ext@.len() == want@.len(),
            i <= ext@.len(),
            ext@.take(i as int) == want@.take(i as int),
        decreases ext@.len() - i,
    {
        if ext[i] != want[i] {
            assert(ext@[i as int] != want@[i as int]);
            return false;
        }
        assert(ext@.take(i + 1) =~= ext@.take(i as int).push(ext@[i as int]));
        assert(want@.take(i + 1) =~= want@.take(i as int).push(want@[i as int]));
        i = i + 1;
    }
    assert(ext@ =~= ext@.take(i as int));
    assert(want@ =~= want@.take(i as int));
    true
}

/// Whether a file with extension `ext` (case-sensitive: png, jpg, jpeg, webp, jxl,
/// bmp, tiff) is taken as a page source.
pub fn is_image_extension(ext: &[u8]) -> (r: bool)
    ensures
        r == is_image_extension_spec(ext@),
{
    let png: [u8; 3] = [0x70, 0x6e, 0x67];
    let jpg: [u8; 3] = [0x6a, 0x70, 0x67];
    let jpeg: [u8; 4] = [0x6a, 0x70, 0x65, 0x67];
    let webp: [u8; 4] = [0x77, 0x65, 0x62, 0x70];
    let jxl: [u8; 3] = [0x6a, 0x78, 0x6c];
    let bmp: [u8; 3] = [0x62, 0x6d, 0x70];
    let tiff: [u8; 4] = [0x74, 0x69, 0x66, 0x66];
    assert(png@ =~= seq![0x70u8, 0x6eu8, 0x67u8]);
    assert(jpg@ =~= seq![0x6au8, 0x70u8, 0x67u8]);
    assert(jpeg@ =~= seq![0x6au8, 0x70u8, 0x65u8, 0x67u8]);
    assert(webp@ =~= seq![0x77u8, 0x65u8, 0x62u8, 0x70u8]);
    assert(jxl@ =~= seq![0x6au8, 0x78u8, 0x6cu8]);
    assert(bmp@ =~= seq![0x62u8, 0x6du8, 0x70u8]);
    assert(tiff@ =~= seq![0x74u8, 0x69u8, 0x66u8, 0x66u8]);
    bytes_eq(ext, png.as_slice()) || bytes_eq(ext, jpg.as_slice()) || bytes_eq(ext, jpeg.as_slice())
        || bytes_eq(ext, webp.as_slice()) || bytes_eq(ext, jxl.as_slice()) || bytes_eq(
        ext,
        bmp.as_slice(),
    ) || bytes_eq(ext, tiff.as_slice())
}

} // verus!
