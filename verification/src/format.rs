//! The MCZ container: byte layout, index records, reading and slicing.
//!
//! Layout (all integers little endian):
//!
//! ```text
//! [optional cover prefix, COVER_PREFIX bytes: RIFF/WEBP + VP8L chunk + MCZd chunk header]
//! header:  magic "MCZF" | version u8 | reserved u8 | page_count u16
//! index:   page_count entries of
//!          offset u32 | size u32 | width u16 | height u16 | format u8 | 3 reserved bytes
//! data:    the pages' encoded bytes, back to back
//! ```
//!
//! Offsets in index entries are absolute positions in the whole file.
use vstd::prelude::*;

verus! {

/// Size of the fixed MCZ header.
pub const HEADER_SIZE: usize = 8;

/// Size of one index entry.
pub const INDEX_ENTRY_SIZE: usize = 16;

/// The container version this library writes and reads.
pub const VERSION: u8 = 1;

/// Bytes in front of the MCZ header when the archive carries a WebP cover:
/// RIFF header (12) + VP8L chunk (8 + 17 + 1 pad) + MCZd chunk header (8).
pub const COVER_PREFIX: usize = 46;

/// Offset of the MCZd chunk tag inside the cover prefix.
pub const MCZD_TAG_OFFSET: usize = 38;

/// Encoding of a stored page.
#[derive(Clone, Copy, Debug, PartialEq, Eq, Structural)]
pub enum ImageFormat {
    WebP,
    Jpeg,
    Jxl,
}

/// The byte that stands for a format in an index entry.
pub open spec fn format_code(f: ImageFormat) -> u8 {
    match f {
        ImageFormat::WebP => 0,
        ImageFormat::Jpeg => 1,
        ImageFormat::Jxl => 2,
    }
}

/// The format that an index byte stands for, if any.
pub open spec fn format_of_code(b: u8) -> Option<ImageFormat> {
    if b == 0 {
        Some(ImageFormat::WebP)
    } else if b == 1 {
        Some(ImageFormat::Jpeg)
    } else if b == 2 {
        Some(ImageFormat::Jxl)
    } else {
        None
    }
}

impl ImageFormat {
    /// The index byte of this format.
    pub fn code(&self) -> (r: u8)
        ensures
            r == format_code(*self),
    {
        match self {
            ImageFormat::WebP => 0,
            ImageFormat::Jpeg => 1,
            ImageFormat::Jxl => 2,
        }
    }

    /// The format that an index byte stands for.
    pub fn from_code(b: u8) -> (r: Option<ImageFormat>)
        ensures
            r == format_of_code(b),
    {
        if b == 0 {
            Some(ImageFormat::WebP)
        } else if b == 1 {
            Some(ImageFormat::Jpeg)
        } else if b == 2 {
            Some(ImageFormat::Jxl)
        } else {
            None
        }
    }

    /// File extension used when a page of this format is written out.
    pub fn extension(&self) -> (r: &'static str)
        ensures
            r@ == format_extension(*self),
    {
        match self {
            ImageFormat::WebP => {
                proof {
                    reveal_strlit("webp");
                }
                "webp"
            },
            ImageFormat::Jpeg => {
                proof {
                    reveal_strlit("jpg");
                }
                "jpg"
            },
            ImageFormat::Jxl => {
                proof {
                    reveal_strlit("jxl");
                }
                "jxl"
            },
        }
    }

    /// Short human-readable name of the format.
    pub fn name(&self) -> (r: &'static str)
        ensures
            r@ == format_name(*self),
    {
        match self {
            ImageFormat::WebP => {
                proof {
                    reveal_strlit("webp");
                }
                "webp"
            },
            ImageFormat::Jpeg => {
                proof {
                    reveal_strlit("jpeg");
                }
                "jpeg"
            },
            ImageFormat::Jxl => {
                proof {
                    reveal_strlit("jxl");
                }
                "jxl"
            },
        }
    }
}

/// Extension (without the dot) of a page file of format `f`.
pub open spec fn format_extension(f: ImageFormat) -> Seq<char> {
    match f {
        ImageFormat::WebP => seq!['w', 'e', 'b', 'p'],
        ImageFormat::Jpeg => seq!['j', 'p', 'g'],
        ImageFormat::Jxl => seq!['j', 'x', 'l'],
    }
}

/// Display name of format `f`.
pub open spec fn format_name(f: ImageFormat) -> Seq<char> {
    match f {
        ImageFormat::WebP => seq!['w', 'e', 'b', 'p'],
        ImageFormat::Jpeg => seq!['j', 'p', 'e', 'g'],
        ImageFormat::Jxl => seq!['j', 'x', 'l'],
    }
}

/// The display names of the formats, as descriptions of an archive print them:
/// `webp`, `jpeg` and `jxl`; distinct formats have distinct names.
pub proof fn lemma_format_names()
    ensures
        format_name(ImageFormat::WebP) == "webp"@,
        format_name(ImageFormat::Jpeg) == "jpeg"@,
        format_name(ImageFormat::Jxl) == "jxl"@,
        forall|f: ImageFormat, g: ImageFormat|
            #[trigger] format_name(f) == #[trigger] format_name(g) ==> f == g,
{
    reveal_strlit("webp");
    reveal_strlit("jpeg");
    reveal_strlit("jxl");
    assert(format_name(ImageFormat::WebP) =~= "webp"@);
    assert(format_name(ImageFormat::Jpeg) =~= "jpeg"@);
    assert(format_name(ImageFormat::Jxl) =~= "jxl"@);
    assert forall|f: ImageFormat, g: ImageFormat|
        #[trigger] format_name(f) == #[trigger] format_name(g) implies f == g by {
        if f != g {
            assert(format_name(f).len() != format_name(g).len() || format_name(f)[0]
                != format_name(g)[0]);
        }
    }
}

/// The extensions of unpacked page files: `webp`, `jpg` and `jxl`; distinct formats
/// have distinct extensions.
pub proof fn lemma_format_extensions()
    ensures
        format_extension(ImageFormat::WebP) == "webp"@,
        format_extension(ImageFormat::Jpeg) == "jpg"@,
        format_extension(ImageFormat::Jxl) == "jxl"@,
        forall|f: ImageFormat, g: ImageFormat|
            #[trigger] format_extension(f) == #[trigger] format_extension(g) ==> f == g,
{
    reveal_strlit("webp");
    reveal_strlit("jpg");
    reveal_strlit("jxl");
    assert(format_extension(ImageFormat::WebP) =~= "webp"@);
    assert(format_extension(ImageFormat::Jpeg) =~= "jpg"@);
    assert(format_extension(ImageFormat::Jxl) =~= "jxl"@);
    assert forall|f: ImageFormat, g: ImageFormat|
        #[trigger] format_extension(f) == #[trigger] format_extension(g) implies f == g by {
        if f != g {
            assert(format_extension(f)[1] != format_extension(g)[1] || format_extension(f).len()
                != format_extension(g).len());
        }
    }
}

/// One index entry: where a page lies and what it is.
#[derive(Clone, Copy, Debug, PartialEq, Eq, Structural)]
pub struct PageInfo {
    pub index: u16,
    pub offset: u32,
    pub size: u32,
    pub width: u16,
    pub height: u16,
    pub format: ImageFormat,
}

/// The parsed index of an archive.
#[derive(Clone, Debug)]
pub struct MCZIndex {
    pub version: u8,
    pub pages: Vec<PageInfo>,
}

impl MCZIndex {
    /// Size of the header plus index for `page_count` pages, i.e. the offset of
    /// the first data byte in an archive without cover.
    pub fn data_offset(page_count: u16) -> (r: usize)
        ensures
            r == HEADER_SIZE + page_count * INDEX_ENTRY_SIZE,
    {
        HEADER_SIZE + (page_count as usize) * INDEX_ENTRY_SIZE
    }
}

// ---------------------------------------------------------------------------
// Little-endian integers
// ---------------------------------------------------------------------------

/// Little-endian bytes of a `u16`.
pub open spec fn u16_le_bytes(x: u16) -> Seq<u8> {
    seq![(x & 0xff) as u8, ((x >> 8) & 0xff) as u8]
}

/// Little-endian bytes of a `u32`.
pub open spec fn u32_le_bytes(x: u32) -> Seq<u8> {
    seq![
        (x & 0xff) as u8,
        ((x >> 8) & 0xff) as u8,
        ((x >> 16) & 0xff) as u8,
        ((x >> 24) & 0xff) as u8,
    ]
}

/// The `u16` stored little endian at position `i` of `s`.
pub open spec fn u16_at(s: Seq<u8>, i: int) -> u16 {
    (s[i] as u16) | ((s[i + 1] as u16) << 8)
}

/// The `u32` stored little endian at position `i` of `s`.
pub open spec fn u32_at(s: Seq<u8>, i: int) -> u32 {
    (s[i] as u32) | ((s[i + 1] as u32) << 8) | ((s[i + 2] as u32) << 16) | ((s[i + 3] as u32) << 24)
}

proof fn lemma_u16_bytes(x: u16)
    ensures
        (((x & 0xff) as u8) as u16) | ((((x >> 8) & 0xff) as u8) as u16) << 8 == x,
{
    assert((((x & 0xff) as u8) as u16) | ((((x >> 8) & 0xff) as u8) as u16) << 8 == x)
        by (bit_vector);
}

proof fn lemma_u32_bytes(x: u32)
    ensures
        (((x & 0xff) as u8) as u32) | ((((x >> 8) & 0xff) as u8) as u32) << 8 | ((((x >> 16)
            & 0xff) as u8) as u32) << 16 | ((((x >> 24) & 0xff) as u8) as u32) << 24 == x,
{
    assert((((x & 0xff) as u8) as u32) | ((((x >> 8) & 0xff) as u8) as u32) << 8 | ((((x >> 16)
        & 0xff) as u8) as u32) << 16 | ((((x >> 24) & 0xff) as u8) as u32) << 24 == x)
        by (bit_vector);
}

/// Reading back the bytes of a `u16` gives the `u16`, wherever they stand.
pub proof fn lemma_u16_roundtrip(a: Seq<u8>, x: u16, b: Seq<u8>)
    ensures
        u16_at(a + u16_le_bytes(x) + b, a.len() as int) == x,
{
    let s = a + u16_le_bytes(x) + b;
    assert(s[a.len() as int] == (x & 0xff) as u8);
    assert(s[a.len() as int + 1] == ((x >> 8) & 0xff) as u8);
    lemma_u16_bytes(x);
}

/// Reading back the bytes of a `u32` gives the `u32`, wherever they stand.
pub proof fn lemma_u32_roundtrip(a: Seq<u8>, x: u32, b: Seq<u8>)
    ensures
        u32_at(a + u32_le_bytes(x) + b, a.len() as int) == x,
{
    let s = a + u32_le_bytes(x) + b;
    assert(s[a.len() as int] == (x & 0xff) as u8);
    assert(s[a.len() as int + 1] == ((x >> 8) & 0xff) as u8);
    assert(s[a.len() as int + 2] == ((x >> 16) & 0xff) as u8);
    assert(s[a.len() as int + 3] == ((x >> 24) & 0xff) as u8);
    lemma_u32_bytes(x);
}

/// Appends the little-endian bytes of `x`.
pub fn push_u16_le(out: &mut Vec<u8>, x: u16)
    ensures
        final(out)@ == old(out)@ + u16_le_bytes(x),
{
    out.push((x & 0xff) as u8);
    out.push(((x >> 8) & 0xff) as u8);
}

/// Appends the little-endian bytes of `x`.
pub fn push_u32_le(out: &mut Vec<u8>, x: u32)
    ensures
        final(out)@ == old(out)@ + u32_le_bytes(x),
{
    out.push((x & 0xff) as u8);
    out.push(((x >> 8) & 0xff) as u8);
    out.push(((x >> 16) & 0xff) as u8);
    out.push(((x >> 24) & 0xff) as u8);
}

/// Reads the little-endian `u16` at position `i`.
pub fn read_u16_le(data: &[u8], i: usize) -> (r: u16)
    requires
        i + 2 <= data@.len(),
    ensures
        r == u16_at(data@, i as int),
{
    (data[i] as u16) | ((data[i + 1] as u16) << 8)
}

/// Reads the little-endian `u32` at position `i`.
pub fn read_u32_le(data: &[u8], i: usize) -> (r: u32)
    requires
        i + 4 <= data@.len(),
    ensures
        r == u32_at(data@, i as int),
{
    (data[i] as u32) | ((data[i + 1] as u32) << 8) | ((data[i + 2] as u32) << 16) | ((data[i
        + 3] as u32) << 24)
}

// ---------------------------------------------------------------------------
// Tags
// ---------------------------------------------------------------------------

/// Magic bytes of the MCZ header: "MCZF".
pub open spec fn mcz_magic() -> Seq<u8> {
    seq![0x4du8, 0x43u8, 0x5au8, 0x46u8]
}

/// "RIFF"
pub open spec fn riff_tag() -> Seq<u8> {
    seq![0x52u8, 0x49u8, 0x46u8, 0x46u8]
}

/// "WEBP"
pub open spec fn webp_tag() -> Seq<u8> {
    seq![0x57u8, 0x45u8, 0x42u8, 0x50u8]
}

/// "VP8L"
pub open spec fn vp8l_tag() -> Seq<u8> {
    seq![0x56u8, 0x50u8, 0x38u8, 0x4cu8]
}

/// "MCZd": the RIFF chunk that carries the MCZ data inside a cover.
pub open spec fn mczd_tag() -> Seq<u8> {
    seq![0x4du8, 0x43u8, 0x5au8, 0x64u8]
}

/// Whether the four bytes at `pos` are `a b c d`.
fn tag_at(data: &[u8], pos: usize, a: u8, b: u8, c: u8, d: u8) -> (r: bool)
    requires
        pos + 4 <= data@.len(),
    ensures
        r == (data@.subrange(pos as int, pos + 4) == seq![a, b, c, d]),
{
    let r = data[pos] == a && data[pos + 1] == b && data[pos + 2] == c && data[pos + 3] == d;
    proof {
        let sub = data@.subrange(pos as int, pos + 4);
        if r {
            assert(sub =~= seq![a, b, c, d]);
        } else {
            if sub == seq![a, b, c, d] {
                assert(sub[0] == a && sub[1] == b && sub[2] == c && sub[3] == d);
            }
        }
    }
    r
}

// ---------------------------------------------------------------------------
// Writing
// ---------------------------------------------------------------------------

/// Bytes of the MCZ header for `page_count` pages.
pub open spec fn header_bytes(page_count: u16) -> Seq<u8> {
    mcz_magic() + seq![VERSION, 0u8] + u16_le_bytes(page_count)
}

/// Bytes of the index entry for `p`.
pub open spec fn entry_bytes(p: PageInfo) -> Seq<u8> {
    u32_le_bytes(p.offset) + u32_le_bytes(p.size) + u16_le_bytes(p.width) + u16_le_bytes(p.height)
        + seq![format_code(p.format), 0u8, 0u8, 0u8]
}

/// Bytes of the index entries for `ps`, in order.
pub open spec fn index_bytes(ps: Seq<PageInfo>) -> Seq<u8>
    decreases ps.len(),
{
    if ps.len() == 0 {
        Seq::empty()
    } else {
        index_bytes(ps.drop_last()) + entry_bytes(ps.last())
    }
}

/// Appends the four bytes `a b c d`.
pub fn push_tag(out: &mut Vec<u8>, a: u8, b: u8, c: u8, d: u8)
    ensures
        final(out)@ == old(out)@ + seq![a, b, c, d],
{
    out.push(a);
    out.push(b);
    out.push(c);
    out.push(d);
    assert(out@ =~= old(out)@ + seq![a, b, c, d]);
}

/// Appends the MCZ header for `page_count` pages.
pub fn write_header(out: &mut Vec<u8>, page_count: u16)
    ensures
        final(out)@ == old(out)@ + header_bytes(page_count),
{
    push_tag(out, 0x4d, 0x43, 0x5a, 0x46);
    out.push(VERSION);
    out.push(0);
    push_u16_le(out, page_count);
    assert(out@ =~= old(out)@ + header_bytes(page_count));
}

/// Appends the index entry for `p`.
pub fn write_index_entry(out: &mut Vec<u8>, p: &PageInfo)
    ensures
        final(out)@ == old(out)@ + entry_bytes(*p),
{
    push_u32_le(out, p.offset);
    push_u32_le(out, p.size);
    push_u16_le(out, p.width);
    push_u16_le(out, p.height);
    let code = p.format.code();
    push_tag(out, code, 0, 0, 0);
    assert(out@ =~= old(out)@ + entry_bytes(*p));
}

/// Appends all of `src`.
pub fn append_bytes(out: &mut Vec<u8>, src: &[u8])
    ensures
        final(out)@ == old(out)@ + src@,
{
    let mut i: usize = 0;
    while i < src.len()
        invariant
            i <= src@.len(),
            out@ == old(out)@ + src@.take(i as int),
        decreases src@.len() - i,
    {
        out.push(src[i]);
        i = i + 1;
        assert(out@ =~= old(out)@ + src@.take(i as int));
    }
    assert(src@.take(i as int) =~= src@);
}

// ---------------------------------------------------------------------------
// Reading
// ---------------------------------------------------------------------------

/// Why an index could not be read.
#[derive(Clone, Copy, Debug, PartialEq, Eq, Structural)]
pub enum ParseError {
    /// The data starts like a RIFF cover but the cover is not intact.
    BadCover,
    /// The header or the index runs past the end of the data.
    Truncated,
    /// The MCZ header does not start with the magic bytes.
    BadMagic,
    /// The header names a version this library does not read.
    UnsupportedVersion(u8),
    /// An index entry names no known image format.
    UnknownFormat(u8),
}

/// Why a page could not be sliced out of an archive.
#[derive(Clone, Copy, Debug, PartialEq, Eq, Structural)]
pub enum ExtractError {
    /// The page number is not below the page count.
    PageOutOfRange,
    /// The page's bytes run past the end of the data.
    DataTruncated,
}

/// The data starts with "RIFF", so it is read as a covered archive.
pub open spec fn has_riff_prefix(data: Seq<u8>) -> bool {
    data.len() >= 4 && data.subrange(0, 4) == riff_tag()
}

/// The cover prefix is whole: long enough, "WEBP" form and the MCZd chunk in place.
pub open spec fn cover_intact(data: Seq<u8>) -> bool {
    &&& data.len() >= COVER_PREFIX
    &&& data.subrange(8, 12) == webp_tag()
    &&& data.subrange(MCZD_TAG_OFFSET as int, MCZD_TAG_OFFSET + 4) == mczd_tag()
}

/// Where the MCZ header starts.
pub open spec fn mcz_start(data: Seq<u8>) -> int {
    if has_riff_prefix(data) {
        COVER_PREFIX as int
    } else {
        0
    }
}

/// Position of index entry `i` for an MCZ header at `base`.
pub open spec fn entry_pos(base: int, i: int) -> int {
    base + HEADER_SIZE + i * INDEX_ENTRY_SIZE
}

/// The format byte of index entry `i`.
pub open spec fn entry_format_byte(data: Seq<u8>, base: int, i: int) -> u8 {
    data[entry_pos(base, i) + 12]
}

/// Index entry `i` names a known format.
pub open spec fn entry_known(data: Seq<u8>, base: int, i: int) -> bool {
    format_of_code(entry_format_byte(data, base, i)) is Some
}

/// Index entries `0..k` all name known formats.
pub open spec fn entries_known(data: Seq<u8>, base: int, k: int) -> bool {
    forall|i: int| 0 <= i < k ==> #[trigger] entry_known(data, base, i)
}

/// The first index entry that names no known format.
pub open spec fn first_unknown_entry(data: Seq<u8>, base: int, n: int) -> int {
    choose|j: int| 0 <= j < n && entries_known(data, base, j) && !entry_known(data, base, j)
}

/// Index entry `i` as a page record.
pub open spec fn entry_at(data: Seq<u8>, base: int, i: int) -> PageInfo {
    let pos = entry_pos(base, i);
    PageInfo {
        index: i as u16,
        offset: u32_at(data, pos),
        size: u32_at(data, pos + 4),
        width: u16_at(data, pos + 8),
        height: u16_at(data, pos + 10),
        format: format_of_code(data[pos + 12])->0,
    }
}

/// What reading the index of `data` gives: the version and the page records, or why not.
pub open spec fn parse_index(data: Seq<u8>) -> Result<(u8, Seq<PageInfo>), ParseError> {
    if has_riff_prefix(data) && !cover_intact(data) {
        Err(ParseError::BadCover)
    } else {
        let base = mcz_start(data);
        if data.len() < base + HEADER_SIZE {
            Err(ParseError::Truncated)
        } else if data.subrange(base, base + 4) != mcz_magic() {
            Err(ParseError::BadMagic)
        } else if data[base + 4] != VERSION {
            Err(ParseError::UnsupportedVersion(data[base + 4]))
        } else {
            let n = u16_at(data, base + 6) as int;
            if data.len() < entry_pos(base, n) {
                Err(ParseError::Truncated)
            } else if !entries_known(data, base, n) {
                Err(
                    ParseError::UnknownFormat(
                        entry_format_byte(data, base, first_unknown_entry(data, base, n)),
                    ),
                )
            } else {
                Ok((VERSION, Seq::new(n as nat, |i: int| entry_at(data, base, i))))
            }
        }
    }
}

/// `r` is what `parse_index` says.
pub open spec fn index_result_is(
    r: Result<MCZIndex, ParseError>,
    s: Result<(u8, Seq<PageInfo>), ParseError>,
) -> bool {
    match r {
        Ok(ix) => s == Ok::<(u8, Seq<PageInfo>), ParseError>((ix.version, ix.pages@)),
        Err(e) => s == Err::<(u8, Seq<PageInfo>), ParseError>(e),
    }
}

proof fn lemma_first_unknown_is(data: Seq<u8>, base: int, n: int, i: int)
    requires
        0 <= i < n,
        entries_known(data, base, i),
        !entry_known(data, base, i),
    ensures
        first_unknown_entry(data, base, n) == i,
{
    let j = first_unknown_entry(data, base, n);
    assert(0 <= j < n && entries_known(data, base, j) && !entry_known(data, base, j));
    if j < i {
        assert(entry_known(data, base, j));
    } else if j > i {
        assert(entry_known(data, base, i));
    }
}

/// Reads the header and index of an archive, with or without cover.
/// Page data is not looked at: a page may still run past the end of `data`.
pub fn read_index(data: &[u8]) -> (r: Result<MCZIndex, ParseError>)
    ensures
        index_result_is(r, parse_index(data@)),
{
    let len = data.len();
    let mut base: usize = 0;
    if len >= 4 && tag_at(data, 0, 0x52, 0x49, 0x46, 0x46) {
        if len < COVER_PREFIX || !tag_at(data, 8, 0x57, 0x45, 0x42, 0x50) || !tag_at(
            data,
            MCZD_TAG_OFFSET,
            0x4d,
            0x43,
            0x5a,
            0x64,
        ) {
            return Err(ParseError::BadCover);
        }
        base = COVER_PREFIX;
    }
    assert(base == mcz_start(data@));
    if len < base + HEADER_SIZE {
        return Err(ParseError::Truncated);
    }
    if !tag_at(data, base, 0x4d, 0x43, 0x5a, 0x46) {
        return Err(ParseError::BadMagic);
    }
    let version = data[base + 4];
    if version != VERSION {
        return Err(ParseError::UnsupportedVersion(version));
    }
    let n = read_u16_le(data, base + 6);
    let index_end = base + HEADER_SIZE + (n as usize) * INDEX_ENTRY_SIZE;
    if len < index_end {
        return Err(ParseError::Truncated);
    }
    let ghost d = data@;
    let ghost b = base as int;
    let mut pages: Vec<PageInfo> = Vec::new();
    let mut i: u16 = 0;
    while i < n
        invariant
            d == data@,
            b == base,
            base <= COVER_PREFIX,
            b == mcz_start(d),
            !(has_riff_prefix(d) && !cover_intact(d)),
            d.len() >= b + HEADER_SIZE,
            d.subrange(b, b + 4) == mcz_magic(),
            d[b + 4] == VERSION,
            i <= n,
            n == u16_at(d, b + 6),
            entry_pos(b, n as int) <= d.len(),
            d.len() == len,
            entries_known(d, b, i as int),
            pages@ == Seq::new(i as nat, |k: int| entry_at(d, b, k)),
        decreases n - i,
    {
        let pos = base + HEADER_SIZE + (i as usize) * INDEX_ENTRY_SIZE;
        assert(pos == entry_pos(b, i as int));
        assert(pos + INDEX_ENTRY_SIZE <= entry_pos(b, n as int)) by (nonlinear_arith)
            requires
                pos == b + HEADER_SIZE + i * INDEX_ENTRY_SIZE,
                i < n,
        ;
        let code = data[pos + 12];
        match ImageFormat::from_code(code) {
            None => {
                proof {
                    assert(!entry_known(d, b, i as int));
                    lemma_first_unknown_is(d, b, n as int, i as int);
                    assert(!entries_known(d, b, n as int));
                }
                return Err(ParseError::UnknownFormat(code));
            },
            Some(format) => {
                let info = PageInfo {
                    index: i,
                    offset: read_u32_le(data, pos),
                    size: read_u32_le(data, pos + 4),
                    width: read_u16_le(data, pos + 8),
                    height: read_u16_le(data, pos + 10),
                    format,
                };
                assert(info == entry_at(d, b, i as int));
                pages.push(info);
                proof {
                    assert(entry_known(d, b, i as int));
                    assert forall|k: int| 0 <= k < i + 1 implies #[trigger] entry_known(
                        d,
                        b,
                        k,
                    ) by {
                        if k < i {
                            assert(entry_known(d, b, k));
                        }
                    }
                    assert(pages@ =~= Seq::new((i + 1) as nat, |k: int| entry_at(d, b, k)));
                }
                i = i + 1;
            },
        }
    }
    Ok(MCZIndex { version, pages })
}

/// What slicing page `i` out of `data` gives, for the page records `pages`.
pub open spec fn extract_spec(data: Seq<u8>, pages: Seq<PageInfo>, i: int) -> Result<
    Seq<u8>,
    ExtractError,
> {
    if !(0 <= i < pages.len()) {
        Err(ExtractError::PageOutOfRange)
    } else if pages[i].offset + pages[i].size > data.len() {
        Err(ExtractError::DataTruncated)
    } else {
        Ok(data.subrange(pages[i].offset as int, pages[i].offset + pages[i].size))
    }
}

/// The bytes of page `i`, borrowed from `data`.
pub fn extract_page<'a>(data: &'a [u8], index: &MCZIndex, i: usize) -> (r: Result<
    &'a [u8],
    ExtractError,
>)
    ensures
        match r {
            Ok(s) => extract_spec(data@, index.pages@, i as int) == Ok::<Seq<u8>, ExtractError>(
                s@,
            ),
            Err(e) => extract_spec(data@, index.pages@, i as int) == Err::<Seq<u8>, ExtractError>(
                e,
            ),
        },
{
    if i >= index.pages.len() {
        return Err(ExtractError::PageOutOfRange);
    }
    let page = &index.pages[i];
    let end: u64 = page.offset as u64 + page.size as u64;
    if end > data.len() as u64 {
        return Err(ExtractError::DataTruncated);
    }
    Ok(&data[page.offset as usize..end as usize])
}

} // verus!
