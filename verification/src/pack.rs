//! Packing encoded pages into an archive.
use vstd::prelude::*;

use crate::format::{
    append_bytes, entry_bytes, header_bytes, index_bytes, mczd_tag, push_tag, push_u32_le,
    lemma_u32_roundtrip, riff_tag, u32_at, u32_le_bytes, vp8l_tag, webp_tag, write_header, write_index_entry, ImageFormat,
    MCZIndex, PageInfo, COVER_PREFIX, HEADER_SIZE, INDEX_ENTRY_SIZE, VERSION,
};

verus! {

/// The standard library's I/O error, carried by `PackError::Io` and `UnpackError::Io`.
#[verifier::external_type_specification]
#[verifier::external_body]
pub struct ExIoError(std::io::Error);

/// A page whose image bytes are ready to be stored as they are.
pub struct EncodedPage {
    pub data: Vec<u8>,
    pub width: u16,
    pub height: u16,
    pub format: ImageFormat,
}

/// At most this many pages: the page count is stored as a `u16`.
pub const MAX_PAGES: usize = 65535;

/// At most this many bytes per page: sizes are stored as `u32`.
pub const MAX_PAGE_BYTES: usize = 4294967295;

/// At most this many bytes per archive: offsets are stored as `u32`.
pub const MAX_ARCHIVE_BYTES: usize = 4294967295;

/// Why packing failed.
#[derive(Debug)]
pub enum PackError {
    Io(std::io::Error),
    TooManyPages(usize),
    PageTooLarge(usize, usize),
    ArchiveTooLarge(usize),
    NoImages,
    Image(String, String),
}

// ---------------------------------------------------------------------------
// The packed layout
// ---------------------------------------------------------------------------

/// Total number of image bytes of `pages`.
pub open spec fn data_total(pages: Seq<EncodedPage>) -> nat
    decreases pages.len(),
{
    if pages.len() == 0 {
        0
    } else {
        data_total(pages.drop_last()) + pages.last().data@.len()
    }
}

/// The image bytes of `pages`, back to back.
pub open spec fn data_concat(pages: Seq<EncodedPage>) -> Seq<u8>
    decreases pages.len(),
{
    if pages.len() == 0 {
        Seq::empty()
    } else {
        data_concat(pages.drop_last()) + pages.last().data@
    }
}

/// Bytes of the MCZ part: header, index and data.
pub open spec fn mcz_size(pages: Seq<EncodedPage>) -> nat {
    HEADER_SIZE as nat + pages.len() * (INDEX_ENTRY_SIZE as nat) + data_total(pages)
}

/// Bytes in front of the MCZ header.
pub open spec fn prefix_len(cover: bool) -> nat {
    if cover {
        COVER_PREFIX as nat
    } else {
        0
    }
}

/// The RIFF pad byte count: chunk data of odd length is followed by one zero byte.
pub open spec fn pad_len(pages: Seq<EncodedPage>, cover: bool) -> nat {
    if cover {
        mcz_size(pages) % 2
    } else {
        0
    }
}

/// Size of the whole archive.
pub open spec fn archive_size(pages: Seq<EncodedPage>, cover: bool) -> nat {
    prefix_len(cover) + mcz_size(pages) + pad_len(pages, cover)
}

/// Offset of the first data byte.
pub open spec fn data_start(pages: Seq<EncodedPage>, cover: bool) -> nat {
    prefix_len(cover) + HEADER_SIZE as nat + pages.len() * (INDEX_ENTRY_SIZE as nat)
}

/// The index record that packing writes for page `i`.
pub open spec fn packed_page_info(pages: Seq<EncodedPage>, cover: bool, i: int) -> PageInfo {
    PageInfo {
        index: i as u16,
        offset: (data_start(pages, cover) + data_total(pages.take(i))) as u32,
        size: pages[i].data@.len() as u32,
        width: pages[i].width,
        height: pages[i].height,
        format: pages[i].format,
    }
}

/// The index records that packing writes.
pub open spec fn packed_index(pages: Seq<EncodedPage>, cover: bool) -> Seq<PageInfo> {
    Seq::new(pages.len(), |i: int| packed_page_info(pages, cover, i))
}

/// A cover dimension as the VP8L header stores it: minus one, wrapping around
/// for zero as unsigned subtraction does.
pub open spec fn dim_minus_one(d: u16) -> u32 {
    if d == 0 {
        0xffff_ffff
    } else {
        (d - 1) as u32
    }
}

/// The 17 VP8L bytes of the cover: signature, `w x h` header, and a bitstream that
/// paints every pixel opaque white (one-symbol prefix codes, zero bits per pixel).
pub open spec fn vp8l_payload(w: u16, h: u16) -> Seq<u8> {
    seq![0x2fu8] + u32_le_bytes(dim_minus_one(w) | (dim_minus_one(h) << 14u32)) + seq![
        0xe8u8,
        0x7fu8,
        0xffu8,
        0xfbu8,
        0xdfu8,
        0xffu8,
        0u8,
        0u8,
        0u8,
        0u8,
        0u8,
        0u8,
    ]
}

/// Width and height of the cover: those of the first page, or 1 x 1.
pub open spec fn cover_dims(pages: Seq<EncodedPage>) -> (u16, u16) {
    if pages.len() > 0 {
        (pages[0].width, pages[0].height)
    } else {
        (1, 1)
    }
}

/// The cover prefix: RIFF header, VP8L chunk with its pad byte, MCZd chunk header.
pub open spec fn cover_bytes(pages: Seq<EncodedPage>, cover: bool) -> Seq<u8> {
    if cover {
        let (w, h) = cover_dims(pages);
        riff_tag() + u32_le_bytes((archive_size(pages, cover) - 8) as u32) + webp_tag()
            + vp8l_tag() + u32_le_bytes(17) + vp8l_payload(w, h) + seq![0u8] + mczd_tag()
            + u32_le_bytes(mcz_size(pages) as u32)
    } else {
        Seq::empty()
    }
}

/// The trailing RIFF pad.
pub open spec fn pad_bytes(pages: Seq<EncodedPage>, cover: bool) -> Seq<u8> {
    if pad_len(pages, cover) == 1 {
        seq![0u8]
    } else {
        Seq::empty()
    }
}

/// The archive that packing writes.
pub open spec fn packed_bytes(pages: Seq<EncodedPage>, cover: bool) -> Seq<u8> {
    cover_bytes(pages, cover) + header_bytes(pages.len() as u16) + index_bytes(
        packed_index(pages, cover),
    ) + data_concat(pages) + pad_bytes(pages, cover)
}

/// Pages `0..k` are each within `MAX_PAGE_BYTES`.
pub open spec fn pages_fit(pages: Seq<EncodedPage>, k: int) -> bool {
    forall|i: int| 0 <= i < k ==> #[trigger] pages[i].data@.len() <= MAX_PAGE_BYTES
}

/// The first page over `MAX_PAGE_BYTES`.
pub open spec fn first_oversized(pages: Seq<EncodedPage>) -> int {
    choose|j: int|
        0 <= j < pages.len() && pages_fit(pages, j) && pages[j].data@.len() > MAX_PAGE_BYTES
}

/// The error that packing `pages` gives, if any.
pub open spec fn pack_error(pages: Seq<EncodedPage>, cover: bool) -> Option<PackError> {
    if pages.len() > MAX_PAGES {
        Some(PackError::TooManyPages(pages.len() as usize))
    } else if !pages_fit(pages, pages.len() as int) {
        let j = first_oversized(pages);
        Some(PackError::PageTooLarge(j as usize, pages[j].data@.len() as usize))
    } else if archive_size(pages, cover) > MAX_ARCHIVE_BYTES {
        Some(PackError::ArchiveTooLarge(archive_size(pages, cover) as usize))
    } else {
        None
    }
}

/// Inputs that pass the page-count and page-size limits.
pub open spec fn within_page_limits(pages: Seq<EncodedPage>) -> bool {
    pages.len() <= MAX_PAGES && pages_fit(pages, pages.len() as int)
}

// ---------------------------------------------------------------------------
// Lemmas on the layout
// ---------------------------------------------------------------------------

/// The cover image of an archive packed with a cover is as large as the first page,
/// whatever the later pages are: bytes 21..25 (the VP8L size field) hold, little
/// endian, the first page's width minus one in the low 14 bits and its height minus
/// one from bit 14 on (a zero dimension wraps to `u32::MAX`, as unsigned subtraction
/// does). Without pages the cover is 1 x 1, so the field is zero.
pub proof fn lemma_cover_has_first_page_size(pages: Seq<EncodedPage>)
    ensures
        pages.len() > 0 ==> u32_at(packed_bytes(pages, true), 21) == (if pages[0].width == 0 {
            0xffff_ffffu32
        } else {
            (pages[0].width - 1) as u32
        }) | ((if pages[0].height == 0 {
            0xffff_ffffu32
        } else {
            (pages[0].height - 1) as u32
        }) << 14u32),
        pages.len() == 0 ==> u32_at(packed_bytes(pages, true), 21) == 0u32,
{
    let (w, h) = cover_dims(pages);
    let v = dim_minus_one(w) | (dim_minus_one(h) << 14u32);
    let pre = riff_tag() + u32_le_bytes((archive_size(pages, true) - 8) as u32) + webp_tag()
        + vp8l_tag() + u32_le_bytes(17) + seq![0x2fu8];
    let rest = seq![0xe8u8, 0x7fu8, 0xffu8, 0xfbu8, 0xdfu8, 0xffu8, 0u8, 0u8, 0u8, 0u8, 0u8, 0u8]
        + seq![0u8] + mczd_tag() + u32_le_bytes(mcz_size(pages) as u32) + header_bytes(
        pages.len() as u16,
    ) + index_bytes(packed_index(pages, true)) + data_concat(pages) + pad_bytes(pages, true);
    assert(pre.len() == 21);
    assert(packed_bytes(pages, true) =~= pre + u32_le_bytes(v) + rest);
    lemma_u32_roundtrip(pre, v, rest);
    if pages.len() == 0 {
        assert((0u32 | (0u32 << 14u32)) == 0u32) by (bit_vector);
    }
}

pub proof fn lemma_take_step(pages: Seq<EncodedPage>, i: int)
    requires
        0 <= i < pages.len(),
    ensures
        data_total(pages.take(i + 1)) == data_total(pages.take(i)) + pages[i].data@.len(),
        data_concat(pages.take(i + 1)) == data_concat(pages.take(i)) + pages[i].data@,
{
    assert(pages.take(i + 1).drop_last() =~= pages.take(i));
}

pub proof fn lemma_data_total_mono(pages: Seq<EncodedPage>, i: int, j: int)
    requires
        0 <= i <= j <= pages.len(),
    ensures
        data_total(pages.take(i)) <= data_total(pages.take(j)),
    decreases j - i,
{
    if i < j {
        lemma_data_total_mono(pages, i, j - 1);
        lemma_take_step(pages, j - 1);
    }
}

pub proof fn lemma_index_bytes_step(ps: Seq<PageInfo>, i: int)
    requires
        0 <= i < ps.len(),
    ensures
        index_bytes(ps.take(i + 1)) == index_bytes(ps.take(i)) + entry_bytes(ps[i]),
{
    assert(ps.take(i + 1).drop_last() =~= ps.take(i));
}

proof fn lemma_first_oversized_is(pages: Seq<EncodedPage>, i: int)
    requires
        0 <= i < pages.len(),
        pages_fit(pages, i),
        pages[i].data@.len() > MAX_PAGE_BYTES,
    ensures
        first_oversized(pages) == i,
{
    let j = first_oversized(pages);
    assert(0 <= j < pages.len() && pages_fit(pages, j) && pages[j].data@.len() > MAX_PAGE_BYTES);
    if j < i {
        assert(pages[j].data@.len() <= MAX_PAGE_BYTES);
    } else if j > i {
        assert(pages[i].data@.len() <= MAX_PAGE_BYTES);
    }
}

// ---------------------------------------------------------------------------
// Packing
// ---------------------------------------------------------------------------

/// Appends the 17 VP8L bytes of the cover.
fn push_vp8l_payload(out: &mut Vec<u8>, w: u16, h: u16)
    ensures
        final(out)@ == old(out)@ + vp8l_payload(w, h),
{
    out.push(0x2f);
    let w1: u32 = if w == 0 {
        0xffff_ffff
    } else {
        (w as u32) - 1
    };
    let h1: u32 = if h == 0 {
        0xffff_ffff
    } else {
        (h as u32) - 1
    };
    let val: u32 = w1 | (h1 << 14u32);
    push_u32_le(out, val);
    push_tag(out, 0xe8, 0x7f, 0xff, 0xfb);
    push_tag(out, 0xdf, 0xff, 0, 0);
    push_tag(out, 0, 0, 0, 0);
    assert(out@ =~= old(out)@ + vp8l_payload(w, h));
}

/// Packs pre-encoded pages into an archive appended to `out`, and returns its index.
/// With `cover`, the archive is wrapped in a RIFF/WebP container (an opaque white
/// lossless image of the first page's size, 1 x 1 without pages) whose MCZd chunk
/// holds the MCZ data, so the file is also a valid WebP image.
///
/// Fails, before writing anything, when a limit of the format would be exceeded.
pub fn pack(pages: &[EncodedPage], out: &mut Vec<u8>, cover: bool) -> (r: Result<
    MCZIndex,
    PackError,
>)
    ensures
        match r {
            Ok(index) => {
                &&& pack_error(pages@, cover) is None
                &&& index.version == VERSION
                &&& index.pages@ == packed_index(pages@, cover)
                &&& final(out)@ == old(out)@ + packed_bytes(pages@, cover)
            },
            Err(e) => {
                &&& pack_error(pages@, cover) == Some(e)
                &&& final(out)@ == old(out)@
            },
        },
{
    let ghost ps = pages@;
    let n = pages.len();
    if n > MAX_PAGES {
        return Err(PackError::TooManyPages(n));
    }
    let mut i: usize = 0;
    let mut total: u64 = 0;
    while i < n
        invariant
            ps == pages@,
            n == ps.len(),
            n <= MAX_PAGES,
            i <= n,
            pages_fit(ps, i as int),
            total == data_total(ps.take(i as int)),
            total <= i * MAX_PAGE_BYTES,
        decreases n - i,
    {
        let len = pages[i].data.len();
        if len > MAX_PAGE_BYTES {
            proof {
                lemma_first_oversized_is(ps, i as int);
            }
            return Err(PackError::PageTooLarge(i, len));
        }
        proof {
            lemma_take_step(ps, i as int);
            assert forall|k: int| 0 <= k < i + 1 implies #[trigger] ps[k].data@.len()
                <= MAX_PAGE_BYTES by {
                if k < i {
                    assert(ps[k].data@.len() <= MAX_PAGE_BYTES);
                }
            }
            assert((i + 1) * MAX_PAGE_BYTES == i * MAX_PAGE_BYTES + MAX_PAGE_BYTES) by (nonlinear_arith);
        }
        total = total + len as u64;
        i = i + 1;
    }
    assert(ps.take(n as int) =~= ps);
    assert(n * MAX_PAGE_BYTES <= MAX_PAGES * MAX_PAGE_BYTES) by (nonlinear_arith)
        requires
            n <= MAX_PAGES,
    ;
    let mcz: u64 = (HEADER_SIZE as u64) + (n as u64) * (INDEX_ENTRY_SIZE as u64) + total;
    let prefix: u64 = if cover {
        COVER_PREFIX as u64
    } else {
        0
    };
    let pad: u64 = if cover {
        mcz % 2
    } else {
        0
    };
    let size: u64 = prefix + mcz + pad;
    assert(size == archive_size(ps, cover));
    if size > MAX_ARCHIVE_BYTES as u64 {
        return Err(PackError::ArchiveTooLarge(size as usize));
    }
    assert(pack_error(ps, cover) is None);
    let start: u32 = (prefix + (HEADER_SIZE as u64) + (n as u64) * (INDEX_ENTRY_SIZE as u64)) as u32;
    assert(start == data_start(ps, cover));
    let ghost old_out = out@;

    // Cover prefix.
    if cover {
        let (w, h) = if n > 0 {
            (pages[0].width, pages[0].height)
        } else {
            (1u16, 1u16)
        };
        push_tag(out, 0x52, 0x49, 0x46, 0x46);
        push_u32_le(out, (size - 8) as u32);
        push_tag(out, 0x57, 0x45, 0x42, 0x50);
        push_tag(out, 0x56, 0x50, 0x38, 0x4c);
        push_u32_le(out, 17);
        push_vp8l_payload(out, w, h);
        out.push(0);
        push_tag(out, 0x4d, 0x43, 0x5a, 0x64);
        push_u32_le(out, mcz as u32);
    }
    assert(out@ =~= old_out + cover_bytes(ps, cover));

    // Index records.
    let mut infos: Vec<PageInfo> = Vec::with_capacity(n);
    let mut offset: u32 = start;
    let mut j: usize = 0;
    while j < n
        invariant
            ps == pages@,
            n == ps.len(),
            n <= MAX_PAGES,
            j <= n,
            within_page_limits(ps),
            archive_size(ps, cover) <= MAX_ARCHIVE_BYTES,
            start == data_start(ps, cover),
            offset == data_start(ps, cover) + data_total(ps.take(j as int)),
            infos@ == Seq::new(j as nat, |k: int| packed_page_info(ps, cover, k)),
        decreases n - j,
    {
        proof {
            lemma_take_step(ps, j as int);
            lemma_data_total_mono(ps, j + 1, n as int);
            assert(ps.take(n as int) =~= ps);
        }
        let len = pages[j].data.len();
        let info = PageInfo {
            index: j as u16,
            offset,
            size: len as u32,
            width: pages[j].width,
            height: pages[j].height,
            format: pages[j].format,
        };
        assert(info == packed_page_info(ps, cover, j as int));
        infos.push(info);
        offset = offset + len as u32;
        j = j + 1;
        assert(infos@ =~= Seq::new(j as nat, |k: int| packed_page_info(ps, cover, k)));
    }
    assert(infos@ =~= packed_index(ps, cover));

    // Header and index.
    write_header(out, n as u16);
    let ghost after_header = out@;
    let mut k: usize = 0;
    while k < n
        invariant
            n == infos@.len(),
            k <= n,
            out@ == after_header + index_bytes(infos@.take(k as int)),
        decreases n - k,
    {
        proof {
            lemma_index_bytes_step(infos@, k as int);
        }
        write_index_entry(out, &infos[k]);
        k = k + 1;
    }
    assert(infos@.take(n as int) =~= infos@);

    // Page data.
    let ghost after_index = out@;
    let mut m: usize = 0;
    while m < n
        invariant
            ps == pages@,
            n == ps.len(),
            m <= n,
            out@ == after_index + data_concat(ps.take(m as int)),
        decreases n - m,
    {
        proof {
            lemma_take_step(ps, m as int);
        }
        append_bytes(out, pages[m].data.as_slice());
        m = m + 1;
        assert(out@ =~= after_index + data_concat(ps.take(m as int)));
    }
    assert(ps.take(n as int) =~= ps);

    // RIFF pad byte.
    let ghost before_pad = out@;
    if cover && mcz % 2 != 0 {
        out.push(0);
    }
    assert(out@ =~= before_pad + pad_bytes(ps, cover));
    assert(out@ =~= old(out)@ + packed_bytes(ps, cover));
    Ok(MCZIndex { version: VERSION, pages: infos })
}

} // verus!
