//! What reading gives back of what packing wrote.
use vstd::prelude::*;

use crate::validate::ValidateError;
use crate::format::{
    cover_intact, entries_known, entry_at, entry_bytes, entry_known, entry_pos, extract_spec,
    format_code, format_of_code, has_riff_prefix, header_bytes, index_bytes, mcz_magic, mcz_start,
    mczd_tag, parse_index, riff_tag, u16_at, u16_le_bytes, u32_at, u32_le_bytes, vp8l_tag,
    webp_tag, ExtractError, PageInfo, ParseError, COVER_PREFIX, HEADER_SIZE, INDEX_ENTRY_SIZE, VERSION,
};
use crate::encode::{source_kind_of, SourceKind};
use crate::unpack::pages_extractable;
use crate::validate::{page_problem, pages_sound, validate_spec, ValidateReport};
use crate::pack::{
    archive_size, cover_bytes, cover_dims, data_concat, data_start, data_total,
    lemma_data_total_mono, lemma_take_step, mcz_size, pack_error, packed_bytes, packed_index,
    packed_page_info, pad_bytes, pad_len, prefix_len, vp8l_payload, EncodedPage,
    MAX_ARCHIVE_BYTES, MAX_PAGES,
};

verus! {

proof fn lemma_u16_decode(s: Seq<u8>, p: int, x: u16)
    requires
        0 <= p,
        p + 2 <= s.len(),
        s[p] == u16_le_bytes(x)[0],
        s[p + 1] == u16_le_bytes(x)[1],
    ensures
        u16_at(s, p) == x,
{
    crate::format::lemma_u16_roundtrip(Seq::empty(), x, Seq::empty());
    assert(Seq::<u8>::empty() + u16_le_bytes(x) + Seq::<u8>::empty() =~= u16_le_bytes(x));
}

proof fn lemma_u32_decode(s: Seq<u8>, p: int, x: u32)
    requires
        0 <= p,
        p + 4 <= s.len(),
        s[p] == u32_le_bytes(x)[0],
        s[p + 1] == u32_le_bytes(x)[1],
        s[p + 2] == u32_le_bytes(x)[2],
        s[p + 3] == u32_le_bytes(x)[3],
    ensures
        u32_at(s, p) == x,
{
    crate::format::lemma_u32_roundtrip(Seq::empty(), x, Seq::empty());
    assert(Seq::<u8>::empty() + u32_le_bytes(x) + Seq::<u8>::empty() =~= u32_le_bytes(x));
}

/// The index bytes are the entries back to back, `INDEX_ENTRY_SIZE` bytes each.
pub proof fn lemma_index_bytes_layout(ps: Seq<PageInfo>)
    ensures
        index_bytes(ps).len() == ps.len() * INDEX_ENTRY_SIZE,
        forall|i: int, k: int|
            0 <= i < ps.len() && 0 <= k < INDEX_ENTRY_SIZE ==> #[trigger] index_bytes(ps)[i
                * INDEX_ENTRY_SIZE + k] == #[trigger] entry_bytes(ps[i])[k],
    decreases ps.len(),
{
    if ps.len() > 0 {
        let init = ps.drop_last();
        lemma_index_bytes_layout(init);
        let b = index_bytes(ps);
        assert(b == index_bytes(init) + entry_bytes(ps.last()));
        assert(entry_bytes(ps.last()).len() == INDEX_ENTRY_SIZE);
        assert(b.len() == ps.len() * INDEX_ENTRY_SIZE) by (nonlinear_arith)
            requires
                b.len() == init.len() * INDEX_ENTRY_SIZE + INDEX_ENTRY_SIZE,
                init.len() + 1 == ps.len(),
        ;
        assert forall|i: int, k: int|
            0 <= i < ps.len() && 0 <= k < INDEX_ENTRY_SIZE implies #[trigger] b[i
            * INDEX_ENTRY_SIZE + k] == #[trigger] entry_bytes(ps[i])[k] by {
            if i < init.len() {
                assert(i * INDEX_ENTRY_SIZE + k < init.len() * INDEX_ENTRY_SIZE) by (nonlinear_arith)
                    requires
                        i < init.len(),
                        0 <= k < INDEX_ENTRY_SIZE,
                ;
                assert(init[i] == ps[i]);
                assert(index_bytes(init)[i * INDEX_ENTRY_SIZE + k] == entry_bytes(init[i])[k]);
            } else {
                assert(i == init.len());
                assert(i * INDEX_ENTRY_SIZE + k - index_bytes(init).len() == k);
            }
        }
    }
}

/// The concatenated page data is each page's bytes at its running offset.
pub proof fn lemma_data_concat_layout(ps: Seq<EncodedPage>)
    ensures
        data_concat(ps).len() == data_total(ps),
        forall|i: int|
            0 <= i < ps.len() ==> #[trigger] data_concat(ps).subrange(
                data_total(ps.take(i)) as int,
                (data_total(ps.take(i)) + ps[i].data@.len()) as int,
            ) == ps[i].data@,
    decreases ps.len(),
{
    if ps.len() > 0 {
        let init = ps.drop_last();
        lemma_data_concat_layout(init);
        assert forall|i: int| 0 <= i < ps.len() implies #[trigger] data_concat(ps).subrange(
            data_total(ps.take(i)) as int,
            (data_total(ps.take(i)) + ps[i].data@.len()) as int,
        ) == ps[i].data@ by {
            if i < init.len() {
                assert(init.take(i) =~= ps.take(i));
                assert(init[i] == ps[i]);
                lemma_data_total_mono(init, i + 1, init.len() as int);
                lemma_take_step(init, i);
                assert(init.take(init.len() as int) =~= init);
                assert(data_concat(ps).subrange(
                    data_total(ps.take(i)) as int,
                    (data_total(ps.take(i)) + ps[i].data@.len()) as int,
                ) =~= data_concat(init).subrange(
                    data_total(init.take(i)) as int,
                    (data_total(init.take(i)) + init[i].data@.len()) as int,
                ));
            } else {
                assert(ps.take(i) =~= init);
                assert(data_concat(ps).subrange(
                    data_total(ps.take(i)) as int,
                    (data_total(ps.take(i)) + ps[i].data@.len()) as int,
                ) =~= ps[i].data@);
            }
        }
    }
}

proof fn lemma_layout_lengths(pages: Seq<EncodedPage>, cover: bool)
    ensures
        cover_bytes(pages, cover).len() == prefix_len(cover),
        header_bytes(pages.len() as u16).len() == HEADER_SIZE,
        index_bytes(packed_index(pages, cover)).len() == pages.len() * INDEX_ENTRY_SIZE,
        data_concat(pages).len() == data_total(pages),
        pad_bytes(pages, cover).len() == pad_len(pages, cover),
        packed_bytes(pages, cover).len() == archive_size(pages, cover),
{
    lemma_index_bytes_layout(packed_index(pages, cover));
    lemma_data_concat_layout(pages);
    if cover {
        let (w, h) = cover_dims(pages);
        assert(vp8l_payload(w, h).len() == 17);
    }
}

/// Index entry `i` of a packed archive decodes to the record that packing returned.
proof fn lemma_entry_decodes(data: Seq<u8>, base: int, i: int, p: PageInfo)
    requires
        0 <= base,
        0 <= i,
        p.index == i as u16,
        entry_pos(base, i) + INDEX_ENTRY_SIZE <= data.len(),
        forall|k: int|
            0 <= k < INDEX_ENTRY_SIZE ==> data[entry_pos(base, i) + k] == #[trigger] entry_bytes(
                p,
            )[k],
    ensures
        entry_known(data, base, i),
        entry_at(data, base, i) == p,
{
    let pos = entry_pos(base, i);
    let e = entry_bytes(p);
    assert(data[pos + 0] == e[0]);
    assert(data[pos + 1] == e[1]);
    assert(data[pos + 2] == e[2]);
    assert(data[pos + 3] == e[3]);
    assert(data[pos + 4] == e[4]);
    assert(data[pos + 5] == e[5]);
    assert(data[pos + 6] == e[6]);
    assert(data[pos + 7] == e[7]);
    assert(data[pos + 8] == e[8]);
    assert(data[pos + 9] == e[9]);
    assert(data[pos + 10] == e[10]);
    assert(data[pos + 11] == e[11]);
    assert(data[pos + 12] == e[12]);
    lemma_u32_decode(data, pos, p.offset);
    lemma_u32_decode(data, pos + 4, p.size);
    lemma_u16_decode(data, pos + 8, p.width);
    lemma_u16_decode(data, pos + 10, p.height);
    assert(data[pos + 12] == format_code(p.format));
    assert(format_of_code(format_code(p.format)) == Some(p.format));
}

/// The packed bytes split at the index: everything before it, the index, everything after.
proof fn lemma_packed_split(pages: Seq<EncodedPage>, cover: bool)
    ensures
        packed_bytes(pages, cover) == (cover_bytes(pages, cover) + header_bytes(
            pages.len() as u16,
        )) + index_bytes(packed_index(pages, cover)) + (data_concat(pages) + pad_bytes(
            pages,
            cover,
        )),
        (cover_bytes(pages, cover) + header_bytes(pages.len() as u16)).len() == prefix_len(cover)
            + HEADER_SIZE,
        packed_bytes(pages, cover).len() == archive_size(pages, cover),
        index_bytes(packed_index(pages, cover)).len() == pages.len() * INDEX_ENTRY_SIZE,
{
    lemma_layout_lengths(pages, cover);
    let c = cover_bytes(pages, cover);
    let h = header_bytes(pages.len() as u16);
    let ib = index_bytes(packed_index(pages, cover));
    let d = data_concat(pages);
    let pad = pad_bytes(pages, cover);
    assert(c + h + ib + d + pad =~= (c + h) + ib + (d + pad));
}

/// The cover and header of a packed archive read as they were written.
proof fn lemma_packed_header(pages: Seq<EncodedPage>, cover: bool)
    requires
        pack_error(pages, cover) is None,
    ensures
        ({
            let data = packed_bytes(pages, cover);
            let base = prefix_len(cover) as int;
            &&& !(has_riff_prefix(data) && !cover_intact(data))
            &&& mcz_start(data) == base
            &&& data.len() >= base + HEADER_SIZE
            &&& data.subrange(base, base + 4) == mcz_magic()
            &&& data[base + 4] == VERSION
            &&& u16_at(data, base + 6) as int == pages.len()
            &&& data.len() >= entry_pos(base, pages.len() as int)
        }),
{
    let n = pages.len();
    let c = cover_bytes(pages, cover);
    let h = header_bytes(n as u16);
    let data = packed_bytes(pages, cover);
    lemma_packed_split(pages, cover);
    lemma_layout_lengths(pages, cover);
    let rest = index_bytes(packed_index(pages, cover)) + (data_concat(pages) + pad_bytes(
        pages,
        cover,
    ));
    assert(data =~= c + (h + rest));
    let base = prefix_len(cover) as int;
    let hr = h + rest;
    if cover {
        let (w, hh) = cover_dims(pages);
        assert(data.subrange(0, 4) =~= riff_tag());
        assert(data.subrange(8, 12) =~= webp_tag());
        assert(data.subrange(38, 42) =~= mczd_tag());
    } else {
        assert(data[0] == 0x4du8);
        assert(!has_riff_prefix(data)) by {
            if has_riff_prefix(data) {
                assert(data.subrange(0, 4)[0] == riff_tag()[0]);
            }
        }
    }
    assert(data.subrange(base, base + 4) =~= mcz_magic());
    assert(data[base + 4] == hr[4]);
    assert(n <= MAX_PAGES);
    assert(data[base + 6] == hr[6]);
    assert(data[base + 7] == hr[7]);
    lemma_u16_decode(data, base + 6, n as u16);
}

/// Index entry `i` of a packed archive reads as the record packing returned for page `i`.
proof fn lemma_packed_entry(pages: Seq<EncodedPage>, cover: bool, i: int)
    requires
        pack_error(pages, cover) is None,
        0 <= i < pages.len(),
    ensures
        entry_known(packed_bytes(pages, cover), prefix_len(cover) as int, i),
        entry_at(packed_bytes(pages, cover), prefix_len(cover) as int, i) == packed_index(
            pages,
            cover,
        )[i],
{
    let n = pages.len();
    let ps = packed_index(pages, cover);
    let hs = cover_bytes(pages, cover) + header_bytes(n as u16);
    let ib = index_bytes(ps);
    let data = packed_bytes(pages, cover);
    let base = prefix_len(cover) as int;
    lemma_packed_split(pages, cover);
    lemma_index_bytes_layout(ps);
    assert(entry_pos(base, i) + INDEX_ENTRY_SIZE <= hs.len() + ib.len()) by (nonlinear_arith)
        requires
            entry_pos(base, i) == base + HEADER_SIZE + i * INDEX_ENTRY_SIZE,
            hs.len() == base + HEADER_SIZE,
            ib.len() == n * INDEX_ENTRY_SIZE,
            i < n,
    ;
    assert forall|k: int| 0 <= k < INDEX_ENTRY_SIZE implies data[entry_pos(base, i) + k]
        == #[trigger] entry_bytes(ps[i])[k] by {
        let j = i * INDEX_ENTRY_SIZE + k;
        assert(0 <= j < n * INDEX_ENTRY_SIZE) by (nonlinear_arith)
            requires
                0 <= i < n,
                0 <= k < INDEX_ENTRY_SIZE,
                j == i * INDEX_ENTRY_SIZE + k,
        ;
        assert(entry_pos(base, i) + k == hs.len() + j);
        assert(ib[j] == entry_bytes(ps[i])[k]);
    }
    lemma_entry_decodes(data, base, i, ps[i]);
}

/// Reading the index of a packed archive gives back the index that packing returned:
/// the same version and the same page records, with or without cover.
pub proof fn lemma_read_packed(pages: Seq<EncodedPage>, cover: bool)
    requires
        pack_error(pages, cover) is None,
    ensures
        parse_index(packed_bytes(pages, cover)) == Ok::<(u8, Seq<PageInfo>), ParseError>(
            (VERSION, packed_index(pages, cover)),
        ),
{
    let n = pages.len();
    let ps = packed_index(pages, cover);
    let data = packed_bytes(pages, cover);
    let base = prefix_len(cover) as int;
    lemma_packed_header(pages, cover);
    assert forall|i: int| 0 <= i < n implies #[trigger] entry_known(data, base, i) by {
        lemma_packed_entry(pages, cover, i);
    }
    assert(entries_known(data, base, n as int));
    assert forall|i: int| 0 <= i < n implies entry_at(data, base, i) == ps[i] by {
        lemma_packed_entry(pages, cover, i);
    }
    assert(Seq::new(n as nat, |i: int| entry_at(data, base, i)) =~= ps);
}

/// Slicing page `i` out of a packed archive, by the index that packing returned,
/// gives back exactly the bytes of page `i`.
pub proof fn lemma_extract_packed(pages: Seq<EncodedPage>, cover: bool, i: int)
    requires
        pack_error(pages, cover) is None,
        0 <= i < pages.len(),
    ensures
        extract_spec(packed_bytes(pages, cover), packed_index(pages, cover), i) == Ok::<
            Seq<u8>,
            ExtractError,
        >(pages[i].data@),
{
    let n = pages.len();
    let data = packed_bytes(pages, cover);
    let ps = packed_index(pages, cover);
    let head = cover_bytes(pages, cover) + header_bytes(n as u16) + index_bytes(ps);
    let d = data_concat(pages);
    lemma_layout_lengths(pages, cover);
    lemma_data_concat_layout(pages);
    lemma_data_total_mono(pages, i + 1, n as int);
    lemma_take_step(pages, i);
    assert(pages.take(n as int) =~= pages);
    assert(head.len() == data_start(pages, cover));
    let dt = data_total(pages.take(i));
    let len = pages[i].data@.len();
    assert(data_start(pages, cover) + dt + len <= archive_size(pages, cover));
    assert(archive_size(pages, cover) <= MAX_ARCHIVE_BYTES);
    assert(ps[i] == packed_page_info(pages, cover, i));
    assert(ps[i].offset == data_start(pages, cover) + dt);
    assert(ps[i].size == len);
    assert(data == head + d + pad_bytes(pages, cover));
    assert(data.subrange((head.len() + dt) as int, (head.len() + dt + len) as int) =~= d.subrange(
        dt as int,
        (dt + len) as int,
    ));
}

/// Every page of a packed archive can be sliced out again, by its own page number,
/// and gives back that page's bytes: unpacking a packed archive yields the pages.
pub proof fn lemma_unpack_packed(pages: Seq<EncodedPage>, cover: bool)
    requires
        pack_error(pages, cover) is None,
    ensures
        pages_extractable(
            packed_bytes(pages, cover),
            packed_index(pages, cover),
            pages.len() as int,
        ),
        forall|i: int|
            0 <= i < pages.len() ==> extract_spec(
                packed_bytes(pages, cover),
                packed_index(pages, cover),
                #[trigger] packed_index(pages, cover)[i].index as int,
            ) == Ok::<Seq<u8>, ExtractError>(pages[i].data@),
{
    let ps = packed_index(pages, cover);
    assert forall|i: int| 0 <= i < pages.len() implies extract_spec(
        packed_bytes(pages, cover),
        ps,
        #[trigger] ps[i].index as int,
    ) == Ok::<Seq<u8>, ExtractError>(pages[i].data@) by {
        assert(pages.len() <= MAX_PAGES);
        assert(ps[i].index as int == i);
        lemma_extract_packed(pages, cover, i);
    }
}

/// A packed archive whose pages all have nonzero dimensions validates, reporting
/// the written version, the page count and the archive's length.
pub proof fn lemma_validate_packed(pages: Seq<EncodedPage>, cover: bool)
    requires
        pack_error(pages, cover) is None,
        forall|i: int| 0 <= i < pages.len() ==> #[trigger] pages[i].width > 0 && pages[i].height > 0,
    ensures
        validate_spec(packed_bytes(pages, cover)) == Ok::<ValidateReport, ValidateError>(
            ValidateReport {
                version: VERSION,
                page_count: pages.len() as u16,
                total_bytes: archive_size(pages, cover) as usize,
            },
        ),
{
    let data = packed_bytes(pages, cover);
    let ps = packed_index(pages, cover);
    lemma_read_packed(pages, cover);
    lemma_unpack_packed(pages, cover);
    lemma_layout_lengths(pages, cover);
    assert forall|i: int| 0 <= i < ps.len() implies #[trigger] page_problem(data, ps, i) is None by {
        assert(extract_spec(data, ps, ps[i].index as int) is Ok);
        assert(pages[i].width > 0);
    }
    assert(pages_sound(data, ps, ps.len() as int));
}

/// A covered archive is sniffed as a WebP image.
pub proof fn lemma_cover_reads_as_webp(pages: Seq<EncodedPage>)
    ensures
        source_kind_of(packed_bytes(pages, true)) == SourceKind::WebP,
{
    let data = packed_bytes(pages, true);
    lemma_layout_lengths(pages, true);
    let (w, h) = cover_dims(pages);
    assert(data.subrange(0, 4) =~= riff_tag());
    assert(data.subrange(8, 12) =~= webp_tag());
}

} // verus!
