//! Describing an archive's index: as JSON and as aligned text.
use vstd::prelude::*;
use vstd::string::{StrSliceExecFns, StringExecFns};

use crate::format::{format_name, lemma_format_names, ImageFormat, MCZIndex, PageInfo, HEADER_SIZE, INDEX_ENTRY_SIZE};
use crate::unpack::{append_decimal, decimal};

verus! {

/// JSON object of one page record.
pub open spec fn page_json(p: PageInfo) -> Seq<char> {
    "{\"index\":"@ + decimal(p.index as nat) + ",\"width\":"@ + decimal(p.width as nat)
        + ",\"height\":"@ + decimal(p.height as nat) + ",\"format\":\""@ + format_name(p.format)
        + "\",\"offset\":"@ + decimal(p.offset as nat) + ",\"size\":"@ + decimal(p.size as nat)
        + "}"@
}

/// The name a description gives a page format: `webp`, `jpeg` or `jxl`.
pub open spec fn format_label(f: ImageFormat) -> Seq<char> {
    match f {
        ImageFormat::WebP => "webp"@,
        ImageFormat::Jpeg => "jpeg"@,
        ImageFormat::Jxl => "jxl"@,
    }
}

/// The JSON record of a page names its format: `"format":"webp"`, `"format":"jpeg"`
/// or `"format":"jxl"`, between its height and its offset.
pub proof fn lemma_page_json_format(p: PageInfo)
    ensures
        exists|a: Seq<char>, b: Seq<char>|
            page_json(p) == a + ",\"format\":\""@ + format_label(p.format) + "\",\"offset\":"@
                + b,
{
    lemma_format_names();
    let a = "{\"index\":"@ + decimal(p.index as nat) + ",\"width\":"@ + decimal(p.width as nat)
        + ",\"height\":"@ + decimal(p.height as nat);
    let b = decimal(p.offset as nat) + ",\"size\":"@ + decimal(p.size as nat) + "}"@;
    assert(format_name(p.format) == format_label(p.format));
    assert(page_json(p) =~= a + ",\"format\":\""@ + format_label(p.format) + "\",\"offset\":"@
        + b);
}

/// The JSON objects of `ps`, separated by commas.
pub open spec fn pages_json(ps: Seq<PageInfo>) -> Seq<char>
    decreases ps.len(),
{
    if ps.len() == 0 {
        Seq::empty()
    } else if ps.len() == 1 {
        page_json(ps[0])
    } else {
        pages_json(ps.drop_last()) + ","@ + page_json(ps.last())
    }
}

/// JSON description of an archive of `total_bytes` bytes with index `version`, `ps`.
pub open spec fn info_json_spec(total_bytes: nat, version: u8, ps: Seq<PageInfo>) -> Seq<char> {
    "{\"version\":"@ + decimal(version as nat) + ",\"page_count\":"@ + decimal(ps.len())
        + ",\"total_bytes\":"@ + decimal(total_bytes) + ",\"pages\":["@ + pages_json(ps) + "]}"@
}

/// A string holding the literal `s`.
fn text(s: &str) -> (r: String)
    ensures
        r@ == s@,
{
    String::from_str(s)
}

/// The JSON description of an archive: version, page count, total size and each
/// page's record.
pub fn info_json(total_bytes: usize, index: &MCZIndex) -> (r: String)
    ensures
        r@ == info_json_spec(total_bytes as nat, index.version, index.pages@),
{
    proof {
        reveal_strlit("{\"version\":");
        reveal_strlit(",\"page_count\":");
        reveal_strlit(",\"total_bytes\":");
        reveal_strlit(",\"pages\":[");
        reveal_strlit("]}");
        reveal_strlit(",");
    }
    let ps = &index.pages;
    let n = ps.len();
    let mut s = text("{\"version\":");
    append_decimal(&mut s, index.version as u128);
    s.append(",\"page_count\":");
    append_decimal(&mut s, n as u128);
    s.append(",\"total_bytes\":");
    append_decimal(&mut s, total_bytes as u128);
    s.append(",\"pages\":[");
    let ghost head = s@;
    let mut i: usize = 0;
    while i < n
        invariant
            n == ps@.len(),
            i <= n,
            s@ == head + pages_json(ps@.take(i as int)),
        decreases n - i,
    {
        proof {
            assert(ps@.take(i + 1).drop_last() =~= ps@.take(i as int));
            assert(ps@.take(i + 1).last() == ps@[i as int]);
            if i == 0 {
                assert(pages_json(ps@.take(0)) =~= Seq::<char>::empty());
            }
        }
        if i > 0 {
            s.append(",");
        }
        append_page_json(&mut s, &ps[i]);
        i = i + 1;
    }
    assert(ps@.take(n as int) =~= ps@);
    s.append("]}");
    s
}

fn append_page_json(s: &mut String, p: &PageInfo)
    ensures
        final(s)@ == old(s)@ + page_json(*p),
{
    proof {
        reveal_strlit("{\"index\":");
        reveal_strlit(",\"width\":");
        reveal_strlit(",\"height\":");
        reveal_strlit(",\"format\":\"");
        reveal_strlit("\",\"offset\":");
        reveal_strlit(",\"size\":");
        reveal_strlit("}");
    }
    s.append("{\"index\":");
    append_decimal(s, p.index as u128);
    s.append(",\"width\":");
    append_decimal(s, p.width as u128);
    s.append(",\"height\":");
    append_decimal(s, p.height as u128);
    s.append(",\"format\":\"");
    s.append(p.format.name());
    s.append("\",\"offset\":");
    append_decimal(s, p.offset as u128);
    s.append(",\"size\":");
    append_decimal(s, p.size as u128);
    s.append("}");
    assert(s@ =~= old(s)@ + page_json(*p));
}

// ---------------------------------------------------------------------------
// Text
// ---------------------------------------------------------------------------

/// `n` spaces.
pub open spec fn spaces(n: nat) -> Seq<char> {
    Seq::new(n, |i: int| ' ')
}

/// `t` right-aligned in a field of `w` characters.
pub open spec fn align_right(t: Seq<char>, w: nat) -> Seq<char> {
    if t.len() < w {
        spaces((w - t.len()) as nat) + t
    } else {
        t
    }
}

/// `t` left-aligned in a field of `w` characters.
pub open spec fn align_left(t: Seq<char>, w: nat) -> Seq<char> {
    if t.len() < w {
        t + spaces((w - t.len()) as nat)
    } else {
        t
    }
}

/// Sum of the page sizes.
pub open spec fn total_size(ps: Seq<PageInfo>) -> nat
    decreases ps.len(),
{
    if ps.len() == 0 {
        0
    } else {
        total_size(ps.drop_last()) + ps.last().size as nat
    }
}

/// The text line of one page record: number, dimensions, format, offset and size.
pub open spec fn page_line(p: PageInfo) -> Seq<char> {
    "  "@ + align_right(decimal(p.index as nat), 3) + ": "@ + align_right(decimal(p.width as nat), 4)
        + "×"@ + align_left(decimal(p.height as nat), 4) + " "@ + align_right(format_name(p.format), 4)
        + "  offset="@ + align_left(decimal(p.offset as nat), 8) + " size="@ + decimal(p.size as nat)
        + "\n"@
}

/// The text line of a page names its format, right-aligned in four columns
/// (`webp`, `jpeg`, ` jxl`), before its offset.
pub proof fn lemma_page_line_format(p: PageInfo)
    ensures
        exists|a: Seq<char>, b: Seq<char>|
            page_line(p) == a + " "@ + align_right(format_label(p.format), 4) + "  offset="@ + b,
{
    lemma_format_names();
    let a = "  "@ + align_right(decimal(p.index as nat), 3) + ": "@ + align_right(
        decimal(p.width as nat),
        4,
    ) + "×"@ + align_left(decimal(p.height as nat), 4);
    let b = align_left(decimal(p.offset as nat), 8) + " size="@ + decimal(p.size as nat) + "\n"@;
    assert(format_name(p.format) == format_label(p.format));
    assert(page_line(p) =~= a + " "@ + align_right(format_label(p.format), 4) + "  offset="@ + b);
}

/// The lines of `ps`.
pub open spec fn page_lines(ps: Seq<PageInfo>) -> Seq<char>
    decreases ps.len(),
{
    if ps.len() == 0 {
        Seq::empty()
    } else {
        page_lines(ps.drop_last()) + page_line(ps.last())
    }
}

/// Text description of an archive of `total_bytes` bytes with index `version`, `ps`.
pub open spec fn info_text_spec(total_bytes: nat, version: u8, ps: Seq<PageInfo>) -> Seq<char> {
    info_head(total_bytes, version, ps) + page_lines(ps)
}

/// Appends `t` (of `len` characters) aligned in a field of `w` characters.
fn append_aligned(s: &mut String, t: &str, w: usize, right: bool)
    ensures
        final(s)@ == old(s)@ + if right {
            align_right(t@, w as nat)
        } else {
            align_left(t@, w as nat)
        },
{
    proof {
        reveal_strlit(" ");
    }
    let len = t.unicode_len();
    if right {
        let mut k = len;
        while k < w
            invariant
                len == t@.len(),
                len <= k <= w || (k == len && w < len),
                s@ == old(s)@ + spaces((k - len) as nat),
            decreases w - k,
        {
            proof {
                reveal_strlit(" ");
            }
            s.append(" ");
            k = k + 1;
            assert(s@ =~= old(s)@ + spaces((k - len) as nat));
        }
        s.append(t);
        assert(s@ =~= old(s)@ + align_right(t@, w as nat));
    } else {
        s.append(t);
        let ghost mid = s@;
        let mut k = len;
        while k < w
            invariant
                len == t@.len(),
                len <= k <= w || (k == len && w < len),
                s@ == mid + spaces((k - len) as nat),
            decreases w - k,
        {
            proof {
                reveal_strlit(" ");
            }
            s.append(" ");
            k = k + 1;
            assert(s@ =~= mid + spaces((k - len) as nat));
        }
        assert(s@ =~= old(s)@ + align_left(t@, w as nat));
    }
}

/// The decimal digits of `n`.
fn decimal_string(n: u64) -> (r: String)
    ensures
        r@ == decimal(n as nat),
{
    let mut s = String::new();
    append_decimal(&mut s, n as u128);
    assert(s@ =~= decimal(n as nat));
    s
}

fn append_page_line(s: &mut String, p: &PageInfo)
    ensures
        final(s)@ == old(s)@ + page_line(*p),
{
    proof {
        reveal_strlit("  ");
        reveal_strlit(": ");
        reveal_strlit("×");
        reveal_strlit(" ");
        reveal_strlit("  offset=");
        reveal_strlit(" size=");
        reveal_strlit("\n");
    }
    s.append("  ");
    let t = decimal_string(p.index as u64);
    append_aligned(s, t.as_str(), 3, true);
    s.append(": ");
    let t = decimal_string(p.width as u64);
    append_aligned(s, t.as_str(), 4, true);
    s.append("×");
    let t = decimal_string(p.height as u64);
    append_aligned(s, t.as_str(), 4, false);
    s.append(" ");
    append_aligned(s, p.format.name(), 4, true);
    s.append("  offset=");
    let t = decimal_string(p.offset as u64);
    append_aligned(s, t.as_str(), 8, false);
    s.append(" size=");
    append_decimal(s, p.size as u128);
    s.append("\n");
    assert(s@ =~= old(s)@ + page_line(*p));
}

proof fn lemma_total_size_bound(ps: Seq<PageInfo>)
    ensures
        total_size(ps) <= ps.len() * 0xffff_ffff,
    decreases ps.len(),
{
    if ps.len() > 0 {
        lemma_total_size_bound(ps.drop_last());
    }
}

/// Sum of the page sizes.
fn sum_sizes(ps: &Vec<PageInfo>) -> (total: u128)
    ensures
        total == total_size(ps@),
{
    let n = ps.len();
    let mut total: u128 = 0;
    let mut i: usize = 0;
    while i < n
        invariant
            n == ps@.len(),
            i <= n,
            total == total_size(ps@.take(i as int)),
        decreases n - i,
    {
        proof {
            assert(ps@.take(i + 1).drop_last() =~= ps@.take(i as int));
            lemma_total_size_bound(ps@.take(i + 1));
            assert((i + 1) * 0xffff_ffff <= 0x1_0000_0000_0000_0000 * 0xffff_ffff) by (nonlinear_arith)
                requires
                    i + 1 <= 0x1_0000_0000_0000_0000,
            ;
        }
        total = total + ps[i].size as u128;
        i = i + 1;
    }
    assert(ps@.take(n as int) =~= ps@);
    total
}

/// The summary lines of the text description, with the empty line after them.
pub open spec fn info_head(total_bytes: nat, version: u8, ps: Seq<PageInfo>) -> Seq<char> {
    "BNL v"@ + decimal(version as nat) + " — "@ + decimal(ps.len()) + " pages, "@ + decimal(
        total_bytes,
    ) + " bytes\n"@ + "Index size: "@ + decimal(
        (HEADER_SIZE + (ps.len() as u16) * INDEX_ENTRY_SIZE) as nat,
    ) + " bytes\n"@ + "Data size:  "@ + decimal(total_size(ps)) + " bytes\n"@ + "\n"@
}

fn info_text_head(total_bytes: usize, index: &MCZIndex) -> (r: String)
    ensures
        r@ == info_head(total_bytes as nat, index.version, index.pages@),
{
    proof {
        reveal_strlit("BNL v");
        reveal_strlit(" — ");
        reveal_strlit(" pages, ");
        reveal_strlit(" bytes\n");
        reveal_strlit("Index size: ");
        reveal_strlit("Data size:  ");
        reveal_strlit("\n");
    }
    let n = index.pages.len();
    let total = sum_sizes(&index.pages);
    let mut s = text("BNL v");
    append_decimal(&mut s, index.version as u128);
    s.append(" — ");
    append_decimal(&mut s, n as u128);
    s.append(" pages, ");
    append_decimal(&mut s, total_bytes as u128);
    s.append(" bytes\n");
    s.append("Index size: ");
    append_decimal(&mut s, MCZIndex::data_offset(n as u16) as u128);
    s.append(" bytes\n");
    s.append("Data size:  ");
    append_decimal(&mut s, total as u128);
    s.append(" bytes\n");
    s.append("\n");
    s
}

/// The text description of an archive: a summary line, index and data sizes, an
/// empty line, and one aligned line per page; each line ends with a newline.
pub fn info_text(total_bytes: usize, index: &MCZIndex) -> (r: String)
    ensures
        r@ == info_text_spec(total_bytes as nat, index.version, index.pages@),
{
    let ps = &index.pages;
    let n = ps.len();
    let mut s = info_text_head(total_bytes, index);
    let ghost head = s@;
    let mut j: usize = 0;
    while j < n
        invariant
            n == ps@.len(),
            j <= n,
            s@ == head + page_lines(ps@.take(j as int)),
        decreases n - j,
    {
        proof {
            assert(ps@.take(j + 1).drop_last() =~= ps@.take(j as int));
        }
        append_page_line(&mut s, &ps[j]);
        j = j + 1;
    }
    assert(ps@.take(n as int) =~= ps@);
    s
}

// ---------------------------------------------------------------------------
// After packing
// ---------------------------------------------------------------------------

/// The line of one page record after packing: number, dimensions, format and size.
pub open spec fn packed_line(p: PageInfo) -> Seq<char> {
    "  "@ + align_right(decimal(p.index as nat), 3) + ": "@ + align_right(decimal(p.width as nat), 4)
        + "×"@ + align_left(decimal(p.height as nat), 4) + " "@ + align_right(format_name(p.format), 4)
        + " "@ + align_right(decimal(p.size as nat), 8) + " bytes\n"@
}

/// The lines of `ps` after packing.
pub open spec fn packed_lines(ps: Seq<PageInfo>) -> Seq<char>
    decreases ps.len(),
{
    if ps.len() == 0 {
        Seq::empty()
    } else {
        packed_lines(ps.drop_last()) + packed_line(ps.last())
    }
}

/// The summary after packing: the total size (page data plus header and index) and
/// one line per page.
pub open spec fn pack_summary_spec(ps: Seq<PageInfo>) -> Seq<char> {
    "Total size: "@ + decimal(
        total_size(ps) + (HEADER_SIZE + (ps.len() as u16) * INDEX_ENTRY_SIZE) as nat,
    ) + " bytes\n"@ + packed_lines(ps)
}

fn append_packed_line(s: &mut String, p: &PageInfo)
    ensures
        final(s)@ == old(s)@ + packed_line(*p),
{
    proof {
        reveal_strlit("  ");
        reveal_strlit(": ");
        reveal_strlit("×");
        reveal_strlit(" ");
        reveal_strlit(" bytes\n");
    }
    s.append("  ");
    let t = decimal_string(p.index as u64);
    append_aligned(s, t.as_str(), 3, true);
    s.append(": ");
    let t = decimal_string(p.width as u64);
    append_aligned(s, t.as_str(), 4, true);
    s.append("×");
    let t = decimal_string(p.height as u64);
    append_aligned(s, t.as_str(), 4, false);
    s.append(" ");
    append_aligned(s, p.format.name(), 4, true);
    s.append(" ");
    let t = decimal_string(p.size as u64);
    append_aligned(s, t.as_str(), 8, true);
    s.append(" bytes\n");
    assert(s@ =~= old(s)@ + packed_line(*p));
}

/// What is reported after packing, below the line naming the output: the total size
/// and one line per page, each line ending with a newline.
pub fn pack_summary(index: &MCZIndex) -> (r: String)
    ensures
        r@ == pack_summary_spec(index.pages@),
{
    proof {
        reveal_strlit("Total size: ");
        reveal_strlit(" bytes\n");
    }
    let ps = &index.pages;
    let n = ps.len();
    let total = sum_sizes(ps);
    let offset = MCZIndex::data_offset(n as u16);
    let mut s = text("Total size: ");
    proof {
        lemma_total_size_bound(ps@);
        assert(n * 0xffff_ffff <= 0x1_0000_0000_0000_0000 * 0xffff_ffff) by (nonlinear_arith)
            requires
                n <= 0x1_0000_0000_0000_0000,
        ;
    }
    append_decimal(&mut s, total + offset as u128);
    s.append(" bytes\n");
    let ghost head = s@;
    let mut j: usize = 0;
    while j < n
        invariant
            n == ps@.len(),
            j <= n,
            s@ == head + packed_lines(ps@.take(j as int)),
        decreases n - j,
    {
        proof {
            assert(ps@.take(j + 1).drop_last() =~= ps@.take(j as int));
        }
        append_packed_line(&mut s, &ps[j]);
        j = j + 1;
    }
    assert(ps@.take(n as int) =~= ps@);
    s
}

} // verus!
