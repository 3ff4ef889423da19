//! Turning an archive into one file per page: names and contents.
//! Writing the files out is left to the caller.
use vstd::prelude::*;
use vstd::string::StringExecFns;

use crate::format::{
    extract_page, extract_spec, format_extension, parse_index, read_index, ExtractError, ImageFormat,
    MCZIndex, PageInfo, ParseError,
};

verus! {

/// Why unpacking failed.
#[derive(Debug)]
pub enum UnpackError {
    Io(std::io::Error),
    Parse(ParseError),
    Extract(ExtractError),
}

/// The character of decimal digit `d`.
pub open spec fn digit_char(d: nat) -> char {
    seq!['0', '1', '2', '3', '4', '5', '6', '7', '8', '9'][d as int]
}

/// Decimal digits of `n`, most significant first, without leading zeros.
pub open spec fn decimal(n: nat) -> Seq<char>
    decreases n,
{
    if n < 10 {
        seq![digit_char(n)]
    } else {
        decimal(n / 10).push(digit_char(n % 10))
    }
}

/// `s` preceded by as many '0' as it takes to reach `width` characters.
pub open spec fn zero_pad(s: Seq<char>, width: nat) -> Seq<char> {
    if s.len() < width {
        Seq::new((width - s.len()) as nat, |i: int| '0') + s
    } else {
        s
    }
}

/// Width of the page-number part of file names for `page_count` pages: the number
/// of digits of the largest page number (at least that of 1), and at least 3.
pub open spec fn digit_width_spec(page_count: nat) -> nat {
    let last: nat = if page_count <= 1 {
        1
    } else {
        (page_count - 1) as nat
    };
    if decimal(last).len() < 3 {
        3
    } else {
        decimal(last).len()
    }
}

/// File name of page `index` of format `f`, with the page number padded to `width`.
pub open spec fn page_file_name_spec(index: u16, width: nat, f: ImageFormat) -> Seq<char> {
    zero_pad(decimal(index as nat), width) + seq!['.'] + format_extension(f)
}

/// The string of one decimal digit.
fn digit_str(d: u64) -> (r: &'static str)
    requires
        d < 10,
    ensures
        r@ == seq![digit_char(d as nat)],
{
    if d == 0 {
        proof {
            reveal_strlit("0");
        }
        "0"
    } else if d == 1 {
        proof {
            reveal_strlit("1");
        }
        "1"
    } else if d == 2 {
        proof {
            reveal_strlit("2");
        }
        "2"
    } else if d == 3 {
        proof {
            reveal_strlit("3");
        }
        "3"
    } else if d == 4 {
        proof {
            reveal_strlit("4");
        }
        "4"
    } else if d == 5 {
        proof {
            reveal_strlit("5");
        }
        "5"
    } else if d == 6 {
        proof {
            reveal_strlit("6");
        }
        "6"
    } else if d == 7 {
        proof {
            reveal_strlit("7");
        }
        "7"
    } else if d == 8 {
        proof {
            reveal_strlit("8");
        }
        "8"
    } else {
        proof {
            reveal_strlit("9");
        }
        "9"
    }
}

/// Appends the decimal digits of `n`.
pub(crate) fn append_decimal(out: &mut String, n: u128)
    ensures
        final(out)@ == old(out)@ + decimal(n as nat),
    decreases n,
{
    if n >= 10 {
        append_decimal(out, n / 10);
    }
    out.append(digit_str((n % 10) as u64));
    assert(out@ =~= old(out)@ + decimal(n as nat));
}

/// Number of decimal digits of `n`.
fn decimal_len(n: u64) -> (r: usize)
    ensures
        r == decimal(n as nat).len(),
    decreases n,
{
    if n < 10 {
        1
    } else {
        let r = decimal_len(n / 10);
        proof {
            assert(decimal((n / 10) as nat).len() <= 20) by {
                lemma_decimal_len_bound(n as nat / 10);
            }
        }
        r + 1
    }
}

proof fn lemma_decimal_len_bound(n: nat)
    requires
        n < 0x1_0000_0000_0000_0000,
    ensures
        decimal(n).len() <= 20,
{
    assert(pow10(20) == 100000000000000000000nat) by {
        reveal_with_fuel(pow10, 21);
    }
    lemma_decimal_len_le(n, 20);
}

proof fn lemma_decimal_len_le(n: nat, k: nat)
    requires
        k >= 1,
        n < pow10(k),
    ensures
        decimal(n).len() <= k,
    decreases k,
{
    if n >= 10 {
        assert(k >= 2) by {
            if k == 1 {
                assert(pow10(1) == 10 * pow10(0));
            }
        }
        assert(n / 10 < pow10((k - 1) as nat)) by {
            assert(pow10(k) == 10 * pow10((k - 1) as nat));
        }
        lemma_decimal_len_le(n / 10, (k - 1) as nat);
    }
}

/// `10^k`.
pub open spec fn pow10(k: nat) -> nat
    decreases k,
{
    if k == 0 {
        1
    } else {
        10 * pow10((k - 1) as nat)
    }
}

/// Width of the page-number part of unpacked file names for `n` pages: enough digits
/// for the largest page number, and at least 3, so names sort in page order.
pub fn digit_width(n: usize) -> (r: usize)
    ensures
        r == digit_width_spec(n as nat),
{
    let last: usize = if n <= 1 {
        1
    } else {
        n - 1
    };
    let d = decimal_len(last as u64);
    if d < 3 {
        3
    } else {
        d
    }
}

/// The file name of page `index` of format `format`: zero-padded page number,
/// a dot and the format's extension.
pub fn page_file_name(index: u16, width: usize, format: ImageFormat) -> (r: String)
    ensures
        r@ == page_file_name_spec(index, width as nat, format),
{
    let mut name = String::new();
    let len = decimal_len(index as u64);
    let mut k: usize = len;
    while k < width
        invariant
            len == decimal(index as nat).len(),
            len <= k <= width || (k == len && width < len),
            name@ == Seq::new((k - len) as nat, |i: int| '0'),
        decreases width - k,
    {
        proof {
            reveal_strlit("0");
        }
        name.append("0");
        k = k + 1;
        assert(name@ =~= Seq::new((k - len) as nat, |i: int| '0'));
    }
    append_decimal(&mut name, index as u128);
    proof {
        reveal_strlit(".");
    }
    name.append(".");
    name.append(format.extension());
    assert(name@ =~= page_file_name_spec(index, width as nat, format));
    name
}

/// One page file to write: its name and its bytes.
pub struct PageFile {
    pub name: String,
    pub data: Vec<u8>,
}

/// Pages `0..k` of `pages` can be sliced out of `data`.
pub open spec fn pages_extractable(data: Seq<u8>, pages: Seq<PageInfo>, k: int) -> bool {
    forall|i: int|
        0 <= i < k ==> #[trigger] extract_spec(data, pages, pages[i].index as int) is Ok
}

/// What unpacking an archive whose index could be read gives: the index, the
/// files of the pages in order up to the first page that cannot be sliced out, and
/// that page's error, if there is one.
pub struct Unpacked {
    pub index: MCZIndex,
    pub files: Vec<PageFile>,
    pub failure: Option<ExtractError>,
}

/// The files that unpacking `data` makes, as `000.<ext>`, `001.<ext>`, ...; the
/// number width is `digit_width` of the page count. Fails when the index cannot be
/// read; when a page cannot be sliced out, the files before it are returned with
/// that page's error, as unpacking writes them before it stops.
pub fn unpack_files(data: &[u8]) -> (r: Result<Unpacked, UnpackError>)
    ensures
        match r {
            Ok(u) => {
                let pages = u.index.pages@;
                let k = u.files@.len() as int;
                &&& parse_index(data@) == Ok::<(u8, Seq<PageInfo>), ParseError>(
                    (u.index.version, pages),
                )
                &&& pages_extractable(data@, pages, k)
                &&& forall|i: int|
                    0 <= i < k ==> {
                        let p = #[trigger] pages[i];
                        &&& u.files@[i].name@ == page_file_name_spec(
                            p.index,
                            digit_width_spec(pages.len()),
                            p.format,
                        )
                        &&& extract_spec(data@, pages, p.index as int) == Ok::<
                            Seq<u8>,
                            ExtractError,
                        >(u.files@[i].data@)
                    }
                &&& match u.failure {
                    None => k == pages.len(),
                    Some(e) => k < pages.len() && extract_spec(
                        data@,
                        pages,
                        pages[k].index as int,
                    ) == Err::<Seq<u8>, ExtractError>(e),
                }
            },
            Err(UnpackError::Parse(e)) => parse_index(data@) == Err::<
                (u8, Seq<PageInfo>),
                ParseError,
            >(e),
            Err(_) => false,
        },
{
    let index = match read_index(data) {
        Ok(ix) => ix,
        Err(e) => return Err(UnpackError::Parse(e)),
    };
    let ghost ps = index.pages@;
    let n = index.pages.len();
    let width = digit_width(n);
    let mut files: Vec<PageFile> = Vec::new();
    let mut i: usize = 0;
    while i < n
        invariant
            ps == index.pages@,
            n == ps.len(),
            i <= n,
            width == digit_width_spec(n as nat),
            parse_index(data@) == Ok::<(u8, Seq<PageInfo>), ParseError>((index.version, ps)),
            pages_extractable(data@, ps, i as int),
            files@.len() == i,
            forall|k: int|
                0 <= k < i ==> {
                    let p = #[trigger] ps[k];
                    &&& files@[k].name@ == page_file_name_spec(p.index, width as nat, p.format)
                    &&& extract_spec(data@, ps, p.index as int) == Ok::<Seq<u8>, ExtractError>(
                        files@[k].data@,
                    )
                },
        decreases n - i,
    {
        let page = index.pages[i];
        let bytes = match extract_page(data, &index, page.index as usize) {
            Ok(b) => b,
            Err(e) => {
                return Ok(Unpacked { index, files, failure: Some(e) });
            },
        };
        let name = page_file_name(page.index, width, page.format);
        files.push(PageFile { name, data: vstd::slice::slice_to_vec(bytes) });
        proof {
            assert forall|k: int| 0 <= k < i + 1 implies #[trigger] extract_spec(
                data@,
                ps,
                ps[k].index as int,
            ) is Ok by {
                if k < i {
                    assert(extract_spec(data@, ps, ps[k].index as int) is Ok);
                }
            }
        }
        i = i + 1;
    }
    Ok(Unpacked { index, files, failure: None })
}

// ---------------------------------------------------------------------------
// File names sort in page order
// ---------------------------------------------------------------------------

/// `a` sorts strictly before `b` (lexicographic order on code points).
pub open spec fn lex_less(a: Seq<char>, b: Seq<char>) -> bool {
    exists|k: int| #[trigger] first_difference_less(a, b, k)
}

/// `a` and `b` agree before position `k`, where `a` has the smaller character.
pub open spec fn first_difference_less(a: Seq<char>, b: Seq<char>, k: int) -> bool {
    0 <= k < a.len() && k < b.len() && a.take(k) == b.take(k) && (a[k] as u32) < (b[k] as u32)
}

/// The last `w` decimal digits of `x`, most significant first.
pub open spec fn fixed_digits(x: nat, w: nat) -> Seq<char>
    decreases w,
{
    if w == 0 {
        Seq::empty()
    } else {
        fixed_digits(x / 10, (w - 1) as nat).push(digit_char(x % 10))
    }
}

proof fn lemma_fixed_digits_zero(w: nat)
    ensures
        fixed_digits(0, w) == Seq::new(w, |i: int| '0'),
    decreases w,
{
    if w > 0 {
        lemma_fixed_digits_zero((w - 1) as nat);
        assert(fixed_digits(0, w) =~= Seq::new(w, |i: int| '0'));
    }
}

/// Zero-padding the decimal digits to a width that holds them gives the fixed-width digits.
proof fn lemma_zero_pad_is_fixed(x: nat, w: nat)
    requires
        decimal(x).len() <= w,
    ensures
        zero_pad(decimal(x), w) == fixed_digits(x, w),
    decreases x,
{
    if x < 10 {
        lemma_fixed_digits_zero((w - 1) as nat);
        assert(zero_pad(decimal(x), w) =~= fixed_digits(x, w));
    } else {
        let inner = decimal(x / 10);
        assert(decimal(x) == inner.push(digit_char(x % 10)));
        lemma_zero_pad_is_fixed(x / 10, (w - 1) as nat);
        assert(zero_pad(decimal(x), w) =~= zero_pad(inner, (w - 1) as nat).push(
            digit_char(x % 10),
        ));
    }
}

proof fn lemma_decimal_len_mono(a: nat, b: nat)
    requires
        a <= b,
    ensures
        decimal(a).len() <= decimal(b).len(),
    decreases b,
{
    if a >= 10 {
        lemma_decimal_len_mono(a / 10, b / 10);
    }
}

proof fn lemma_below_pow10(x: nat)
    ensures
        x < pow10(decimal(x).len()),
    decreases x,
{
    if x >= 10 {
        lemma_below_pow10(x / 10);
        assert(pow10(decimal(x).len()) == 10 * pow10(decimal(x / 10).len()));
    } else {
        assert(pow10(1) == 10 * pow10(0));
    }
}

proof fn lemma_digit_order(a: nat, b: nat)
    requires
        a < b < 10,
    ensures
        (digit_char(a) as u32) < (digit_char(b) as u32),
{
    let t = seq!['0', '1', '2', '3', '4', '5', '6', '7', '8', '9'];
    assert(t[a as int] == digit_char(a));
    assert(t[b as int] == digit_char(b));
    assert('0' as u32 == 48 && '1' as u32 == 49 && '2' as u32 == 50 && '3' as u32 == 51 && '4' as u32
        == 52 && '5' as u32 == 53 && '6' as u32 == 54 && '7' as u32 == 55 && '8' as u32 == 56 && '9' as u32
        == 57);
}

/// Fixed-width digits of smaller numbers sort first.
proof fn lemma_fixed_digits_order(x: nat, y: nat, w: nat)
    requires
        x < y < pow10(w),
    ensures
        fixed_digits(x, w).len() == w,
        fixed_digits(y, w).len() == w,
        exists|k: int|
            k < w && #[trigger] first_difference_less(fixed_digits(x, w), fixed_digits(y, w), k),
    decreases w,
{
    assert(w > 0);
    let w1 = (w - 1) as nat;
    assert(pow10(w) == 10 * pow10(w1));
    let fx = fixed_digits(x, w);
    let fy = fixed_digits(y, w);
    if x / 10 < y / 10 {
        lemma_fixed_digits_order(x / 10, y / 10, w1);
        let k = choose|k: int|
            k < w1 && #[trigger] first_difference_less(
                fixed_digits(x / 10, w1),
                fixed_digits(y / 10, w1),
                k,
            );
        lemma_fixed_digits_len(x, w);
        lemma_fixed_digits_len(y, w);
        assert(fx.take(k) =~= fixed_digits(x / 10, w1).take(k));
        assert(fy.take(k) =~= fixed_digits(y / 10, w1).take(k));
        assert(fx[k] == fixed_digits(x / 10, w1)[k]);
        assert(fy[k] == fixed_digits(y / 10, w1)[k]);
        assert(first_difference_less(fx, fy, k));
    } else {
        assert(x / 10 == y / 10);
        assert(x % 10 < y % 10);
        lemma_digit_order(x % 10, y % 10);
        lemma_fixed_digits_len(x / 10, w1);
        assert(fx.take(w1 as int) =~= fixed_digits(x / 10, w1));
        assert(fy.take(w1 as int) =~= fixed_digits(y / 10, w1));
        assert(fx[w1 as int] == digit_char(x % 10));
        assert(fy[w1 as int] == digit_char(y % 10));
        assert(first_difference_less(fx, fy, w1 as int));
    }
    lemma_fixed_digits_len(x, w);
    lemma_fixed_digits_len(y, w);
}

proof fn lemma_fixed_digits_len(x: nat, w: nat)
    ensures
        fixed_digits(x, w).len() == w,
    decreases w,
{
    if w > 0 {
        lemma_fixed_digits_len(x / 10, (w - 1) as nat);
    }
}

/// For an archive of `n` pages, the unpacked file names sort in page order, whatever
/// the pages' formats: names of lower page numbers come first alphabetically.
pub proof fn lemma_file_names_sort(n: nat, i: u16, j: u16, fi: ImageFormat, fj: ImageFormat)
    requires
        i < j < n,
    ensures
        lex_less(
            page_file_name_spec(i, digit_width_spec(n), fi),
            page_file_name_spec(j, digit_width_spec(n), fj),
        ),
{
    let w = digit_width_spec(n);
    let last: nat = (n - 1) as nat;
    lemma_decimal_len_mono(i as nat, last);
    lemma_decimal_len_mono(j as nat, last);
    lemma_zero_pad_is_fixed(i as nat, w);
    lemma_zero_pad_is_fixed(j as nat, w);
    lemma_below_pow10(j as nat);
    lemma_pow10_mono(decimal(j as nat).len(), w);
    lemma_fixed_digits_order(i as nat, j as nat, w);
    let fx = fixed_digits(i as nat, w);
    let fy = fixed_digits(j as nat, w);
    let k = choose|k: int| k < w && #[trigger] first_difference_less(fx, fy, k);
    let a = page_file_name_spec(i, w, fi);
    let b = page_file_name_spec(j, w, fj);
    assert(a == fx + seq!['.'] + format_extension(fi));
    assert(b == fy + seq!['.'] + format_extension(fj));
    assert(a.take(k) =~= fx.take(k));
    assert(b.take(k) =~= fy.take(k));
    assert(a[k] == fx[k]);
    assert(b[k] == fy[k]);
    assert(first_difference_less(a, b, k));
}

proof fn lemma_pow10_mono(a: nat, b: nat)
    requires
        a <= b,
    ensures
        pow10(a) <= pow10(b),
    decreases b,
{
    if a < b {
        lemma_pow10_mono(a, (b - 1) as nat);
        assert(pow10(b) == 10 * pow10((b - 1) as nat));
    }
}

} // verus!
