//! Recognising JPEG XL files and reading their dimensions from the codestream's
//! size header, so that they can be stored as they are.
//!
//! A JPEG XL file is either a bare codestream (starting `FF 0A`) or an ISO BMFF
//! container (starting with the 12-byte signature box `JXL `) whose `jxlc` box holds
//! the codestream, or whose `jxlp` boxes hold it in parts, each after a 4-byte part
//! index, split at any byte.
use vstd::prelude::*;

verus! {

// ---------------------------------------------------------------------------
// Bits
// ---------------------------------------------------------------------------

/// `2^n`.
pub open spec fn pow2(n: nat) -> nat
    decreases n,
{
    if n == 0 {
        1
    } else {
        2 * pow2((n - 1) as nat)
    }
}

/// Bit number `r` (least significant first) of the bytes from position `base` on.
pub open spec fn bit_at(s: Seq<u8>, base: int, r: int) -> nat {
    ((s[base + r / 8] >> ((r % 8) as u8)) & 1u8) as nat
}

/// The `n`-bit number stored least significant bit first at bit `r` after byte `base`.
#[verifier::opaque]
pub open spec fn bits(s: Seq<u8>, base: int, r: int, n: nat) -> nat
    decreases n,
{
    if n == 0 {
        0
    } else {
        bits(s, base, r, (n - 1) as nat) + pow2((n - 1) as nat) * bit_at(s, base, r + n - 1)
    }
}

proof fn lemma_bit_le_one(b: u8, k: u8)
    requires
        k < 8,
    ensures
        (b >> k) & 1u8 <= 1,
{
    assert((b >> k) & 1u8 <= 1) by (bit_vector)
        requires
            k < 8,
    ;
}

/// Reads `n` bits, least significant first, starting at bit `r` after byte `base`.
fn read_bits(s: &[u8], base: usize, r: usize, n: usize) -> (v: u64)
    requires
        base <= s@.len(),
        n <= 32,
        r <= 1024,
        r + n <= 8 * (s@.len() - base),
    ensures
        v == bits(s@, base as int, r as int, n as nat),
        v < pow2(n as nat),
{
    reveal(bits);
    let len = s.len();
    let mut v: u64 = 0;
    let mut weight: u64 = 1;
    let mut k: usize = 0;
    while k < n
        invariant
            base <= s@.len(),
            len == s@.len(),
            n <= 32,
            r <= 1024,
            r + n <= 8 * (s@.len() - base),
            k <= n,
            weight == pow2(k as nat),
            weight <= 0x1_0000_0000,
            v == bits(s@, base as int, r as int, k as nat),
            v < weight,
        decreases n - k,
    {
        let q = r + k;
        assert(q / 8 < s@.len() - base) by (nonlinear_arith)
            requires
                q < 8 * (s@.len() - base),
        ;
        let off = q / 8;
        assert(base + off < s@.len());
        let byte = s[base + off];
        let sh = (q % 8) as u8;
        let b = (byte >> sh) & 1u8;
        proof {
            lemma_bit_le_one(byte, sh);
            assert(b as nat == bit_at(s@, base as int, (r + k) as int));
            reveal(bits);
            let bk = bits(s@, base as int, r as int, (k + 1) as nat);
            assert(bk == v + pow2(k as nat) * bit_at(s@, base as int, (r + k) as int));
            if b == 1 {
                assert(bit_at(s@, base as int, (r + k) as int) == 1);
                assert(pow2(k as nat) * 1 == pow2(k as nat));
                assert(bk == v + weight);
            } else {
                assert(b == 0);
                assert(bit_at(s@, base as int, (r + k) as int) == 0);
                assert(pow2(k as nat) * 0 == 0);
                assert(bk == v);
            }
            assert(k + 1 <= 32);
            lemma_pow2_le_32((k + 1) as nat);
        }
        if b == 1 {
            v = v + weight;
        }
        weight = weight * 2;
        k = k + 1;
    }
    v
}

proof fn lemma_pow2_le_32(k: nat)
    requires
        k <= 32,
    ensures
        pow2(k) <= 0x1_0000_0000,
    decreases k,
{
    if k > 0 {
        lemma_pow2_le_32((k - 1) as nat);
        lemma_pow2_mono((k - 1) as nat, 31);
        assert(pow2(31) == 0x8000_0000) by {
            reveal_with_fuel(pow2, 32);
        }
    }
}

proof fn lemma_pow2_mono(a: nat, b: nat)
    requires
        a <= b,
    ensures
        pow2(a) <= pow2(b),
    decreases b,
{
    if a < b {
        lemma_pow2_mono(a, (b - 1) as nat);
    }
}

// ---------------------------------------------------------------------------
// The codestream size header
// ---------------------------------------------------------------------------

/// Bit count of the value chosen by a size selector: 9, 13, 18 or 30.
pub open spec fn size_value_bits(selector: nat) -> nat {
    if selector == 0 {
        9
    } else if selector == 1 {
        13
    } else if selector == 2 {
        18
    } else {
        30
    }
}

/// One dimension of the size header at bit `r`, with `e` bits available: for small
/// images five bits of `size / 8 - 1`, otherwise a 2-bit selector and `size - 1` in
/// 9, 13, 18 or 30 bits. Gives the size and the bit position after it.
#[verifier::opaque]
pub open spec fn size_field(s: Seq<u8>, base: int, r: int, e: int, small: bool) -> Option<
    (nat, int),
> {
    if small {
        if r + 5 > e {
            None
        } else {
            Some(((bits(s, base, r, 5) + 1) * 8, r + 5))
        }
    } else if r + 2 > e {
        None
    } else {
        let nb = size_value_bits(bits(s, base, r, 2));
        if r + 2 + nb > e {
            None
        } else {
            Some((bits(s, base, r + 2, nb) + 1, r + 2 + nb))
        }
    }
}

/// The width that aspect ratio code `ratio` (1 to 7) gives for height `y`.
pub open spec fn aspect_width(ratio: nat, y: nat) -> nat {
    if ratio == 1 {
        y
    } else if ratio == 2 {
        y * 12 / 10
    } else if ratio == 3 {
        y * 4 / 3
    } else if ratio == 4 {
        y * 3 / 2
    } else if ratio == 5 {
        y * 16 / 9
    } else if ratio == 6 {
        y * 5 / 4
    } else {
        y * 2
    }
}

/// Number of header bytes after the signature that the size header is read from
/// (it takes at most 9).
pub open spec fn header_window(start: int, end: int) -> int {
    if end - start - 2 < 16 {
        end - start - 2
    } else {
        16
    }
}

/// Width and height from the size header of the codestream that starts at `start`
/// (with its `FF 0A` signature) and ends at `end`: a "small" flag, the height, a 3-bit
/// aspect ratio code, and the width when that code is 0.
pub open spec fn codestream_size(s: Seq<u8>, start: int, end: int) -> Option<(nat, nat)> {
    let base = start + 2;
    let e = 8 * header_window(start, end);
    if e < 1 {
        None
    } else {
        let small = bit_at(s, base, 0) == 1;
        match size_field(s, base, 1, e, small) {
            None => None,
            Some((y, q)) => if q + 3 > e {
                None
            } else {
                let ratio = bits(s, base, q, 3);
                if ratio == 0 {
                    match size_field(s, base, q + 3, e, small) {
                        None => None,
                        Some((x, q2)) => Some((x, y)),
                    }
                } else {
                    Some((aspect_width(ratio, y), y))
                }
            },
        }
    }
}

/// `FF 0A`: the codestream signature at position `i`.
pub open spec fn codestream_signature_at(s: Seq<u8>, i: int) -> bool {
    0 <= i && i + 2 <= s.len() && s[i] == 0xffu8 && s[i + 1] == 0x0au8
}

/// The 12-byte signature box of the container.
pub open spec fn container_signature() -> Seq<u8> {
    seq![0u8, 0u8, 0u8, 0x0cu8, 0x4au8, 0x58u8, 0x4cu8, 0x20u8, 0x0du8, 0x0au8, 0x87u8, 0x0au8]
}

/// `s` is a JPEG XL file: a bare codestream or a container.
pub open spec fn is_jxl(s: Seq<u8>) -> bool {
    codestream_signature_at(s, 0) || (s.len() >= 12 && s.subrange(0, 12) == container_signature())
}

// ---------------------------------------------------------------------------
// The container
// ---------------------------------------------------------------------------

/// Big-endian `u32` at `i`.
pub open spec fn be32(s: Seq<u8>, i: int) -> int {
    s[i] * 0x100_0000 + s[i + 1] * 0x1_0000 + s[i + 2] * 0x100 + s[i + 3]
}

/// Big-endian `u64` at `i`.
pub open spec fn be64(s: Seq<u8>, i: int) -> int {
    be32(s, i) * 0x1_0000_0000 + be32(s, i + 4)
}

/// "jxlc": a box holding the whole codestream.
pub open spec fn jxlc_tag() -> Seq<u8> {
    seq![0x6au8, 0x78u8, 0x6cu8, 0x63u8]
}

/// "jxlp": a box holding a part of the codestream after a 4-byte part index.
pub open spec fn jxlp_tag() -> Seq<u8> {
    seq![0x6au8, 0x78u8, 0x6cu8, 0x70u8]
}

/// Header length and total length of the box at `pos`, if its header is there: a
/// 32-bit size (1: a 64-bit size follows; 0: the box runs to the end of the data).
pub open spec fn box_extent(s: Seq<u8>, pos: int) -> Option<(int, int)> {
    if pos + 8 > s.len() {
        None
    } else if be32(s, pos) == 1 {
        if pos + 16 > s.len() {
            None
        } else {
            Some((16, be64(s, pos + 8)))
        }
    } else if be32(s, pos) == 0 {
        Some((8, s.len() - pos))
    } else {
        Some((8, be32(s, pos)))
    }
}

/// Bytes of the codestream that the size header is read from: the signature and at
/// most 16 bytes after it.
pub open spec fn head_len() -> nat {
    18
}

/// The first `k` bytes of `x`, or all of it if it is shorter.
pub open spec fn take_upto(x: Seq<u8>, k: int) -> Seq<u8> {
    if x.len() <= k {
        x
    } else {
        x.take(k)
    }
}

/// The start of the codestream of a container, gathered while scanning the boxes
/// from `pos` onto `acc`, up to `head_len` bytes. The codestream is the payload of a
/// `jxlc` box, or the payloads of the `jxlp` boxes (each after its 4-byte part index)
/// joined in file order, so that a codestream split at any byte is read whole. The
/// scan stops with what it has at the end of the data or at a malformed box.
pub open spec fn codestream_head(s: Seq<u8>, pos: int, acc: Seq<u8>) -> Seq<u8>
    decreases s.len() - pos,
{
    if pos < 0 || acc.len() >= head_len() {
        acc
    } else {
        match box_extent(s, pos) {
            None => acc,
            Some((hdr, size)) => {
                let end = if pos + size < s.len() {
                    pos + size
                } else {
                    s.len() as int
                };
                let room = head_len() - acc.len();
                if size < hdr {
                    acc
                } else if s.subrange(pos + 4, pos + 8) == jxlc_tag() {
                    acc + take_upto(s.subrange(pos + hdr, end), room)
                } else {
                    let acc2 = if s.subrange(pos + 4, pos + 8) == jxlp_tag() && pos + hdr + 4
                        <= end {
                        acc + take_upto(s.subrange(pos + hdr + 4, end), room)
                    } else {
                        acc
                    };
                    if pos + size >= s.len() {
                        acc2
                    } else {
                        codestream_head(s, pos + size, acc2)
                    }
                }
            },
        }
    }
}

/// Width and height of the JPEG XL image in `s`, if its size header can be read.
pub open spec fn jxl_size(s: Seq<u8>) -> Option<(nat, nat)> {
    if codestream_signature_at(s, 0) {
        codestream_size(s, 0, s.len() as int)
    } else if s.len() >= 12 && s.subrange(0, 12) == container_signature() {
        let h = codestream_head(s, 0, Seq::empty());
        if codestream_signature_at(h, 0) {
            codestream_size(h, 0, h.len() as int)
        } else {
            None
        }
    } else {
        None
    }
}

// ---------------------------------------------------------------------------
// Reading
// ---------------------------------------------------------------------------

fn size_value_bits_exec(selector: u64) -> (r: usize)
    ensures
        r == size_value_bits(selector as nat),
{
    if selector == 0 {
        9
    } else if selector == 1 {
        13
    } else if selector == 2 {
        18
    } else {
        30
    }
}

fn read_size_field(s: &[u8], base: usize, r: usize, e: usize, small: bool) -> (res: Option<
    (u64, usize),
>)
    requires
        base <= s@.len(),
        e <= 128,
        e <= 8 * (s@.len() - base),
        r <= 128,
    ensures
        match res {
            Some((v, q)) => size_field(s@, base as int, r as int, e as int, small) == Some(
                (v as nat, q as int),
            ) && v <= 0x4000_0000 && q <= e,
            None => size_field(s@, base as int, r as int, e as int, small) is None,
        },
{
    reveal(size_field);
    if small {
        if r + 5 > e {
            None
        } else {
            let v = read_bits(s, base, r, 5);
            proof {
                assert(pow2(5) == 32) by {
                    reveal_with_fuel(pow2, 6);
                }
            }
            Some(((v + 1) * 8, r + 5))
        }
    } else if r + 2 > e {
        None
    } else {
        let sel = read_bits(s, base, r, 2);
        let nb = size_value_bits_exec(sel);
        if r + 2 + nb > e {
            None
        } else {
            let v = read_bits(s, base, r + 2, nb);
            proof {
                lemma_pow2_mono(nb as nat, 30);
                assert(pow2(30) == 0x4000_0000) by {
                    reveal_with_fuel(pow2, 31);
                }
            }
            Some((v + 1, r + 2 + nb))
        }
    }
}

fn aspect_width_exec(ratio: u64, y: u64) -> (x: u64)
    requires
        1 <= ratio <= 7,
        y <= 0x4000_0000,
    ensures
        x == aspect_width(ratio as nat, y as nat),
        x <= 0x8000_0000,
{
    if ratio == 1 {
        y
    } else if ratio == 2 {
        y * 12 / 10
    } else if ratio == 3 {
        y * 4 / 3
    } else if ratio == 4 {
        y * 3 / 2
    } else if ratio == 5 {
        y * 16 / 9
    } else if ratio == 6 {
        y * 5 / 4
    } else {
        y * 2
    }
}

/// Width and height from the size header of the codestream at `start..end`.
#[verifier::rlimit(40)]
fn read_codestream_size(s: &[u8], start: usize, end: usize) -> (r: Option<(u32, u32)>)
    requires
        start + 2 <= end <= s@.len(),
    ensures
        match r {
            Some((x, y)) => codestream_size(s@, start as int, end as int) == Some(
                (x as nat, y as nat),
            ),
            None => codestream_size(s@, start as int, end as int) is None,
        },
{
    let base = start + 2;
    let window = if end - start - 2 < 16 {
        end - start - 2
    } else {
        16
    };
    let e = 8 * window;
    if e < 1 {
        return None;
    }
    let small = read_bits(s, base, 0, 1) == 1;
    proof {
        reveal_with_fuel(bits, 2);
        assert(bits(s@, base as int, 0, 0) == 0);
        assert(pow2(0) == 1);
        assert(bits(s@, base as int, 0, 1) == 0 + pow2(0) * bit_at(s@, base as int, 0));
        assert(bits(s@, base as int, 0, 1) == bit_at(s@, base as int, 0));
        assert(e <= 128);
    }
    match read_size_field(s, base, 1, e, small) {
        None => None,
        Some((y, q)) => {
            if q + 3 > e {
                return None;
            }
            let ratio = read_bits(s, base, q, 3);
            proof {
                assert(pow2(3) == 8) by {
                    reveal_with_fuel(pow2, 4);
                }
            }
            if ratio == 0 {
                match read_size_field(s, base, q + 3, e, small) {
                    None => None,
                    Some((x, q2)) => Some((x as u32, y as u32)),
                }
            } else {
                let x = aspect_width_exec(ratio, y);
                Some((x as u32, y as u32))
            }
        },
    }
}

fn read_be32(s: &[u8], i: usize) -> (r: u64)
    requires
        i + 4 <= s@.len(),
    ensures
        r == be32(s@, i as int),
{
    (s[i] as u64) * 0x100_0000 + (s[i + 1] as u64) * 0x1_0000 + (s[i + 2] as u64) * 0x100 + (s[i
        + 3] as u64)
}

/// Whether the four bytes at `pos` are `a b c d`.
fn tag_is(s: &[u8], pos: usize, a: u8, b: u8, c: u8, d: u8) -> (r: bool)
    requires
        pos + 4 <= s@.len(),
    ensures
        r == (s@.subrange(pos as int, pos + 4) == seq![a, b, c, d]),
{
    let r = s[pos] == a && s[pos + 1] == b && s[pos + 2] == c && s[pos + 3] == d;
    proof {
        let sub = s@.subrange(pos as int, pos + 4);
        if r {
            assert(sub =~= seq![a, b, c, d]);
        } else if sub == seq![a, b, c, d] {
            assert(sub[0] == a && sub[1] == b && sub[2] == c && sub[3] == d);
        }
    }
    r
}

/// Appends the bytes `s[from..to]`, at most `room` of them.
fn append_upto(acc: &mut Vec<u8>, s: &[u8], from: usize, to: usize, room: usize)
    requires
        from <= to <= s@.len(),
    ensures
        final(acc)@ == old(acc)@ + take_upto(s@.subrange(from as int, to as int), room as int),
{
    let n = if to - from <= room {
        to - from
    } else {
        room
    };
    let mut i: usize = 0;
    while i < n
        invariant
            from <= to <= s@.len(),
            n <= to - from,
            i <= n,
            acc@ == old(acc)@ + s@.subrange(from as int, from + i),
        decreases n - i,
    {
        acc.push(s[from + i]);
        i = i + 1;
        assert(acc@ =~= old(acc)@ + s@.subrange(from as int, from + i));
    }
    assert(s@.subrange(from as int, from + n) =~= take_upto(
        s@.subrange(from as int, to as int),
        room as int,
    ));
}

/// Gathers the start of a container's codestream, scanning its boxes from the front.
fn collect_head(s: &[u8]) -> (acc: Vec<u8>)
    ensures
        acc@ == codestream_head(s@, 0, Seq::empty()),
        acc@.len() <= head_len(),
{
    let len = s.len();
    let mut acc: Vec<u8> = Vec::new();
    let mut pos: usize = 0;
    let ghost target = codestream_head(s@, 0, Seq::empty());
    assert(acc@ =~= Seq::<u8>::empty());
    loop
        invariant_except_break
            pos <= len,
            codestream_head(s@, pos as int, acc@) == target,
        invariant
            len == s@.len(),
            acc@.len() <= head_len(),
        ensures
            acc@ == target,
        decreases len - pos,
    {
        if acc.len() >= 18 {
            break;
        }
        if len < 8 || pos > len - 8 {
            break;
        }
        let room = 18 - acc.len();
        let lbox = read_be32(s, pos);
        let hdr: u64;
        let size: u128;
        if lbox == 1 {
            if len < 16 || pos > len - 16 {
                break;
            }
            hdr = 16;
            size = (read_be32(s, pos + 8) as u128) * 0x1_0000_0000 + (read_be32(s, pos + 12) as u128);
        } else if lbox == 0 {
            hdr = 8;
            size = (len - pos) as u128;
        } else {
            hdr = 8;
            size = lbox as u128;
        }
        assert(box_extent(s@, pos as int) == Some((hdr as int, size as int)));
        if size < hdr as u128 {
            break;
        }
        let end: usize = if size < (len - pos) as u128 {
            pos + size as usize
        } else {
            len
        };
        if tag_is(s, pos + 4, 0x6a, 0x78, 0x6c, 0x63) {
            append_upto(&mut acc, s, pos + hdr as usize, end, room);
            break;
        }
        if tag_is(s, pos + 4, 0x6a, 0x78, 0x6c, 0x70) && (hdr as usize) + 4 <= end - pos {
            append_upto(&mut acc, s, pos + hdr as usize + 4, end, room);
        }
        if size >= (len - pos) as u128 {
            break;
        }
        pos = pos + size as usize;
    }
    acc
}

/// Width and height of a JPEG XL image, read from its codestream's size header;
/// `None` where `s` is not JPEG XL or the header cannot be read.
pub fn jxl_dimensions(s: &[u8]) -> (r: Option<(u32, u32)>)
    ensures
        match r {
            Some((x, y)) => jxl_size(s@) == Some((x as nat, y as nat)),
            None => jxl_size(s@) is None,
        },
{
    let len = s.len();
    if len >= 2 && s[0] == 0xff && s[1] == 0x0a {
        return read_codestream_size(s, 0, len);
    }
    if len >= 12 && is_container(s) {
        let head = collect_head(s);
        if head.len() >= 2 && head[0] == 0xff && head[1] == 0x0a {
            read_codestream_size(head.as_slice(), 0, head.len())
        } else {
            None
        }
    } else {
        None
    }
}

/// Whether `s` starts with the container's signature box.
fn is_container(s: &[u8]) -> (r: bool)
    requires
        s@.len() >= 12,
    ensures
        r == (s@.subrange(0, 12) == container_signature()),
{
    let sig: [u8; 12] = [0, 0, 0, 0x0c, 0x4a, 0x58, 0x4c, 0x20, 0x0d, 0x0a, 0x87, 0x0a];
    assert(sig@ =~= container_signature());
    crate::encode::bytes_eq(&s[0..12], sig.as_slice())
}

/// Whether `s` is a JPEG XL file: a bare codestream or a container.
pub fn is_jxl_file(s: &[u8]) -> (r: bool)
    ensures
        r == is_jxl(s@),
{
    (s.len() >= 2 && s[0] == 0xff && s[1] == 0x0a) || (s.len() >= 12 && is_container(s))
}

} // verus!
