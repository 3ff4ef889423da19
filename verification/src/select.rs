//! Choosing, from the file names of a directory, the source images of a pack and
//! their order: image extensions only, sorted by name.
use vstd::prelude::*;

use crate::encode::{as_chars, bytes_eq, is_image_extension, is_image_extension_spec, lemma_image_extensions};
use crate::pack::PackError;

verus! {

// ---------------------------------------------------------------------------
// Byte-string order
// ---------------------------------------------------------------------------

/// `a` sorts strictly before `b`, byte by byte, a proper prefix first.
pub open spec fn bytes_lt(a: Seq<u8>, b: Seq<u8>) -> bool
    decreases a.len(),
{
    if a.len() == 0 {
        b.len() > 0
    } else if b.len() == 0 {
        false
    } else if a[0] < b[0] {
        true
    } else if a[0] > b[0] {
        false
    } else {
        bytes_lt(a.drop_first(), b.drop_first())
    }
}

proof fn lemma_bytes_lt_irreflexive(a: Seq<u8>)
    ensures
        !bytes_lt(a, a),
    decreases a.len(),
{
    if a.len() > 0 {
        lemma_bytes_lt_irreflexive(a.drop_first());
    }
}

proof fn lemma_bytes_lt_transitive(a: Seq<u8>, b: Seq<u8>, c: Seq<u8>)
    requires
        bytes_lt(a, b),
        bytes_lt(b, c),
    ensures
        bytes_lt(a, c),
    decreases a.len(),
{
    if a.len() > 0 && b.len() > 0 && c.len() > 0 {
        if a[0] == b[0] && b[0] == c[0] {
            lemma_bytes_lt_transitive(a.drop_first(), b.drop_first(), c.drop_first());
        }
    }
}

proof fn lemma_bytes_lt_total(a: Seq<u8>, b: Seq<u8>)
    ensures
        a == b || bytes_lt(a, b) || bytes_lt(b, a),
    decreases a.len(),
{
    if a.len() > 0 && b.len() > 0 && a[0] == b[0] {
        lemma_bytes_lt_total(a.drop_first(), b.drop_first());
        if a.drop_first() == b.drop_first() {
            assert(a =~= seq![a[0]] + a.drop_first());
            assert(b =~= seq![b[0]] + b.drop_first());
        }
    } else if a.len() == 0 && b.len() == 0 {
        assert(a =~= b);
    }
}

proof fn lemma_bytes_lt_asymmetric(a: Seq<u8>, b: Seq<u8>)
    requires
        bytes_lt(a, b),
    ensures
        !bytes_lt(b, a),
{
    if bytes_lt(b, a) {
        lemma_bytes_lt_transitive(a, b, a);
        lemma_bytes_lt_irreflexive(a);
    }
}

proof fn lemma_bytes_lt_skip(a: Seq<u8>, b: Seq<u8>, i: int)
    requires
        0 <= i < a.len(),
        i < b.len(),
        a[i] == b[i],
    ensures
        bytes_lt(a.skip(i), b.skip(i)) == bytes_lt(a.skip(i + 1), b.skip(i + 1)),
{
    assert(a.skip(i).drop_first() =~= a.skip(i + 1));
    assert(b.skip(i).drop_first() =~= b.skip(i + 1));
}

/// Whether `a` sorts strictly before `b`.
fn bytes_less(a: &[u8], b: &[u8]) -> (r: bool)
    ensures
        r == bytes_lt(a@, b@),
{
    let mut i: usize = 0;
    assert(a@.skip(0) =~= a@);
    assert(b@.skip(0) =~= b@);
    while i < a.len() && i < b.len()
        invariant
            i <= a@.len(),
            i <= b@.len(),
            bytes_lt(a@, b@) == bytes_lt(a@.skip(i as int), b@.skip(i as int)),
        decreases a@.len() - i,
    {
        if a[i] < b[i] {
            return true;
        }
        if a[i] > b[i] {
            return false;
        }
        proof {
            lemma_bytes_lt_skip(a@, b@, i as int);
        }
        i = i + 1;
    }
    i < b.len()
}

// ---------------------------------------------------------------------------
// Extensions
// ---------------------------------------------------------------------------

/// Position of the last '.' in `name` at or before `i - 1`, if any.
pub open spec fn last_dot_before(name: Seq<u8>, i: int) -> Option<int>
    decreases i,
{
    if i <= 0 {
        None
    } else if name[i - 1] == 0x2eu8 {
        Some(i - 1)
    } else {
        last_dot_before(name, i - 1)
    }
}

/// The extension of a file name as paths define it: what follows the last '.',
/// unless that dot is the first character or the name is "..".
pub open spec fn extension_of(name: Seq<u8>) -> Option<Seq<u8>> {
    if name == seq![0x2eu8, 0x2eu8] {
        None
    } else {
        match last_dot_before(name, name.len() as int) {
            None => None,
            Some(p) => if p == 0 {
                None
            } else {
                Some(name.subrange(p + 1, name.len() as int))
            },
        }
    }
}

/// A file of this name is a page source.
pub open spec fn is_source_name(name: Seq<u8>) -> bool {
    match extension_of(name) {
        Some(ext) => is_image_extension_spec(ext),
        None => false,
    }
}

/// A file is a page source exactly when its name has an extension (after a last dot
/// that is not the name's first character) that is one of `png`, `jpg`, `jpeg`,
/// `webp`, `jxl`, `bmp` or `tiff`, spelled byte for byte; so `ComicInfo.xml`,
/// `notes.txt` or `cover.PNG` are never selected as pages.
pub proof fn lemma_source_names(name: Seq<u8>)
    ensures
        is_source_name(name) <==> (extension_of(name) matches Some(ext) && {
            let t = as_chars(ext);
            ||| t == "png"@
            ||| t == "jpg"@
            ||| t == "jpeg"@
            ||| t == "webp"@
            ||| t == "jxl"@
            ||| t == "bmp"@
            ||| t == "tiff"@
        }),
{
    if let Some(ext) = extension_of(name) {
        lemma_image_extensions(ext);
    }
}

/// Whether a file of this name is a page source.
pub fn is_source_name_exec(name: &[u8]) -> (r: bool)
    ensures
        r == is_source_name(name@),
{
    let dots: [u8; 2] = [0x2e, 0x2e];
    assert(dots@ =~= seq![0x2eu8, 0x2eu8]);
    if bytes_eq(name, dots.as_slice()) {
        return false;
    }
    let mut i: usize = name.len();
    while i > 0 && name[i - 1] != 0x2e
        invariant
            i <= name@.len(),
            last_dot_before(name@, name@.len() as int) == last_dot_before(name@, i as int),
        decreases i,
    {
        i = i - 1;
    }
    if i == 0 {
        return false;
    }
    let p = i - 1;
    if p == 0 {
        return false;
    }
    is_image_extension(&name[p + 1..name.len()])
}

// ---------------------------------------------------------------------------
// Selection
// ---------------------------------------------------------------------------

/// Entry `a` comes before entry `b`: by name, and by position for equal names.
pub open spec fn entry_before(names: Seq<Vec<u8>>, a: int, b: int) -> bool {
    bytes_lt(names[a]@, names[b]@) || (names[a]@ == names[b]@ && a < b)
}

/// `order` lists positions of `names` in strictly increasing `entry_before` order.
pub open spec fn sorted_entries(names: Seq<Vec<u8>>, order: Seq<usize>) -> bool {
    forall|k1: int, k2: int|
        0 <= k1 < k2 < order.len() ==> entry_before(
            names,
            #[trigger] order[k1] as int,
            #[trigger] order[k2] as int,
        )
}

/// `order` holds exactly the positions below `n` whose names are page sources.
pub open spec fn selects_sources(names: Seq<Vec<u8>>, order: Seq<usize>, n: int) -> bool {
    &&& forall|k: int|
        0 <= k < order.len() ==> #[trigger] order[k] < n && is_source_name(names[order[k] as int]@)
    &&& forall|i: int|
        0 <= i < n && is_source_name(names[i]@) ==> exists|k: int|
            0 <= k < order.len() && #[trigger] order[k] == i
}

proof fn lemma_entry_before_transitive(names: Seq<Vec<u8>>, a: int, b: int, c: int)
    requires
        entry_before(names, a, b),
        entry_before(names, b, c),
    ensures
        entry_before(names, a, c),
{
    if bytes_lt(names[a]@, names[b]@) && bytes_lt(names[b]@, names[c]@) {
        lemma_bytes_lt_transitive(names[a]@, names[b]@, names[c]@);
    }
}

/// Inserts `x`, the position after all those in `order`, at its place by name.
fn insert_sorted(names: &Vec<Vec<u8>>, order: &mut Vec<usize>, x: usize)
    requires
        x < names@.len(),
        sorted_entries(names@, old(order)@),
        forall|k: int| 0 <= k < old(order)@.len() ==> #[trigger] old(order)@[k] < x,
    ensures
        sorted_entries(names@, final(order)@),
        final(order)@.len() == old(order)@.len() + 1,
        forall|k: int|
            0 <= k < final(order)@.len() ==> (#[trigger] final(order)@[k] == x || old(
                order,
            )@.contains(final(order)@[k])),
        final(order)@.contains(x),
        forall|k: int| 0 <= k < old(order)@.len() ==> final(order)@.contains(#[trigger] old(order)@[k]),
{
    let ghost o = order@;
    let mut p: usize = 0;
    while p < order.len() && !bytes_less(names[x].as_slice(), names[order[p]].as_slice())
        invariant
            order@ == o,
            p <= o.len(),
            x < names@.len(),
            forall|k: int| 0 <= k < o.len() ==> #[trigger] o[k] < x,
            forall|k: int| 0 <= k < o.len() ==> #[trigger] o[k] < names@.len(),
            forall|k: int| 0 <= k < p ==> entry_before(names@, #[trigger] o[k] as int, x as int),
        decreases o.len() - p,
    {
        proof {
            let a = names@[o[p as int] as int]@;
            let b = names@[x as int]@;
            lemma_bytes_lt_total(a, b);
        }
        p = p + 1;
    }
    proof {
        if p < o.len() {
            lemma_bytes_lt_asymmetric(names@[x as int]@, names@[o[p as int] as int]@);
            assert(entry_before(names@, x as int, o[p as int] as int));
            assert forall|k: int| p <= k < o.len() implies entry_before(
                names@,
                x as int,
                #[trigger] o[k] as int,
            ) by {
                if k > p {
                    assert(entry_before(names@, o[p as int] as int, o[k] as int));
                    lemma_entry_before_transitive(names@, x as int, o[p as int] as int, o[k] as int);
                }
            }
        }
    }
    order.insert(p, x);
    proof {
        let n = order@;
        assert(n =~= o.subrange(0, p as int).push(x as usize) + o.subrange(p as int, o.len() as int));
        assert(n[p as int] == x);
        assert forall|k1: int, k2: int| 0 <= k1 < k2 < n.len() implies entry_before(
            names@,
            #[trigger] n[k1] as int,
            #[trigger] n[k2] as int,
        ) by {
            if k2 < p {
                assert(n[k1] == o[k1] && n[k2] == o[k2]);
            } else if k2 == p {
                assert(n[k1] == o[k1]);
            } else if k1 < p {
                assert(n[k1] == o[k1] && n[k2] == o[k2 - 1]);
                assert(entry_before(names@, o[k1] as int, x as int));
                assert(entry_before(names@, x as int, o[k2 - 1] as int));
                lemma_entry_before_transitive(names@, o[k1] as int, x as int, o[k2 - 1] as int);
            } else if k1 == p {
                assert(n[k2] == o[k2 - 1]);
            } else {
                assert(n[k1] == o[k1 - 1] && n[k2] == o[k2 - 1]);
            }
        }
        assert forall|k: int| 0 <= k < n.len() implies (#[trigger] n[k] == x || o.contains(n[k])) by {
            if k < p {
                assert(n[k] == o[k]);
            } else if k > p {
                assert(n[k] == o[k - 1]);
            }
        }
        assert(n.contains(x));
        assert forall|k: int| 0 <= k < o.len() implies n.contains(#[trigger] o[k]) by {
            if k < p {
                assert(n[k] == o[k]);
            } else {
                assert(n[k + 1] == o[k]);
            }
        }
    }
}

/// The page sources among the file names `names`, as positions in `names`, sorted
/// by name (byte order) and, for equal names, by position; `NoImages` when there
/// is none.
pub fn select_pages(names: &Vec<Vec<u8>>) -> (r: Result<Vec<usize>, PackError>)
    ensures
        match r {
            Ok(order) => {
                &&& order@.len() > 0
                &&& selects_sources(names@, order@, names@.len() as int)
                &&& sorted_entries(names@, order@)
            },
            Err(e) => {
                &&& e is NoImages
                &&& forall|i: int| 0 <= i < names@.len() ==> !is_source_name(#[trigger] names@[i]@)
            },
        },
{
    let n = names.len();
    let mut order: Vec<usize> = Vec::new();
    let mut i: usize = 0;
    while i < n
        invariant
            n == names@.len(),
            i <= n,
            selects_sources(names@, order@, i as int),
            sorted_entries(names@, order@),
        decreases n - i,
    {
        if is_source_name_exec(names[i].as_slice()) {
            let ghost before = order@;
            insert_sorted(names, &mut order, i);
            proof {
                assert forall|k: int| 0 <= k < order@.len() implies #[trigger] order@[k] < i + 1
                    && is_source_name(names@[order@[k] as int]@) by {
                    if order@[k] != i {
                        let j = choose|j: int| 0 <= j < before.len() && before[j] == order@[k];
                        assert(before[j] < i);
                    }
                }
                assert forall|m: int|
                    0 <= m < i + 1 && is_source_name(names@[m]@) implies exists|k: int|
                    0 <= k < order@.len() && #[trigger] order@[k] == m by {
                    if m < i {
                        let k0 = choose|k: int| 0 <= k < before.len() && #[trigger] before[k] == m;
                        assert(order@.contains(before[k0]));
                    } else {
                        assert(order@.contains(i));
                    }
                }
            }
        } else {
            proof {
                assert forall|m: int|
                    0 <= m < i + 1 && is_source_name(names@[m]@) implies exists|k: int|
                    0 <= k < order@.len() && #[trigger] order@[k] == m by {
                    assert(m < i);
                }
            }
        }
        i = i + 1;
    }
    if order.len() == 0 {
        proof {
            assert forall|m: int| 0 <= m < names@.len() implies !is_source_name(
                #[trigger] names@[m]@,
            ) by {
                if is_source_name(names@[m]@) {
                    let k = choose|k: int| 0 <= k < order@.len() && #[trigger] order@[k] == m;
                }
            }
        }
        return Err(PackError::NoImages);
    }
    Ok(order)
}

} // verus!
