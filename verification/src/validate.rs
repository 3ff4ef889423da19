//! Structural validation of an archive.
use vstd::prelude::*;

use crate::format::{
    extract_page, extract_spec, parse_index, read_index, ExtractError, PageInfo, ParseError,
};

verus! {

/// Validation report for an archive.
#[derive(Debug, Clone, Copy)]
pub struct ValidateReport {
    pub version: u8,
    pub page_count: u16,
    pub total_bytes: usize,
}

/// Why an archive is not valid.
#[derive(Debug, Clone, Copy, PartialEq, Eq, Structural)]
pub enum ValidateError {
    /// The header or the index cannot be read.
    Parse(ParseError),
    /// The page with this number cannot be sliced out of the data.
    Extract(u16, ExtractError),
    /// The page with this number has zero width or height.
    ZeroDimensions(u16),
}

/// What is wrong with page record `i`, if anything: its bytes cannot be sliced
/// out of `data`, or it has a zero dimension (checked in that order).
pub open spec fn page_problem(data: Seq<u8>, pages: Seq<PageInfo>, i: int) -> Option<
    ValidateError,
> {
    let p = pages[i];
    match extract_spec(data, pages, p.index as int) {
        Err(e) => Some(ValidateError::Extract(p.index, e)),
        Ok(_) => if p.width == 0 || p.height == 0 {
            Some(ValidateError::ZeroDimensions(p.index))
        } else {
            None
        },
    }
}

/// Page records `0..k` have no problem.
pub open spec fn pages_sound(data: Seq<u8>, pages: Seq<PageInfo>, k: int) -> bool {
    forall|i: int| 0 <= i < k ==> #[trigger] page_problem(data, pages, i) is None
}

/// The first page record with a problem.
pub open spec fn first_problem(data: Seq<u8>, pages: Seq<PageInfo>) -> int {
    choose|j: int|
        0 <= j < pages.len() && pages_sound(data, pages, j) && page_problem(data, pages, j) is Some
}

/// What validating `data` gives.
pub open spec fn validate_spec(data: Seq<u8>) -> Result<ValidateReport, ValidateError> {
    match parse_index(data) {
        Err(e) => Err(ValidateError::Parse(e)),
        Ok((version, pages)) => if !pages_sound(data, pages, pages.len() as int) {
            Err(page_problem(data, pages, first_problem(data, pages))->0)
        } else {
            Ok(
                ValidateReport {
                    version,
                    page_count: pages.len() as u16,
                    total_bytes: data.len() as usize,
                },
            )
        },
    }
}

proof fn lemma_first_problem_is(data: Seq<u8>, pages: Seq<PageInfo>, i: int)
    requires
        0 <= i < pages.len(),
        pages_sound(data, pages, i),
        page_problem(data, pages, i) is Some,
    ensures
        first_problem(data, pages) == i,
{
    let j = first_problem(data, pages);
    assert(0 <= j < pages.len() && pages_sound(data, pages, j) && page_problem(data, pages, j) is Some);
    if j < i {
        assert(page_problem(data, pages, j) is None);
    } else if j > i {
        assert(page_problem(data, pages, i) is None);
    }
}

/// An archive validates only if its index reads and every page record is sound:
/// its bytes can be sliced out and neither its width nor its height is zero. The
/// report then gives the version, the number of records and the archive's length.
pub proof fn lemma_valid_pages_nonzero(data: Seq<u8>)
    ensures
        validate_spec(data) is Ok ==> {
            &&& parse_index(data) is Ok
            &&& forall|i: int|
                0 <= i < parse_index(data)->Ok_0.1.len() ==> {
                    let p = #[trigger] parse_index(data)->Ok_0.1[i];
                    &&& p.width != 0
                    &&& p.height != 0
                    &&& extract_spec(data, parse_index(data)->Ok_0.1, p.index as int) is Ok
                }
            &&& validate_spec(data)->Ok_0 == ValidateReport {
                version: parse_index(data)->Ok_0.0,
                page_count: parse_index(data)->Ok_0.1.len() as u16,
                total_bytes: data.len() as usize,
            }
        },
{
    if validate_spec(data) is Ok {
        let pages = parse_index(data)->Ok_0.1;
        assert forall|i: int| 0 <= i < pages.len() implies {
            let p = #[trigger] pages[i];
            &&& p.width != 0
            &&& p.height != 0
            &&& extract_spec(data, pages, p.index as int) is Ok
        } by {
            assert(page_problem(data, pages, i) is None);
        }
    }
}

/// A page record with a zero width or height makes validation fail: where the
/// records before it are sound and its own bytes can be sliced out, the error is
/// `ZeroDimensions` with its page number.
pub proof fn lemma_zero_dimension_rejected(data: Seq<u8>, j: int)
    requires
        parse_index(data) is Ok,
        0 <= j < parse_index(data)->Ok_0.1.len(),
        parse_index(data)->Ok_0.1[j].width == 0 || parse_index(data)->Ok_0.1[j].height == 0,
    ensures
        validate_spec(data) is Err,
        ({
            let pages = parse_index(data)->Ok_0.1;
            (forall|i: int|
                0 <= i < j ==> {
                    let p = #[trigger] pages[i];
                    &&& p.width != 0
                    &&& p.height != 0
                    &&& extract_spec(data, pages, p.index as int) is Ok
                }) && extract_spec(data, pages, pages[j].index as int) is Ok
                ==> validate_spec(data) == Err::<ValidateReport, ValidateError>(
                ValidateError::ZeroDimensions(pages[j].index),
            )
        }),
{
    let pages = parse_index(data)->Ok_0.1;
    assert(page_problem(data, pages, j) is Some);
    assert(!pages_sound(data, pages, pages.len() as int));
    if (forall|i: int|
        0 <= i < j ==> {
            let p = #[trigger] pages[i];
            &&& p.width != 0
            &&& p.height != 0
            &&& extract_spec(data, pages, p.index as int) is Ok
        }) && extract_spec(data, pages, pages[j].index as int) is Ok {
        assert forall|i: int| 0 <= i < j implies #[trigger] page_problem(data, pages, i) is None by {
            let p = pages[i];
            assert(p.width != 0 && p.height != 0 && extract_spec(data, pages, p.index as int) is Ok);
        }
        lemma_first_problem_is(data, pages, j);
    }
}

/// Structural validation: the header parses, every page's bytes lie within the
/// data, and no page has a zero dimension. Pixel data is not decoded.
pub fn validate(data: &[u8]) -> (r: Result<ValidateReport, ValidateError>)
    ensures
        r == validate_spec(data@),
{
    let index = match read_index(data) {
        Ok(ix) => ix,
        Err(e) => return Err(ValidateError::Parse(e)),
    };
    let ghost ps = index.pages@;
    let n = index.pages.len();
    let mut i: usize = 0;
    while i < n
        invariant
            ps == index.pages@,
            n == ps.len(),
            parse_index(data@) == Ok::<(u8, Seq<PageInfo>), ParseError>((index.version, ps)),
            i <= n,
            pages_sound(data@, ps, i as int),
        decreases n - i,
    {
        let page = index.pages[i];
        match extract_page(data, &index, page.index as usize) {
            Err(e) => {
                proof {
                    lemma_first_problem_is(data@, ps, i as int);
                    assert(!pages_sound(data@, ps, n as int));
                }
                return Err(ValidateError::Extract(page.index, e));
            },
            Ok(_) => {},
        }
        if page.width == 0 || page.height == 0 {
            proof {
                lemma_first_problem_is(data@, ps, i as int);
                assert(!pages_sound(data@, ps, n as int));
            }
            return Err(ValidateError::ZeroDimensions(page.index));
        }
        proof {
            assert forall|k: int| 0 <= k < i + 1 implies #[trigger] page_problem(data@, ps, k) is None by {
                if k < i {
                    assert(page_problem(data@, ps, k) is None);
                }
            }
        }
        i = i + 1;
    }
    Ok(ValidateReport { version: index.version, page_count: n as u16, total_bytes: data.len() })
}

} // verus!
