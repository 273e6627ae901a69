//! Page-parameter normalization and page arithmetic.
//!
//! Pages are 1-based. A missing `page` defaults to 1, and a page below 1 is
//! treated as 1. A missing `page_size` defaults to [`DEFAULT_PAGE_SIZE`];
//! a non-positive `page_size` is rejected before any query runs.

use vstd::prelude::*;

use crate::errors::PageError;

verus! {

/// The system-wide page size used when a request names none.
pub const DEFAULT_PAGE_SIZE: i64 = 10;

/// Ceiling of `count / size` for a positive `size`: the number of pages
/// needed to hold `count` rows, which is 0 exactly when `count` is 0.
pub open spec fn spec_total_pages(count: int, size: int) -> int
    recommends
        size > 0,
{
    if count % size == 0 {
        count / size
    } else {
        count / size + 1
    }
}

/// Number of pages needed to hold `total_count` rows of `page_size` each.
pub fn total_pages(total_count: i64, page_size: i64) -> (r: i64)
    requires
        total_count >= 0,
        page_size > 0,
    ensures
        r == spec_total_pages(total_count as int, page_size as int),
        r >= 0,
        total_count == 0 <==> r == 0,
{
    proof {
        assert(total_count / page_size >= 0 && total_count / page_size <= total_count)
            by (nonlinear_arith)
            requires
                total_count >= 0,
                page_size > 0,
        ;
        assert(total_count > 0 && total_count % page_size == 0 ==> total_count / page_size >= 1)
            by (nonlinear_arith)
            requires
                total_count >= 0,
                page_size > 0,
        ;
        assert(total_count % page_size != 0 ==> total_count / page_size < total_count)
            by (nonlinear_arith)
            requires
                total_count >= 0,
                page_size > 0,
        ;
    }
    if total_count % page_size == 0 {
        total_count / page_size
    } else {
        total_count / page_size + 1
    }
}

/// Page parameters as received from a caller: a 1-based page, a page size,
/// and an optional lower bound on the creation timestamp (microseconds).
#[derive(Debug, Clone, Copy)]
pub struct PageParams {
    pub page: Option<i64>,
    pub page_size: Option<i64>,
    pub start_from: Option<i64>,
}

/// The page actually read: 1 when absent or below 1.
pub open spec fn spec_normalize_page(page: Option<i64>) -> int {
    match page {
        Some(p) => if p < 1 {
            1
        } else {
            p as int
        },
        None => 1,
    }
}

/// A present page size must be positive; an absent one is the default.
pub open spec fn spec_page_size_ok(page_size: Option<i64>) -> bool {
    match page_size {
        Some(s) => s > 0,
        None => true,
    }
}

/// The page size actually read, assuming it passed validation.
pub open spec fn spec_normalize_page_size(page_size: Option<i64>) -> int {
    match page_size {
        Some(s) => s as int,
        None => DEFAULT_PAGE_SIZE as int,
    }
}

/// Validates and defaults the page parameters: rejects a non-positive page
/// size before any row is read, defaults an absent page to 1 and an absent
/// page size to [`DEFAULT_PAGE_SIZE`], and clamps a page below 1 to 1.
pub fn normalize_params(params: &PageParams) -> (r: Result<(i64, i64), PageError>)
    ensures
        spec_page_size_ok(params.page_size) ==> (r matches Ok(pair) && pair.0
            == spec_normalize_page(params.page) && pair.1 == spec_normalize_page_size(
            params.page_size,
        )),
        !spec_page_size_ok(params.page_size) ==> r == Err::<(i64, i64), PageError>(
            PageError::InvalidParameter,
        ),
{
    let size = match params.page_size {
        Some(s) => {
            if s <= 0 {
                return Err(PageError::InvalidParameter);
            }
            s
        },
        None => DEFAULT_PAGE_SIZE,
    };
    let page = match params.page {
        Some(p) => if p < 1 {
            1
        } else {
            p
        },
        None => 1,
    };
    Ok((page, size))
}

/// Smaller of two mathematical integers.
pub open spec fn spec_min(a: int, b: int) -> int {
    if a < b {
        a
    } else {
        b
    }
}

/// The window of rows a page selects from an already filtered, already
/// ordered row sequence: `page_size` rows starting at offset
/// `(page - 1) * page_size`, truncated at the end of the sequence. A page
/// past the last one selects an empty window; order is never reshuffled.
pub open spec fn spec_window<A>(s: Seq<A>, page: int, size: int) -> Seq<A>
    recommends
        page >= 1,
        size > 0,
{
    let off = (page - 1) * size;
    s.subrange(spec_min(off, s.len() as int), spec_min(off + size, s.len() as int))
}

/// The half-open index range `[r.0, r.1)` of the rows a page selects from
/// `len` matching rows: the executable form of [`spec_window`], usable as
/// OFFSET and LIMIT bounds by any row source.
pub fn page_bounds(len: usize, page: i64, page_size: i64) -> (r: (usize, usize))
    requires
        page >= 1,
        page_size >= 1,
        len <= i64::MAX,
    ensures
        r.0 <= r.1 <= len,
        r.0 as int == spec_min((page - 1) * page_size, len as int),
        r.1 as int == spec_min((page - 1) * page_size + page_size, len as int),
{
    let len_i: i64 = len as i64;
    let pm1: i64 = page - 1;
    let ghost off = (page - 1) * page_size;
    let start: i64 = if len_i == 0 {
        0
    } else if pm1 > (len_i - 1) / page_size {
        proof {
            let p = pm1 as int;
            let s = page_size as int;
            let l = len_i as int;
            assert(p * s >= ((l - 1) / s + 1) * s > l - 1) by (nonlinear_arith)
                requires
                    p > (l - 1) / s,
                    s >= 1,
                    l >= 1,
            ;
        }
        len_i
    } else {
        proof {
            let p = pm1 as int;
            let s = page_size as int;
            let l = len_i as int;
            assert(0 <= p * s <= ((l - 1) / s) * s <= l - 1) by (nonlinear_arith)
                requires
                    0 <= p <= (l - 1) / s,
                    s >= 1,
                    l >= 1,
            ;
        }
        pm1 * page_size
    };
    let end: i64 = if page_size > len_i - start {
        len_i
    } else {
        start + page_size
    };
    proof {
        assert(off >= 0) by (nonlinear_arith)
            requires
                off == (pm1 as int) * (page_size as int),
                pm1 >= 0,
                page_size >= 1,
        ;
    }
    (start as usize, end as usize)
}

} // verus!
