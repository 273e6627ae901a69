//! The laws the pagination combinator obeys, stated once over the
//! mathematical result of a call ([`spec_paginate`]) and proved for every
//! snapshot, every payload type and every parameter set.

use vstd::prelude::*;

use crate::errors::PageError;
use crate::pagination::{
    DEFAULT_PAGE_SIZE, PageParams, spec_min, spec_normalize_page, spec_normalize_page_size,
    spec_page_size_ok, spec_total_pages, spec_window,
};
use crate::payload::Structured;
use crate::store::{
    StoredUserView, filtered_rows, lemma_filtered_sorted, lemma_window_sorted, sorted_desc,
    spec_paginate, ts_ge,
};

verus! {

/// Page totals: the page count is the ceiling of the matching row count
/// divided by the page size, and it is zero exactly when no row matches.
pub proof fn lemma_pagination_totals<T: Structured>(
    rows: Seq<StoredUserView>,
    params: PageParams,
)
    requires
        spec_page_size_ok(params.page_size),
        spec_paginate::<T>(rows, params) is Ok,
    ensures
        ({
            let t = spec_paginate::<T>(rows, params)->Ok_0;
            let size = spec_normalize_page_size(params.page_size);
            t.2 == filtered_rows(rows, params.start_from).len() && t.1 == spec_total_pages(
                t.2,
                size,
            ) && (t.1 == 0 <==> t.2 == 0) && t.1 * size >= t.2
        }),
{
    let size = spec_normalize_page_size(params.page_size);
    let n = filtered_rows(rows, params.start_from).len() as int;
    lemma_total_pages_facts(n, size);
}

/// Arithmetic facts about the page-count formula: it is non-negative, zero
/// exactly on an empty match set, and `total_pages * size` covers the count.
pub proof fn lemma_total_pages_facts(n: int, size: int)
    requires
        n >= 0,
        size >= 1,
    ensures
        spec_total_pages(n, size) >= 0,
        spec_total_pages(n, size) == 0 <==> n == 0,
        spec_total_pages(n, size) * size >= n,
        (spec_total_pages(n, size) - 1) * size < n,
{
    let tp = spec_total_pages(n, size);
    assert((n / size) * size + n % size == n && 0 <= n % size < size && n / size >= 0)
        by (nonlinear_arith)
        requires
            n >= 0,
            size >= 1,
    ;
    assert(n > 0 && n % size == 0 ==> n / size >= 1) by (nonlinear_arith)
        requires
            n >= 0,
            size >= 1,
    ;
    if n % size == 0 {
        assert(tp * size == n);
        assert((tp - 1) * size == n - size) by (nonlinear_arith)
            requires
                tp * size == n,
        ;
    } else {
        assert(tp == n / size + 1);
        assert(tp * size == (n / size) * size + size) by (nonlinear_arith)
            requires
                tp == n / size + 1,
        ;
        assert((tp - 1) * size == (n / size) * size) by (nonlinear_arith)
            requires
                tp == n / size + 1,
        ;
    }
}

/// Out-of-range page: asking for any page past the last one is not an
/// error; it yields zero rows while both totals still describe the full
/// match set.
pub proof fn lemma_out_of_range_page<T: Structured>(
    rows: Seq<StoredUserView>,
    params: PageParams,
    p: i64,
)
    requires
        params.page == Some(p),
        spec_page_size_ok(params.page_size),
        p > spec_total_pages(
            filtered_rows(rows, params.start_from).len() as int,
            spec_normalize_page_size(params.page_size),
        ),
    ensures
        ({
            let fr = filtered_rows(rows, params.start_from);
            let size = spec_normalize_page_size(params.page_size);
            spec_paginate::<T>(rows, params) == Ok::<_, PageError>(
                (
                    Seq::<crate::store::TypedUserView<T::V>>::empty(),
                    spec_total_pages(fr.len() as int, size),
                    fr.len() as int,
                ),
            )
        }),
{
    let fr = filtered_rows(rows, params.start_from);
    let size = spec_normalize_page_size(params.page_size);
    let n = fr.len() as int;
    let tp = spec_total_pages(n, size);
    let page = spec_normalize_page(params.page);
    let off = (page - 1) * size;
    lemma_total_pages_facts(n, size);
    assert(tp * size >= n);
    assert(page >= tp + 1);
    assert(off >= tp * size) by (nonlinear_arith)
        requires
            page >= tp + 1,
            size >= 1,
            off == (page - 1) * size,
            tp >= 0,
    ;
    let win = spec_window(fr, page, size);
    assert(win =~= Seq::<StoredUserView>::empty());
    let t = spec_paginate::<T>(rows, params)->Ok_0;
    assert(t.0 =~= Seq::<crate::store::TypedUserView<T::V>>::empty());
}

/// Parameter defaulting: omitting the page reads page 1, and omitting the
/// page size reads the system default, in the whole result.
pub proof fn lemma_parameter_defaulting<T: Structured>(
    rows: Seq<StoredUserView>,
    page_size: Option<i64>,
    start_from: Option<i64>,
    page: Option<i64>,
)
    ensures
        spec_paginate::<T>(rows, PageParams { page: None, page_size, start_from })
            == spec_paginate::<T>(rows, PageParams { page: Some(1), page_size, start_from }),
        spec_paginate::<T>(rows, PageParams { page, page_size: None, start_from })
            == spec_paginate::<T>(
            rows,
            PageParams { page, page_size: Some(DEFAULT_PAGE_SIZE), start_from },
        ),
{
}

/// Invalid input: a non-positive page size is rejected as such, whatever
/// the snapshot holds.
pub proof fn lemma_invalid_page_size<T: Structured>(
    rows: Seq<StoredUserView>,
    params: PageParams,
    s: i64,
)
    requires
        params.page_size == Some(s),
        s <= 0,
    ensures
        spec_paginate::<T>(rows, params) == Err::<
            (Seq<crate::store::TypedUserView<T::V>>, int, int),
            PageError,
        >(PageError::InvalidParameter),
{
}

/// Snapshot consistency: the rows, the row count and the page count of one
/// call all describe one filtered view of one snapshot, so they agree with
/// each other: a full page never overruns the count, every page before the
/// last is full, and a requested page at or below the page count of a
/// non-empty match set is non-empty.
pub proof fn lemma_snapshot_consistency<T: Structured>(
    rows: Seq<StoredUserView>,
    params: PageParams,
)
    requires
        spec_paginate::<T>(rows, params) is Ok,
    ensures
        ({
            let t = spec_paginate::<T>(rows, params)->Ok_0;
            let size = spec_normalize_page_size(params.page_size);
            let page = spec_normalize_page(params.page);
            let off = (page - 1) * size;
            t.0.len() <= size && spec_min(off, t.2) + t.0.len() <= t.2 && (off + size <= t.2
                ==> t.0.len() == size) && ((page <= t.1 && t.2 > 0) ==> t.0.len() > 0)
        }),
{
    let fr = filtered_rows(rows, params.start_from);
    let size = spec_normalize_page_size(params.page_size);
    let page = spec_normalize_page(params.page);
    let n = fr.len() as int;
    let off = (page - 1) * size;
    let tp = spec_total_pages(n, size);
    assert(off >= 0) by (nonlinear_arith)
        requires
            page >= 1,
            size >= 1,
            off == (page - 1) * size,
    ;
    lemma_total_pages_facts(n, size);
    if page <= tp && n > 0 {
        assert(off <= (tp - 1) * size) by (nonlinear_arith)
            requires
                page <= tp,
                size >= 1,
                off == (page - 1) * size,
        ;
        assert((tp - 1) * size < n);
    }
}

/// Order preservation: over an ordered snapshot, the rows of any page come
/// back in that order, newest first; pagination never reshuffles them.
pub proof fn lemma_page_rows_ordered<T: Structured>(
    rows: Seq<StoredUserView>,
    params: PageParams,
)
    requires
        sorted_desc(rows),
        spec_paginate::<T>(rows, params) is Ok,
    ensures
        ({
            let t = spec_paginate::<T>(rows, params)->Ok_0;
            forall|i: int, j: int|
                0 <= i < j < t.0.len() ==> ts_ge(
                    (#[trigger] t.0[i]).created_at,
                    (#[trigger] t.0[j]).created_at,
                )
        }),
{
    let fr = filtered_rows(rows, params.start_from);
    let size = spec_normalize_page_size(params.page_size);
    let page = spec_normalize_page(params.page);
    let win = spec_window(fr, page, size);
    lemma_filtered_sorted(rows, params.start_from);
    lemma_window_sorted(fr, page, size);
    let t = spec_paginate::<T>(rows, params)->Ok_0;
    assert forall|i: int, j: int| 0 <= i < j < t.0.len() implies ts_ge(
        (#[trigger] t.0[i]).created_at,
        (#[trigger] t.0[j]).created_at,
    ) by {
        assert(t.0[i].created_at == win[i].created_at);
        assert(t.0[j].created_at == win[j].created_at);
        assert(ts_ge(win[i].created_at, win[j].created_at));
    }
}

} // verus!
