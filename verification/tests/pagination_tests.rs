use typed_pager::errors::PageError;
use typed_pager::pagination::{DEFAULT_PAGE_SIZE, PageParams, normalize_params, page_bounds, total_pages};

#[test]
fn total_pages_is_ceiling() {
    assert_eq!(total_pages(25, 10), 3);
    assert_eq!(total_pages(30, 10), 3);
    assert_eq!(total_pages(31, 10), 4);
    assert_eq!(total_pages(1, 10), 1);
    assert_eq!(total_pages(0, 10), 0);
    assert_eq!(total_pages(10, 1), 10);
}

#[test]
fn page_bounds_windows() {
    assert_eq!(page_bounds(25, 1, 10), (0, 10));
    assert_eq!(page_bounds(25, 2, 10), (10, 20));
    assert_eq!(page_bounds(25, 3, 10), (20, 25));
    assert_eq!(page_bounds(25, 4, 10), (25, 25));
    assert_eq!(page_bounds(0, 1, 10), (0, 0));
    // A page far past the end still yields an empty in-bounds window, even
    // where the raw offset arithmetic would overflow.
    assert_eq!(page_bounds(25, i64::MAX, i64::MAX), (25, 25));
}

#[test]
fn normalize_defaults() {
    let r = normalize_params(&PageParams { page: None, page_size: None, start_from: None });
    assert_eq!(r.unwrap(), (1, DEFAULT_PAGE_SIZE));
    let r2 = normalize_params(&PageParams { page: Some(0), page_size: Some(7), start_from: None });
    assert_eq!(r2.unwrap(), (1, 7));
    let r3 = normalize_params(&PageParams { page: Some(-9), page_size: Some(7), start_from: None });
    assert_eq!(r3.unwrap(), (1, 7));
    let r4 = normalize_params(&PageParams { page: Some(4), page_size: None, start_from: None });
    assert_eq!(r4.unwrap(), (4, DEFAULT_PAGE_SIZE));
}

#[test]
fn normalize_rejects_bad_page_size() {
    let r = normalize_params(&PageParams { page: Some(1), page_size: Some(0), start_from: None });
    assert_eq!(r.unwrap_err(), PageError::InvalidParameter);
    let r2 = normalize_params(&PageParams { page: Some(1), page_size: Some(-1), start_from: None });
    assert_eq!(r2.unwrap_err(), PageError::InvalidParameter);
}
