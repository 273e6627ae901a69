use typed_pager::errors::{CodecError, HtyErrCode, PageError};
use typed_pager::pagination::PageParams;
use typed_pager::payload::{
    ReqWxMessageData4KeywordTemplate, ReqWxMessageDataValue, TypedMeta,
};
use typed_pager::store::{
    TypedUser, UserTable, all_users, create_user, create_with_typed_user, paginate_users,
    raw_find_all_sql_users,
};

fn string_user(i: i64) -> TypedUser<String> {
    TypedUser::new(
        format!("id-{}", i),
        format!("user{}", i),
        Some(i),
        Some(TypedMeta {
            meta: Some(format!("note {}", i)),
            data: Some(vec![("n".to_string(), format!("{}", i))]),
        }),
    )
}

fn params(page: Option<i64>, page_size: Option<i64>) -> PageParams {
    PageParams { page, page_size, start_from: None }
}

#[test]
fn insert_and_paginate_twenty_five() {
    // Insert 25 records with monotonically increasing creation timestamps.
    let mut table = UserTable::new();
    for i in 0..25 {
        table.insert(&string_user(i)).unwrap();
    }
    // Page 1 of size 10: ten rows in descending timestamp order.
    let (rows, pages, total) = paginate_users::<String>(&params(Some(1), Some(10)), &table).unwrap();
    assert_eq!(total, 25);
    assert_eq!(pages, 3);
    assert_eq!(rows.len(), 10);
    for (k, row) in rows.iter().enumerate() {
        assert_eq!(row.created_at(), Some(24 - k as i64));
    }
    // Page 3: the remaining five rows.
    let (rows3, pages3, total3) =
        paginate_users::<String>(&params(Some(3), Some(10)), &table).unwrap();
    assert_eq!((rows3.len(), pages3, total3), (5, 3, 25));
    assert_eq!(rows3[0].created_at(), Some(4));
    // Page 4 is past the end: zero rows, totals unchanged.
    let (rows4, pages4, total4) =
        paginate_users::<String>(&params(Some(4), Some(10)), &table).unwrap();
    assert_eq!((rows4.len(), pages4, total4), (0, 3, 25));
}

#[test]
fn omitting_page_reads_page_one() {
    let mut table = UserTable::new();
    for i in 0..7 {
        table.insert(&string_user(i)).unwrap();
    }
    let (defaulted, dp, dt) = paginate_users::<String>(&params(None, Some(3)), &table).unwrap();
    let (explicit, ep, et) = paginate_users::<String>(&params(Some(1), Some(3)), &table).unwrap();
    assert_eq!((dp, dt), (ep, et));
    assert_eq!(defaulted.len(), explicit.len());
    for (a, b) in defaulted.iter().zip(explicit.iter()) {
        assert_eq!(a.id(), b.id());
    }
}

#[test]
fn invalid_page_size_is_rejected() {
    let mut table = UserTable::new();
    table.insert(&string_user(1)).unwrap();
    let r = paginate_users::<String>(&params(Some(1), Some(0)), &table);
    assert_eq!(r.unwrap_err(), PageError::InvalidParameter);
    let r2 = paginate_users::<String>(&params(Some(1), Some(-1)), &table);
    assert_eq!(r2.unwrap_err(), PageError::InvalidParameter);
}

#[test]
fn start_from_filters_rows() {
    let mut table = UserTable::new();
    for i in 0..5 {
        table.insert(&string_user(i)).unwrap();
    }
    let p = PageParams { page: Some(1), page_size: Some(10), start_from: Some(3) };
    let (rows, pages, total) = paginate_users::<String>(&p, &table).unwrap();
    assert_eq!((rows.len(), pages, total), (2, 1, 2));
    assert_eq!(rows[0].created_at(), Some(4));
    assert_eq!(rows[1].created_at(), Some(3));
}

#[test]
fn pagination_decode_failure_fails_the_page() {
    // A row stored with a {first, remark} meta cannot be read as a page of
    // {value}-shaped payloads: the page fails with the codec error rather
    // than skipping or zeroing the row.
    let mut table = UserTable::new();
    let u = TypedUser::new(
        "id-a".to_string(),
        "alice".to_string(),
        Some(1),
        Some(TypedMeta {
            meta: Some(ReqWxMessageData4KeywordTemplate {
                first: ReqWxMessageDataValue { value: "f".to_string() },
                remark: ReqWxMessageDataValue { value: "r".to_string() },
            }),
            data: None,
        }),
    );
    table.insert(&u).unwrap();
    let r = paginate_users::<ReqWxMessageDataValue>(&params(Some(1), Some(10)), &table);
    assert_eq!(r.unwrap_err(), PageError::Codec(CodecError::SchemaMismatch));
}

#[test]
fn snapshot_totals_are_mutually_consistent() {
    // Each pagination call reads one snapshot: its totals and its page agree
    // with each other, and a later committed insert is seen only by the
    // later call.
    let mut table = UserTable::new();
    for i in 0..25 {
        table.insert(&string_user(i)).unwrap();
    }
    let (rows_before, pages_before, total_before) =
        paginate_users::<String>(&params(Some(3), Some(10)), &table).unwrap();
    assert_eq!((rows_before.len(), pages_before, total_before), (5, 3, 25));
    table.insert(&string_user(25)).unwrap();
    let (rows_after, pages_after, total_after) =
        paginate_users::<String>(&params(Some(3), Some(10)), &table).unwrap();
    assert_eq!((rows_after.len(), pages_after, total_after), (6, 3, 26));
    // The earlier call still describes its own snapshot.
    assert_eq!((rows_before.len(), pages_before, total_before), (5, 3, 25));
}

#[test]
fn find_and_delete_round_trip() {
    let mut table = UserTable::new();
    for i in 0..3 {
        table.insert(&string_user(i)).unwrap();
    }
    let found = TypedUser::<String>::find_typed_user_by_id(&"id-1".to_string(), &table).unwrap();
    assert_eq!(found.username().as_str(), "user1");
    assert_eq!(found.created_at(), Some(1));

    let deleted =
        TypedUser::<String>::db_delete_typed_user::<String>(&mut table, &"id-1".to_string())
            .unwrap();
    assert_eq!(deleted.username().as_str(), "user1");
    assert_eq!(table.len(), 2);

    let gone = TypedUser::<String>::find_typed_user_by_id(&"id-1".to_string(), &table);
    assert_eq!(gone.unwrap_err().code, HtyErrCode::DbErr);
    let gone2 =
        TypedUser::<String>::db_delete_typed_user::<String>(&mut table, &"id-1".to_string());
    assert_eq!(gone2.unwrap_err().code, HtyErrCode::DbErr);
}

#[test]
fn duplicate_identifier_is_rejected() {
    let mut table = UserTable::new();
    table.insert(&string_user(1)).unwrap();
    let again = table.insert(&string_user(1));
    assert_eq!(again.unwrap_err().code, HtyErrCode::ConflictErr);
    assert_eq!(table.len(), 1);
}

#[test]
fn create_user_stores_default_payload() {
    let mut table = UserTable::new();
    let u = create_user(&mut table, "bob".to_string()).unwrap();
    assert_eq!(u.username().as_str(), "bob");
    assert_eq!(u.id().len(), 36);
    assert!(u.created_at().is_some());
    let meta = u.meta().as_ref().unwrap();
    assert_eq!(meta.meta.as_ref().unwrap().first.value, "first");
    assert_eq!(meta.meta.as_ref().unwrap().remark.value, "remark");
    assert_eq!(
        meta.data.as_ref().unwrap(),
        &vec![("foo".to_string(), "1".to_string()), ("bar".to_string(), "1".to_string())]
    );
    // The stored row reads back as the returned record.
    let found =
        TypedUser::<ReqWxMessageData4KeywordTemplate>::find_typed_user_by_id(u.id(), &table)
            .unwrap();
    assert_eq!(found.username().as_str(), "bob");
    assert_eq!(found.meta().as_ref().unwrap(), meta);
}

#[test]
fn create_with_typed_user_stores_bare_mapping() {
    let mut table = UserTable::new();
    let u = create_with_typed_user(&mut table, "carol".to_string()).unwrap();
    let meta = u.meta().as_ref().unwrap();
    assert!(meta.meta.is_none());
    assert_eq!(meta.data.as_ref().unwrap().len(), 2);
}

#[test]
fn all_users_reads_every_row() {
    let mut table = UserTable::new();
    for i in 0..4 {
        table.insert(&string_user(i)).unwrap();
    }
    let users = all_users(&table).unwrap();
    assert_eq!(users.len(), 4);
    // Storage order is newest first.
    assert_eq!(users[0].created_at(), Some(3));
    assert_eq!(users[3].created_at(), Some(0));
}

#[test]
fn sql_projection_uppercases_names() {
    let mut table = UserTable::new();
    table
        .insert(&TypedUser::<String>::new(
            "id-x".to_string(),
            "alice".to_string(),
            Some(1),
            None,
        ))
        .unwrap();
    let rows = raw_find_all_sql_users(&table).unwrap();
    assert_eq!(rows.len(), 1);
    assert_eq!(rows[0].upper_username, "ALICE");
    assert_eq!(rows[0].len_username, 5);
    assert!(rows[0].meta.is_none());
}

#[test]
fn empty_table_has_zero_pages() {
    let table = UserTable::new();
    let (rows, pages, total) = paginate_users::<String>(&params(Some(1), Some(10)), &table).unwrap();
    assert_eq!((rows.len(), pages, total), (0, 0, 0));
}

#[test]
fn equal_timestamps_all_returned() {
    let mut table = UserTable::new();
    for i in 0..3 {
        table
            .insert(&TypedUser::<String>::new(format!("id-{}", i), format!("user{}", i), Some(5), None))
            .unwrap();
    }
    let (rows, pages, total) = paginate_users::<String>(&params(Some(1), Some(10)), &table).unwrap();
    assert_eq!((rows.len(), pages, total), (3, 1, 3));
    for row in &rows {
        assert_eq!(row.created_at(), Some(5));
    }
}

#[test]
fn huge_page_size_returns_everything_once() {
    let mut table = UserTable::new();
    for i in 0..4 {
        table.insert(&string_user(i)).unwrap();
    }
    let (rows, pages, total) =
        paginate_users::<String>(&params(Some(1), Some(i64::MAX)), &table).unwrap();
    assert_eq!((rows.len(), pages, total), (4, 1, 4));
    let (rows2, pages2, total2) =
        paginate_users::<String>(&params(Some(2), Some(i64::MAX)), &table).unwrap();
    assert_eq!((rows2.len(), pages2, total2), (0, 1, 4));
}

#[test]
fn find_with_wrong_payload_type_reports_store_error() {
    let mut table = UserTable::new();
    let u = TypedUser::new(
        "id-b".to_string(),
        "bea".to_string(),
        Some(2),
        Some(TypedMeta {
            meta: Some(ReqWxMessageData4KeywordTemplate {
                first: ReqWxMessageDataValue { value: "f".to_string() },
                remark: ReqWxMessageDataValue { value: "r".to_string() },
            }),
            data: None,
        }),
    );
    table.insert(&u).unwrap();
    let r = TypedUser::<ReqWxMessageDataValue>::find_typed_user_by_id(&"id-b".to_string(), &table);
    assert_eq!(r.unwrap_err().code, HtyErrCode::DbErr);
}
