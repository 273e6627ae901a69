//! The row store: records with one semi-structured payload column, held as
//! an in-memory snapshot table.
//!
//! The table is the consistent snapshot a pagination call reads: both the
//! count and the fetched page of one call are taken from one table value, so
//! they are mutually consistent by construction. The store keeps rows
//! clustered in descending creation-time order (an absent timestamp sorts
//! first, as the engine orders descending nulls), so a query ordered by
//! creation time, newest first, reads the table in storage order.

use vstd::prelude::*;

use crate::errors::{CodecError, HtyErr, HtyErrCode, PageError};
use crate::pagination::{
    PageParams, normalize_params, page_bounds, spec_min, spec_normalize_page,
    spec_normalize_page_size, spec_page_size_ok, spec_total_pages, spec_window, total_pages,
};
use crate::payload::{
    Meta, ReqWxMessageData4KeywordTemplate, ReqWxMessageData4KeywordTemplateView,
    ReqWxMessageDataValue, ReqWxMessageDataValueView, Structured, TypedMeta, TypedMetaView,
};
use crate::service::{is_canonical_id, now_micros, uuid};
use crate::tree::{StoredValue, TreeVal};
use vstd::string::StrSliceExecFns;

verus! {

/// Model of a raw stored row.
pub struct StoredUserView {
    pub id: Seq<char>,
    pub username: Seq<char>,
    pub created_at: Option<i64>,
    pub meta: Option<TreeVal>,
}

/// A raw row as the store holds it: scalar columns plus the payload column,
/// already in the store's tree representation.
#[derive(Debug)]
pub struct StoredUser {
    pub id: String,
    pub username: String,
    pub created_at: Option<i64>,
    pub meta: Option<StoredValue>,
}

impl View for StoredUser {
    type V = StoredUserView;

    open spec fn view(&self) -> StoredUserView {
        StoredUserView {
            id: self.id@,
            username: self.username@,
            created_at: self.created_at,
            meta: match self.meta {
                Some(ref t) => Some(t@),
                None => None,
            },
        }
    }
}

/// Model of a decoded record.
pub struct TypedUserView<MV> {
    pub id: Seq<char>,
    pub username: Seq<char>,
    pub created_at: Option<i64>,
    pub meta: Option<TypedMetaView<MV>>,
}

/// A record as callers see it: a unique identifier, a display name, the
/// server-set creation timestamp (microseconds), and the decoded payload.
#[derive(Debug)]
pub struct TypedUser<T: Structured> {
    id: String,
    username: String,
    created_at: Option<i64>,
    meta: Option<TypedMeta<T>>,
}

impl<T: Structured> DeepView for TypedUser<T> {
    type V = TypedUserView<T::V>;

    closed spec fn deep_view(&self) -> TypedUserView<T::V> {
        TypedUserView {
            id: self.id@,
            username: self.username@,
            created_at: self.created_at,
            meta: self.meta.deep_view(),
        }
    }
}

impl<T: Structured> TypedUser<T> {
    /// Assembles a record from its parts.
    pub fn new(
        id: String,
        username: String,
        created_at: Option<i64>,
        meta: Option<TypedMeta<T>>,
    ) -> (r: TypedUser<T>)
        ensures
            r.deep_view() == (TypedUserView {
                id: id@,
                username: username@,
                created_at,
                meta: meta.deep_view(),
            }),
    {
        TypedUser { id, username, created_at, meta }
    }

    /// The record's identifier.
    pub fn id(&self) -> (r: &String)
        ensures
            r@ == self.deep_view().id,
    {
        &self.id
    }

    /// The record's display name.
    pub fn username(&self) -> (r: &String)
        ensures
            r@ == self.deep_view().username,
    {
        &self.username
    }

    /// The record's creation timestamp, microseconds.
    pub fn created_at(&self) -> (r: Option<i64>)
        ensures
            r == self.deep_view().created_at,
    {
        self.created_at
    }

    /// The record's payload.
    pub fn meta(&self) -> (r: &Option<TypedMeta<T>>)
        ensures
            r.deep_view() == self.deep_view().meta,
    {
        &self.meta
    }
}

/// The raw row a record encodes to: scalars copied, payload encoded.
pub open spec fn spec_encode_row<T: Structured>(u: TypedUserView<T::V>) -> StoredUserView {
    StoredUserView {
        id: u.id,
        username: u.username,
        created_at: u.created_at,
        meta: match u.meta {
            Some(m) => Some(TypedMeta::<T>::tree_of(m)),
            None => None,
        },
    }
}

/// The record a raw row decodes to, when its payload column matches the
/// statically expected payload shape.
pub open spec fn spec_decode_row<T: Structured>(r: StoredUserView) -> Option<TypedUserView<T::V>> {
    match r.meta {
        None => Some(
            TypedUserView { id: r.id, username: r.username, created_at: r.created_at, meta: None },
        ),
        Some(t) => match TypedMeta::<T>::of_tree(t) {
            Some(m) => Some(
                TypedUserView {
                    id: r.id,
                    username: r.username,
                    created_at: r.created_at,
                    meta: Some(m),
                },
            ),
            None => None,
        },
    }
}

/// A stored record reads back as the record that was written.
pub proof fn lemma_row_round_trip<T: Structured>(u: TypedUserView<T::V>)
    ensures
        spec_decode_row::<T>(spec_encode_row::<T>(u)) == Some(u),
{
    match u.meta {
        Some(m) => {
            TypedMeta::<T>::lemma_tree_round_trip(m);
        },
        None => {},
    }
}

impl<T: Structured> TypedUser<T> {
    /// Encodes this record into a raw row.
    fn to_row(&self) -> (r: StoredUser)
        ensures
            r@ == spec_encode_row::<T>(self.deep_view()),
    {
        StoredUser {
            id: self.id.clone(),
            username: self.username.clone(),
            created_at: self.created_at,
            meta: match &self.meta {
                Some(m) => Some(m.to_tree()),
                None => None,
            },
        }
    }

    /// Decodes a raw row into a record.
    fn of_row(row: &StoredUser) -> (r: Result<TypedUser<T>, CodecError>)
        ensures
            match spec_decode_row::<T>(row@) {
                Some(u) => r matches Ok(v) && v.deep_view() == u,
                None => r matches Err(e) && e == CodecError::SchemaMismatch,
            },
    {
        let meta = match &row.meta {
            Some(t) => match TypedMeta::<T>::from_tree(t) {
                Ok(m) => Some(m),
                Err(e) => {
                    return Err(CodecError::SchemaMismatch);
                },
            },
            None => None,
        };
        Ok(
            TypedUser {
                id: row.id.clone(),
                username: row.username.clone(),
                created_at: row.created_at,
                meta,
            },
        )
    }
}

/// Descending creation-time priority, as the engine orders a descending
/// scan: an absent timestamp sorts first.
pub open spec fn ts_ge(a: Option<i64>, b: Option<i64>) -> bool {
    match (a, b) {
        (None, _) => true,
        (Some(_), None) => false,
        (Some(x), Some(y)) => x >= y,
    }
}

/// Rows stand in descending creation-time order.
pub open spec fn sorted_desc(rows: Seq<StoredUserView>) -> bool {
    forall|i: int, j: int|
        0 <= i < j < rows.len() ==> ts_ge(
            #[trigger] rows[i].created_at,
            #[trigger] rows[j].created_at,
        )
}

/// No two rows share an identifier.
pub open spec fn ids_distinct(rows: Seq<StoredUserView>) -> bool {
    forall|i: int, j: int| 0 <= i < j < rows.len() ==> (#[trigger] rows[i].id)
        != (#[trigger] rows[j].id)
}

/// Decides [`ts_ge`] on two timestamps.
fn ts_ge_exec(a: Option<i64>, b: Option<i64>) -> (r: bool)
    ensures
        r == ts_ge(a, b),
{
    match (a, b) {
        (None, _) => true,
        (Some(_), None) => false,
        (Some(x), Some(y)) => x >= y,
    }
}

/// The table of records: an in-memory row store whose value is the snapshot
/// one call works against.
#[derive(Debug)]
pub struct UserTable {
    rows: Vec<StoredUser>,
}

impl View for UserTable {
    type V = Seq<StoredUserView>;

    closed spec fn view(&self) -> Seq<StoredUserView> {
        Seq::new(self.rows@.len(), |i: int| self.rows@[i]@)
    }
}

impl UserTable {
    /// The table keeps rows clustered newest-first and identifiers unique.
    pub open spec fn wf(&self) -> bool {
        sorted_desc(self@) && ids_distinct(self@)
    }

    /// An empty table.
    pub fn new() -> (r: UserTable)
        ensures
            r@ == Seq::<StoredUserView>::empty(),
            r.wf(),
    {
        let t = UserTable { rows: Vec::new() };
        proof {
            assert(t@ =~= Seq::<StoredUserView>::empty());
        }
        t
    }

    /// How many rows the table holds.
    pub fn len(&self) -> (r: usize)
        ensures
            r == self@.len(),
    {
        self.rows.len()
    }

    /// Whether some row carries this identifier.
    fn contains_id(&self, id: &String) -> (r: bool)
        ensures
            r == exists|i: int| 0 <= i < self@.len() && (#[trigger] self@[i]).id == id@,
    {
        let mut i: usize = 0;
        while i < self.rows.len()
            invariant
                i <= self.rows@.len(),
                self@.len() == self.rows@.len(),
                forall|j: int| 0 <= j < i ==> (#[trigger] self@[j]).id != id@,
            decreases self.rows@.len() - i,
        {
            if self.rows[i].id == *id {
                proof {
                    assert(self@[i as int].id == id@);
                }
                return true;
            }
            i = i + 1;
        }
        false
    }

    /// The storage position for a new row with this timestamp: after every
    /// row that sorts at or above it, before the rest.
    fn insert_pos(&self, ts: Option<i64>) -> (p: usize)
        requires
            sorted_desc(self@),
        ensures
            p <= self@.len(),
            forall|j: int| 0 <= j < p ==> ts_ge((#[trigger] self@[j]).created_at, ts),
            forall|j: int| p <= j < self@.len() ==> ts_ge(ts, (#[trigger] self@[j]).created_at),
    {
        let mut i: usize = 0;
        while i < self.rows.len()
            invariant
                i <= self.rows@.len(),
                self@.len() == self.rows@.len(),
                sorted_desc(self@),
                forall|j: int| 0 <= j < i ==> ts_ge((#[trigger] self@[j]).created_at, ts),
            decreases self.rows@.len() - i,
        {
            if !ts_ge_exec(self.rows[i].created_at, ts) {
                proof {
                    assert(self.rows@[i as int]@ == self@[i as int]);
                    assert(ts_ge(ts, self@[i as int].created_at));
                    assert forall|j: int| i <= j < self@.len() implies ts_ge(
                        ts,
                        (#[trigger] self@[j]).created_at,
                    ) by {
                        if j > i {
                            assert(ts_ge(self@[i as int].created_at, self@[j].created_at));
                        }
                    }
                }
                return i;
            }
            i = i + 1;
        }
        self.rows.len()
    }

    /// Inserts a record, encoding its payload into the row's column value.
    /// The row is placed in storage order; a duplicate identifier is
    /// rejected and leaves the table unchanged.
    pub fn insert<T: Structured>(&mut self, user: &TypedUser<T>) -> (r: Result<(), HtyErr>)
        requires
            old(self).wf(),
        ensures
            final(self).wf(),
            (exists|i: int|
                0 <= i < old(self)@.len() && (#[trigger] old(self)@[i]).id
                    == user.deep_view().id) ==> (final(self)@ == old(self)@ && (r matches Err(e)
                && e.code == HtyErrCode::ConflictErr)),
            !(exists|i: int|
                0 <= i < old(self)@.len() && (#[trigger] old(self)@[i]).id
                    == user.deep_view().id) ==> (r matches Ok(u) && exists|p: int|
                0 <= p <= old(self)@.len() && final(self)@ == old(self)@.insert(
                    p,
                    spec_encode_row::<T>(user.deep_view()),
                )),
    {
        let row = user.to_row();
        if self.contains_id(&row.id) {
            return Err(
                HtyErr {
                    code: HtyErrCode::ConflictErr,
                    reason: Some("identifier already present".to_owned()),
                },
            );
        }
        let p = self.insert_pos(row.created_at);
        let ghost pre = self@;
        let ghost gp = p as int;
        self.rows.insert(p, row);
        proof {
            assert(self@ =~= pre.insert(gp, row@));
            assert(sorted_desc(self@)) by {
                assert(forall|k: int| 0 <= k < gp ==> self@[k] == pre[k]);
                assert(self@[gp as int] == row@);
                assert(forall|k: int| gp < k < self@.len() ==> self@[k] == pre[k - 1]);
                assert forall|i: int, j: int| 0 <= i < j < self@.len() implies ts_ge(
                    #[trigger] self@[i].created_at,
                    #[trigger] self@[j].created_at,
                ) by {
                    if i == gp {
                        assert(ts_ge(row@.created_at, pre[j - 1].created_at));
                    } else if j == gp {
                        assert(ts_ge(pre[i].created_at, row@.created_at));
                    } else if i < gp && j > gp {
                        assert(ts_ge(pre[i].created_at, pre[j - 1].created_at));
                    }
                }
            }
            assert(ids_distinct(self@)) by {
                assert(forall|k: int|
                    0 <= k < pre.len() ==> (#[trigger] pre[k]).id != row@.id);
                assert forall|i: int, j: int| 0 <= i < j < self@.len() implies (
                #[trigger] self@[i].id) != (#[trigger] self@[j].id) by {
                    if i != gp && j != gp {
                        let pi = if i < gp {
                            i
                        } else {
                            i - 1
                        };
                        let pj = if j < gp {
                            j
                        } else {
                            j - 1
                        };
                        assert(self@[i].id == pre[pi].id && self@[j].id == pre[pj].id);
                    }
                }
            }
        }
        Ok(())
    }

    /// The index of the row carrying this identifier, if any.
    fn find_index(&self, id: &String) -> (r: Option<usize>)
        ensures
            match r {
                Some(i) => i < self@.len() && self@[i as int].id == id@,
                None => forall|j: int| 0 <= j < self@.len() ==> (#[trigger] self@[j]).id != id@,
            },
    {
        let mut i: usize = 0;
        while i < self.rows.len()
            invariant
                i <= self.rows@.len(),
                self@.len() == self.rows@.len(),
                forall|j: int| 0 <= j < i ==> (#[trigger] self@[j]).id != id@,
            decreases self.rows@.len() - i,
        {
            if self.rows[i].id == *id {
                proof {
                    assert(self@[i as int].id == id@);
                }
                return Some(i);
            }
            i = i + 1;
        }
        None
    }
}

/// Removing one row keeps the remaining rows ordered and their identifiers
/// distinct.
proof fn lemma_remove_preserves_wf(rows: Seq<StoredUserView>, i: int)
    requires
        0 <= i < rows.len(),
        sorted_desc(rows),
        ids_distinct(rows),
    ensures
        sorted_desc(rows.remove(i)),
        ids_distinct(rows.remove(i)),
{
    let rest = rows.remove(i);
    assert forall|a: int, b: int| 0 <= a < b < rest.len() implies ts_ge(
        #[trigger] rest[a].created_at,
        #[trigger] rest[b].created_at,
    ) && (rest[a].id != rest[b].id) by {
        let ra = if a < i {
            a
        } else {
            a + 1
        };
        let rb = if b < i {
            b
        } else {
            b + 1
        };
        assert(rest[a] == rows[ra] && rest[b] == rows[rb]);
        assert(ts_ge(rows[ra].created_at, rows[rb].created_at));
        assert(rows[ra].id != rows[rb].id);
    }
}

impl<T: Structured> TypedUser<T> {
    /// Point lookup: decodes and returns the record carrying this
    /// identifier. Every failure of the read is a store error, `DbErr`: a
    /// missing identifier as well as a row whose payload column does not
    /// decode as `T`.
    pub fn find_typed_user_by_id(id_user: &String, table: &UserTable) -> (r: Result<
        TypedUser<T>,
        HtyErr,
    >)
        requires
            table.wf(),
        ensures
            ({
                if exists|i: int|
                    0 <= i < table@.len() && (#[trigger] table@[i]).id == id_user@ {
                    let i = choose|i: int|
                        0 <= i < table@.len() && (#[trigger] table@[i]).id == id_user@;
                    match spec_decode_row::<T>(table@[i]) {
                        Some(u) => r matches Ok(v) && v.deep_view() == u,
                        None => r matches Err(e) && e.code == HtyErrCode::DbErr,
                    }
                } else {
                    r matches Err(e) && e.code == HtyErrCode::DbErr
                }
            }),
    {
        match table.find_index(id_user) {
            Some(i) => {
                proof {
                    let w = choose|w: int|
                        0 <= w < table@.len() && (#[trigger] table@[w]).id == id_user@;
                    if w != i as int {
                        assert(table@[w].id != table@[i as int].id);
                    }
                }
                match TypedUser::<T>::of_row(&table.rows[i]) {
                    Ok(u) => Ok(u),
                    Err(_) => Err(
                        HtyErr {
                            code: HtyErrCode::DbErr,
                            reason: Some("stored payload does not match the expected shape".to_owned()),
                        },
                    ),
                }
            },
            None => Err(
                HtyErr { code: HtyErrCode::DbErr, reason: Some("record not found".to_owned()) },
            ),
        }
    }

    /// Deletes by identifier, returning the deleted record: the record is
    /// re-read first, and the row is removed only when that read succeeds.
    pub fn db_delete_typed_user<U: Structured>(table: &mut UserTable, id_user: &String) -> (r:
        Result<TypedUser<U>, HtyErr>)
        requires
            old(table).wf(),
        ensures
            final(table).wf(),
            ({
                if exists|i: int|
                    0 <= i < old(table)@.len() && (#[trigger] old(table)@[i]).id == id_user@ {
                    let i = choose|i: int|
                        0 <= i < old(table)@.len() && (#[trigger] old(table)@[i]).id == id_user@;
                    match spec_decode_row::<U>(old(table)@[i]) {
                        Some(u) => (r matches Ok(v) && v.deep_view() == u) && final(table)@ == old(
                            table,
                        )@.remove(i),
                        None => (r matches Err(e) && e.code == HtyErrCode::DbErr) && final(table)@
                            == old(table)@,
                    }
                } else {
                    (r matches Err(e) && e.code == HtyErrCode::DbErr) && final(table)@ == old(
                        table,
                    )@
                }
            }),
    {
        match table.find_index(id_user) {
            Some(i) => {
                proof {
                    let w = choose|w: int|
                        0 <= w < table@.len() && (#[trigger] table@[w]).id == id_user@;
                    if w != i as int {
                        assert(table@[w].id != table@[i as int].id);
                    }
                }
                match TypedUser::<U>::of_row(&table.rows[i]) {
                    Ok(u) => {
                        let ghost pre = table@;
                        table.rows.remove(i);
                        proof {
                            assert(table@ =~= pre.remove(i as int));
                            lemma_remove_preserves_wf(pre, i as int);
                        }
                        Ok(u)
                    },
                    Err(_) => Err(
                        HtyErr {
                            code: HtyErrCode::DbErr,
                            reason: Some("stored payload does not match the expected shape".to_owned()),
                        },
                    ),
                }
            },
            None => Err(
                HtyErr { code: HtyErrCode::DbErr, reason: Some("record not found".to_owned()) },
            ),
        }
    }
}

/// Whether a row passes the optional creation-time lower bound. A row with
/// no timestamp never passes a present bound.
pub open spec fn row_matches(r: StoredUserView, start_from: Option<i64>) -> bool {
    match start_from {
        None => true,
        Some(lb) => match r.created_at {
            Some(t) => t >= lb,
            None => false,
        },
    }
}

/// The rows of a snapshot that pass the filter, in their stored order.
pub open spec fn filtered_rows(rows: Seq<StoredUserView>, start_from: Option<i64>) -> Seq<
    StoredUserView,
>
    decreases rows,
{
    if rows.len() == 0 {
        Seq::<StoredUserView>::empty()
    } else {
        let rest = filtered_rows(rows.drop_last(), start_from);
        if row_matches(rows.last(), start_from) {
            rest.push(rows.last())
        } else {
            rest
        }
    }
}

/// Extending the scanned prefix by one row extends its filtered rows by that
/// row exactly when the row passes the filter.
proof fn lemma_filtered_take_step(rows: Seq<StoredUserView>, start_from: Option<i64>, i: int)
    requires
        0 <= i < rows.len(),
    ensures
        filtered_rows(rows.take(i + 1), start_from) == if row_matches(rows[i], start_from) {
            filtered_rows(rows.take(i), start_from).push(rows[i])
        } else {
            filtered_rows(rows.take(i), start_from)
        },
{
    assert(rows.take(i + 1).drop_last() =~= rows.take(i));
    assert(rows.take(i + 1).last() == rows[i]);
}

/// Every filtered row is one of the snapshot's rows, and there are no more
/// filtered rows than rows.
pub proof fn lemma_filtered_in_rows(rows: Seq<StoredUserView>, start_from: Option<i64>)
    ensures
        filtered_rows(rows, start_from).len() <= rows.len(),
        forall|k: int|
            0 <= k < filtered_rows(rows, start_from).len() ==> exists|j: int|
                0 <= j < rows.len() && #[trigger] filtered_rows(rows, start_from)[k] == rows[j],
    decreases rows,
{
    if rows.len() > 0 {
        lemma_filtered_in_rows(rows.drop_last(), start_from);
        let fr = filtered_rows(rows, start_from);
        let rest = filtered_rows(rows.drop_last(), start_from);
        assert forall|k: int| 0 <= k < fr.len() implies exists|j: int|
            0 <= j < rows.len() && #[trigger] fr[k] == rows[j] by {
            if k < rest.len() {
                let j = choose|j: int|
                    0 <= j < rows.drop_last().len() && #[trigger] rest[k] == rows.drop_last()[j];
                assert(rows.drop_last()[j] == rows[j]);
                assert(fr[k] == rows[j]);
            } else {
                assert(fr[k] == rows[rows.len() - 1]);
            }
        }
    }
}

/// Filtering keeps the stored order: the filtered rows of an ordered
/// snapshot are ordered.
pub proof fn lemma_filtered_sorted(rows: Seq<StoredUserView>, start_from: Option<i64>)
    requires
        sorted_desc(rows),
    ensures
        sorted_desc(filtered_rows(rows, start_from)),
    decreases rows,
{
    if rows.len() > 0 {
        assert(sorted_desc(rows.drop_last())) by {
            assert(forall|i: int|
                0 <= i < rows.drop_last().len() ==> rows.drop_last()[i] == rows[i]);
        }
        lemma_filtered_sorted(rows.drop_last(), start_from);
        lemma_filtered_in_rows(rows.drop_last(), start_from);
        let fr = filtered_rows(rows, start_from);
        let rest = filtered_rows(rows.drop_last(), start_from);
        if row_matches(rows.last(), start_from) {
            assert forall|i: int, j: int| 0 <= i < j < fr.len() implies ts_ge(
                #[trigger] fr[i].created_at,
                #[trigger] fr[j].created_at,
            ) by {
                if j < rest.len() {
                    assert(fr[i] == rest[i] && fr[j] == rest[j]);
                } else {
                    let w = choose|w: int|
                        0 <= w < rows.drop_last().len() && #[trigger] rest[i] == rows.drop_last()[w];
                    assert(fr[i] == rows[w] && fr[j] == rows.last());
                    assert(ts_ge(rows[w].created_at, rows[rows.len() - 1].created_at));
                }
            }
        }
    }
}

/// A page window of an ordered row sequence is ordered: pagination never
/// reshuffles the query's order.
pub proof fn lemma_window_sorted(rows: Seq<StoredUserView>, page: int, size: int)
    requires
        sorted_desc(rows),
        page >= 1,
        size > 0,
    ensures
        sorted_desc(spec_window(rows, page, size)),
{
    let win = spec_window(rows, page, size);
    assert forall|i: int, j: int| 0 <= i < j < win.len() implies ts_ge(
        #[trigger] win[i].created_at,
        #[trigger] win[j].created_at,
    ) by {
        let off = spec_min((page - 1) * size, rows.len() as int);
        assert(win[i] == rows[off + i] && win[j] == rows[off + j]);
    }
}

/// The triple a pagination call must produce over a snapshot: the decoded
/// page window, the total page count and the total row count, all taken
/// from the same filtered view of the snapshot.
pub open spec fn spec_paginate<T: Structured>(
    rows: Seq<StoredUserView>,
    params: PageParams,
) -> Result<(Seq<TypedUserView<T::V>>, int, int), PageError> {
    if !spec_page_size_ok(params.page_size) {
        Err(PageError::InvalidParameter)
    } else {
        let fr = filtered_rows(rows, params.start_from);
        let page = spec_normalize_page(params.page);
        let size = spec_normalize_page_size(params.page_size);
        let win = spec_window(fr, page, size);
        if forall|k: int| 0 <= k < win.len() ==> spec_decode_row::<T>(#[trigger] win[k]) is Some {
            Ok(
                (
                    Seq::new(win.len(), |k: int| spec_decode_row::<T>(win[k]).unwrap()),
                    spec_total_pages(fr.len() as int, size),
                    fr.len() as int,
                ),
            )
        } else {
            Err(PageError::Codec(CodecError::SchemaMismatch))
        }
    }
}

/// The pagination combinator: validates and defaults the page parameters,
/// then, against one snapshot of the table, counts the rows that match the
/// filter, computes the total page count, and decodes exactly the requested
/// page window, preserving the stored order. A page past the last one
/// yields an empty row sequence with the counts untouched.
pub fn paginate_users<T: Structured>(params: &PageParams, table: &UserTable) -> (r: Result<
    (Vec<TypedUser<T>>, i64, i64),
    PageError,
>)
    requires
        table@.len() <= i64::MAX,
    ensures
        ({
            match spec_paginate::<T>(table@, *params) {
                Ok(triple) => r matches Ok(t) && t.0.deep_view() == triple.0 && t.1 == triple.1
                    && t.2 == triple.2,
                Err(e) => r matches Err(a) && a == e,
            }
        }),
{
    let (page, size) = match normalize_params(params) {
        Ok(pair) => pair,
        Err(e) => {
            return Err(e);
        },
    };
    let ghost rv = table@;
    let ghost sf = params.start_from;
    let ghost fr_spec = filtered_rows(rv, sf);

    // Count pass: materialize the rows that match the filter, in order.
    let mut fr: Vec<&StoredUser> = Vec::new();
    let mut i: usize = 0;
    proof {
        assert(rv.take(0) =~= Seq::<StoredUserView>::empty());
    }
    while i < table.rows.len()
        invariant
            i <= table.rows@.len(),
            rv == table@,
            sf == params.start_from,
            rv.len() == table.rows@.len(),
            fr@.len() == filtered_rows(rv.take(i as int), sf).len(),
            forall|k: int|
                0 <= k < fr@.len() ==> (#[trigger] fr@[k])@ == filtered_rows(
                    rv.take(i as int),
                    sf,
                )[k],
        decreases table.rows@.len() - i,
    {
        proof {
            lemma_filtered_take_step(rv, sf, i as int);
            assert(rv[i as int] == table.rows@[i as int]@);
        }
        let row = &table.rows[i];
        let keep = match params.start_from {
            Some(lb) => match row.created_at {
                Some(t) => t >= lb,
                None => false,
            },
            None => true,
        };
        if keep {
            fr.push(row);
        }
        i = i + 1;
    }
    proof {
        assert(rv.take(rv.len() as int) =~= rv);
        lemma_filtered_in_rows(rv, sf);
    }

    let total: i64 = fr.len() as i64;
    let pages: i64 = total_pages(total, size);
    let (start, end) = page_bounds(fr.len(), page, size);
    let ghost win = spec_window(fr_spec, page as int, size as int);
    proof {
        assert(win =~= fr_spec.subrange(start as int, end as int));
    }

    // Fetch pass: decode exactly the page window.
    let mut users: Vec<TypedUser<T>> = Vec::new();
    let mut k: usize = start;
    while k < end
        invariant
            start <= k <= end,
            end <= fr@.len(),
            rv == table@,
            sf == params.start_from,
            spec_page_size_ok(params.page_size),
            page == spec_normalize_page(params.page),
            size == spec_normalize_page_size(params.page_size),
            fr_spec == filtered_rows(rv, sf),
            fr@.len() == fr_spec.len(),
            win == spec_window(fr_spec, page as int, size as int),
            win.len() == end - start,
            users.deep_view().len() == k - start,
            forall|m: int| 0 <= m < fr@.len() ==> (#[trigger] fr@[m])@ == fr_spec[m],
            forall|m: int| start <= m < end ==> win[m - start] == fr_spec[m],
            forall|m: int|
                0 <= m < k - start ==> Some(#[trigger] users.deep_view()[m]) == spec_decode_row::<
                    T,
                >(win[m]),
        decreases end - k,
    {
        let row: &StoredUser = fr[k];
        match TypedUser::<T>::of_row(row) {
            Ok(u) => {
                let ghost prev_dv = users.deep_view();
                users.push(u);
                proof {
                    assert(users.deep_view().len() == k - start + 1);
                    assert(users.deep_view()[k - start] == users@[k - start].deep_view());
                    assert forall|m: int| 0 <= m < k - start implies Some(
                        #[trigger] users.deep_view()[m],
                    ) == spec_decode_row::<T>(win[m]) by {
                        assert(users.deep_view()[m] == users@[m].deep_view());
                        assert(users@[m].deep_view() == prev_dv[m]);
                        assert(Some(prev_dv[m]) == spec_decode_row::<T>(win[m]));
                    }
                }
            },
            Err(_) => {
                proof {
                    assert(spec_decode_row::<T>(win[k - start]) is None);
                    assert(spec_paginate::<T>(rv, *params) == Err::<
                        (Seq<TypedUserView<T::V>>, int, int),
                        PageError,
                    >(PageError::Codec(CodecError::SchemaMismatch)));
                }
                return Err(PageError::Codec(CodecError::SchemaMismatch));
            },
        }
        k = k + 1;
    }
    proof {
        assert forall|m: int| 0 <= m < win.len() implies spec_decode_row::<T>(
            #[trigger] win[m],
        ) is Some by {
            assert(Some(users.deep_view()[m]) == spec_decode_row::<T>(win[m]));
        }
        let triple = spec_paginate::<T>(rv, *params)->Ok_0;
        assert forall|m: int| 0 <= m < win.len() implies #[trigger] users.deep_view()[m]
            == triple.0[m] by {
            assert(Some(users.deep_view()[m]) == spec_decode_row::<T>(win[m]));
        }
        assert(users.deep_view() =~= triple.0);
    }
    Ok((users, pages, total))
}

/// The mapping both creation handlers attach to a new record.
pub open spec fn default_data_view() -> Seq<(Seq<char>, Seq<char>)> {
    seq![("foo"@, "1"@), ("bar"@, "1"@)]
}

/// The payload `create_user` writes: a keyword template whose opening line
/// and remark are fixed texts, plus the default mapping.
pub open spec fn default_user_meta_view() -> TypedMetaView<ReqWxMessageData4KeywordTemplateView> {
    TypedMetaView {
        meta: Some(
            ReqWxMessageData4KeywordTemplateView {
                first: ReqWxMessageDataValueView { value: "first"@ },
                remark: ReqWxMessageDataValueView { value: "remark"@ },
            },
        ),
        data: Some(default_data_view()),
    }
}

/// The payload `create_with_typed_user` writes: no meta value, only the
/// default mapping.
pub open spec fn default_typed_meta_view() -> TypedMetaView<
    ReqWxMessageData4KeywordTemplateView,
> {
    TypedMetaView { meta: None, data: Some(default_data_view()) }
}

/// The default mapping, as stored.
fn build_default_data() -> (r: Vec<(String, String)>)
    ensures
        r.deep_view() == default_data_view(),
{
    let mut data: Vec<(String, String)> = Vec::new();
    data.push(("foo".to_owned(), "1".to_owned()));
    data.push(("bar".to_owned(), "1".to_owned()));
    proof {
        assert(data.deep_view() =~= default_data_view());
    }
    data
}

/// Creates a record from a submitted display name: generates the
/// identifier, stamps the creation time, attaches the fixed keyword-template
/// payload, and stores the encoded row. The stored and returned record
/// carry the same data; a generated identifier that is already present is
/// rejected rather than overwritten.
pub fn create_user(table: &mut UserTable, username: String) -> (r: Result<
    TypedUser<ReqWxMessageData4KeywordTemplate>,
    HtyErr,
>)
    requires
        old(table).wf(),
    ensures
        final(table).wf(),
        match r {
            Ok(u) => u.deep_view().username == username@ && is_canonical_id(u.deep_view().id)
                && u.deep_view().created_at is Some && u.deep_view().meta == Some(
                default_user_meta_view(),
            ) && (exists|p: int|
                0 <= p <= old(table)@.len() && final(table)@ == old(table)@.insert(
                    p,
                    spec_encode_row::<ReqWxMessageData4KeywordTemplate>(u.deep_view()),
                )),
            Err(e) => final(table)@ == old(table)@ && e.code == HtyErrCode::ConflictErr && (
            exists|i: int|
                0 <= i < old(table)@.len() && (#[trigger] old(table)@[i]).id.len() == 36),
        },
{
    let meta = TypedMeta {
        meta: Some(
            ReqWxMessageData4KeywordTemplate {
                first: ReqWxMessageDataValue { value: "first".to_owned() },
                remark: ReqWxMessageDataValue { value: "remark".to_owned() },
            },
        ),
        data: Some(build_default_data()),
    };
    let user = TypedUser::<ReqWxMessageData4KeywordTemplate>::new(
        uuid(),
        username,
        Some(now_micros()),
        Some(meta),
    );
    match table.insert(&user) {
        Ok(_) => Ok(user),
        Err(e) => {
            proof {
                let i = choose|i: int|
                    0 <= i < old(table)@.len() && (#[trigger] old(table)@[i]).id
                        == user.deep_view().id;
                assert(old(table)@[i].id.len() == 36);
            }
            Err(e)
        },
    }
}

/// Creates a record whose payload carries only the default mapping, no meta
/// value; otherwise as [`create_user`].
pub fn create_with_typed_user(table: &mut UserTable, username: String) -> (r: Result<
    TypedUser<ReqWxMessageData4KeywordTemplate>,
    HtyErr,
>)
    requires
        old(table).wf(),
    ensures
        final(table).wf(),
        match r {
            Ok(u) => u.deep_view().username == username@ && is_canonical_id(u.deep_view().id)
                && u.deep_view().created_at is Some && u.deep_view().meta == Some(
                default_typed_meta_view(),
            ) && (exists|p: int|
                0 <= p <= old(table)@.len() && final(table)@ == old(table)@.insert(
                    p,
                    spec_encode_row::<ReqWxMessageData4KeywordTemplate>(u.deep_view()),
                )),
            Err(e) => final(table)@ == old(table)@ && e.code == HtyErrCode::ConflictErr && (
            exists|i: int|
                0 <= i < old(table)@.len() && (#[trigger] old(table)@[i]).id.len() == 36),
        },
{
    let meta = TypedMeta::<ReqWxMessageData4KeywordTemplate> {
        meta: None,
        data: Some(build_default_data()),
    };
    let user = TypedUser::<ReqWxMessageData4KeywordTemplate>::new(
        uuid(),
        username,
        Some(now_micros()),
        Some(meta),
    );
    match table.insert(&user) {
        Ok(_) => Ok(user),
        Err(e) => {
            proof {
                let i = choose|i: int|
                    0 <= i < old(table)@.len() && (#[trigger] old(table)@[i]).id
                        == user.deep_view().id;
                assert(old(table)@[i].id.len() == 36);
            }
            Err(e)
        },
    }
}

/// Reads and decodes every record, in storage order, with a string-typed
/// payload. One row whose payload does not decode fails the whole read.
pub fn all_users(table: &UserTable) -> (r: Result<Vec<TypedUser<String>>, HtyErr>)
    ensures
        ({
            if forall|i: int|
                0 <= i < table@.len() ==> spec_decode_row::<String>(#[trigger] table@[i]) is Some {
                r matches Ok(v) && v.deep_view().len() == table@.len() && forall|i: int|
                    0 <= i < table@.len() ==> Some(#[trigger] v.deep_view()[i])
                        == spec_decode_row::<String>(table@[i])
            } else {
                r matches Err(e) && e.code == HtyErrCode::DbErr
            }
        }),
{
    let mut out: Vec<TypedUser<String>> = Vec::new();
    let mut i: usize = 0;
    while i < table.rows.len()
        invariant
            i <= table.rows@.len(),
            table@.len() == table.rows@.len(),
            out.deep_view().len() == i,
            forall|j: int|
                0 <= j < i ==> Some(#[trigger] out.deep_view()[j]) == spec_decode_row::<String>(
                    table@[j],
                ),
        decreases table.rows@.len() - i,
    {
        proof {
            assert(table@[i as int] == table.rows@[i as int]@);
        }
        match TypedUser::<String>::of_row(&table.rows[i]) {
            Ok(u) => {
                let ghost prev_dv = out.deep_view();
                out.push(u);
                proof {
                    assert forall|j: int| 0 <= j < i implies Some(
                        #[trigger] out.deep_view()[j],
                    ) == spec_decode_row::<String>(table@[j]) by {
                        assert(out.deep_view()[j] == prev_dv[j]);
                        assert(Some(prev_dv[j]) == spec_decode_row::<String>(table@[j]));
                    }
                    assert(out.deep_view()[i as int] == out@[i as int].deep_view());
                }
            },
            Err(_) => {
                return Err(
                    HtyErr {
                        code: HtyErrCode::DbErr,
                        reason: Some("stored payload does not match the expected shape".to_owned()),
                    },
                );
            },
        }
        i = i + 1;
    }
    proof {
        assert forall|j: int| 0 <= j < table@.len() implies spec_decode_row::<String>(
            #[trigger] table@[j],
        ) is Some by {
            assert(Some(out.deep_view()[j]) == spec_decode_row::<String>(table@[j]));
        }
    }
    Ok(out)
}

/// What `str::to_uppercase` returns: a function of the characters alone.
pub uninterp spec fn upper_of(s: Seq<char>) -> Seq<char>;

/// Relies on `str::to_uppercase`: the Unicode uppercase of the text, a
/// function of the characters alone; empty text stays empty.
#[verifier::external_body]
fn to_upper(s: &str) -> (r: String)
    ensures
        r@ == upper_of(s@),
        s@.len() == 0 ==> r@.len() == 0,
{
    s.to_uppercase()
}

/// Model of [`SqlUser`].
pub struct SqlUserView {
    pub upper_username: Seq<char>,
    pub meta: Option<TypedMetaView<Seq<char>>>,
    pub len_username: int,
}

/// The projection the reporting query computes per row: the display name
/// uppercased, the decoded payload, and the display name's length.
#[derive(Debug)]
pub struct SqlUser {
    pub upper_username: String,
    pub meta: Option<Meta>,
    pub len_username: i32,
}

impl DeepView for SqlUser {
    type V = SqlUserView;

    open spec fn deep_view(&self) -> SqlUserView {
        SqlUserView {
            upper_username: self.upper_username@,
            meta: self.meta.deep_view(),
            len_username: self.len_username as int,
        }
    }
}

/// The projection of one raw row, when its payload decodes.
pub open spec fn spec_sql_user(r: StoredUserView) -> Option<SqlUserView> {
    let meta = match r.meta {
        None => Some(Option::<TypedMetaView<Seq<char>>>::None),
        Some(t) => match TypedMeta::<String>::of_tree(t) {
            Some(mv) => Some(Some(mv)),
            None => None,
        },
    };
    match meta {
        Some(m) => Some(
            SqlUserView {
                upper_username: upper_of(r.username),
                meta: m,
                len_username: spec_min(r.username.len() as int, i32::MAX as int),
            },
        ),
        None => None,
    }
}

/// Computes the reporting projection for every row, in storage order: the
/// uppercased display name, the payload decoded with a string-typed meta,
/// and the display name's length, capped at the column type's maximum.
pub fn raw_find_all_sql_users(table: &UserTable) -> (r: Result<Vec<SqlUser>, HtyErr>)
    ensures
        ({
            if forall|i: int| 0 <= i < table@.len() ==> spec_sql_user(#[trigger] table@[i]) is Some {
                r matches Ok(v) && v.deep_view().len() == table@.len() && forall|i: int|
                    0 <= i < table@.len() ==> Some(#[trigger] v.deep_view()[i]) == spec_sql_user(
                        table@[i],
                    )
            } else {
                r matches Err(e) && e.code == HtyErrCode::DbErr
            }
        }),
{
    let mut out: Vec<SqlUser> = Vec::new();
    let mut i: usize = 0;
    while i < table.rows.len()
        invariant
            i <= table.rows@.len(),
            table@.len() == table.rows@.len(),
            out.deep_view().len() == i,
            forall|j: int|
                0 <= j < i ==> Some(#[trigger] out.deep_view()[j]) == spec_sql_user(table@[j]),
        decreases table.rows@.len() - i,
    {
        proof {
            assert(table@[i as int] == table.rows@[i as int]@);
        }
        let row = &table.rows[i];
        let meta = match &row.meta {
            None => None,
            Some(t) => match Meta::from_tree(t) {
                Ok(m) => Some(m),
                Err(_) => {
                    return Err(
                        HtyErr {
                            code: HtyErrCode::DbErr,
                            reason: Some(
                                "stored payload does not match the expected shape".to_owned(),
                            ),
                        },
                    );
                },
            },
        };
        let name_len = row.username.as_str().unicode_len();
        let len_username: i32 = if name_len > 0x7fff_ffff {
            0x7fff_ffff
        } else {
            name_len as i32
        };
        let u = SqlUser { upper_username: to_upper(row.username.as_str()), meta, len_username };
        let ghost prev_dv = out.deep_view();
        let ghost uv = u.deep_view();
        out.push(u);
        proof {
            assert forall|j: int| 0 <= j < i implies Some(#[trigger] out.deep_view()[j])
                == spec_sql_user(table@[j]) by {
                assert(out.deep_view()[j] == prev_dv[j]);
                assert(Some(prev_dv[j]) == spec_sql_user(table@[j]));
            }
            assert(out.deep_view()[i as int] == out@[i as int].deep_view());
            assert(out.deep_view()[i as int] == uv);
            assert(Some(uv) == spec_sql_user(table@[i as int]));
        }
        i = i + 1;
    }
    proof {
        assert forall|j: int| 0 <= j < table@.len() implies spec_sql_user(
            #[trigger] table@[j],
        ) is Some by {
            assert(Some(out.deep_view()[j]) == spec_sql_user(table@[j]));
        }
    }
    Ok(out)
}

} // verus!
