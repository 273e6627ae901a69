//! The polymorphic payload codec.
//!
//! A payload type declares, through [`Structured`], how its values encode
//! into the store's tree-shaped column value and how they are recovered. The
//! codec is pure: encoding is total over in-memory values, decoding fails
//! loudly with [`CodecError::SchemaMismatch`] whenever the stored tree's
//! shape does not match the statically expected shape, and a full
//! encode/decode cycle returns the value it started from.

use vstd::prelude::*;

use crate::errors::CodecError;
use crate::text::{from_text, render_tree, spec_parse_text, to_text};
use crate::tree::{StoredValue, TreeVal, entry_views_of, tree_in_range};
use crate::tree::{lemma_entry_views_of_index, lemma_entry_views_of_len, lemma_entry_views_of_push};

verus! {

/// The capability a payload type needs: a mathematical model (its deep
/// view), a total encoding of models into column trees, and a decoding that
/// recovers exactly the models the encoding produces.
pub trait Structured: Sized + DeepView {
    /// The tree a value with model `m` encodes to.
    spec fn tree_of(m: Self::V) -> TreeVal;

    /// The model recovered from a tree, when the tree's shape matches.
    spec fn of_tree(t: TreeVal) -> Option<Self::V>;

    /// Decoding inverts encoding on every model.
    proof fn lemma_tree_round_trip(m: Self::V)
        ensures
            Self::of_tree(Self::tree_of(m)) == Some(m),
    ;

    /// An encoding is never the bare null: containers use null for an absent
    /// optional value, which must stay distinguishable from a present one.
    proof fn lemma_tree_not_null(m: Self::V)
        ensures
            !(Self::tree_of(m) is Null),
    ;

    /// An encoding keeps every integer within the column type's range, so
    /// the encoded tree has a faithful raw-text form.
    proof fn lemma_tree_in_range(m: Self::V)
        ensures
            tree_in_range(Self::tree_of(m)),
    ;

    /// Encode this value into a column tree.
    fn to_tree(&self) -> (r: StoredValue)
        ensures
            r@ == Self::tree_of(self.deep_view()),
    ;

    /// Decode a column tree; a tree of the wrong shape is rejected.
    fn from_tree(t: &StoredValue) -> (r: Result<Self, CodecError>)
        ensures
            match Self::of_tree(t@) {
                Some(m) => r matches Ok(v) && v.deep_view() == m,
                None => r matches Err(e) && e == CodecError::SchemaMismatch,
            },
    ;

    /// When two models count as the same payload value. For scalar payloads
    /// this is plain equality of the models; a payload that carries the
    /// free-form mapping judges the mapping as a mapping, so key order (and
    /// shadowed duplicate bindings) are not significant.
    spec fn eq_model(a: Self::V, b: Self::V) -> bool;

    /// Model equality, decided on the values.
    fn eq_value(&self, other: &Self) -> (r: bool)
        ensures
            r == Self::eq_model(self.deep_view(), other.deep_view()),
    ;
}

impl Structured for String {
    open spec fn tree_of(m: Seq<char>) -> TreeVal {
        TreeVal::Text(m)
    }

    open spec fn of_tree(t: TreeVal) -> Option<Seq<char>> {
        match t {
            TreeVal::Text(s) => Some(s),
            _ => None,
        }
    }

    proof fn lemma_tree_round_trip(m: Seq<char>) {
    }

    proof fn lemma_tree_not_null(m: Seq<char>) {
    }

    proof fn lemma_tree_in_range(m: Seq<char>) {
    }

    open spec fn eq_model(a: Seq<char>, b: Seq<char>) -> bool {
        a == b
    }

    fn to_tree(&self) -> (r: StoredValue) {
        StoredValue::Text(self.clone())
    }

    fn from_tree(t: &StoredValue) -> (r: Result<Self, CodecError>) {
        match t {
            StoredValue::Text(s) => Ok(s.clone()),
            _ => Err(CodecError::SchemaMismatch),
        }
    }

    fn eq_value(&self, other: &Self) -> (r: bool) {
        *self == *other
    }
}

/// Model of [`ReqWxMessageDataValue`].
pub struct ReqWxMessageDataValueView {
    pub value: Seq<char>,
}

/// One templated message field: a single string value.
#[derive(Debug)]
pub struct ReqWxMessageDataValue {
    pub value: String,
}

impl DeepView for ReqWxMessageDataValue {
    type V = ReqWxMessageDataValueView;

    open spec fn deep_view(&self) -> ReqWxMessageDataValueView {
        ReqWxMessageDataValueView { value: self.value@ }
    }
}

impl Clone for ReqWxMessageDataValue {
    fn clone(&self) -> (r: Self)
        ensures
            r.deep_view() == self.deep_view(),
    {
        ReqWxMessageDataValue { value: self.value.clone() }
    }
}

impl Structured for ReqWxMessageDataValue {
    open spec fn tree_of(m: ReqWxMessageDataValueView) -> TreeVal {
        TreeVal::Obj(seq![("value"@, TreeVal::Text(m.value))])
    }

    open spec fn of_tree(t: TreeVal) -> Option<ReqWxMessageDataValueView> {
        match t {
            TreeVal::Obj(es) => {
                if es.len() == 1 && es[0].0 == "value"@ && es[0].1 is Text {
                    Some(ReqWxMessageDataValueView { value: es[0].1->Text_0 })
                } else {
                    None
                }
            },
            _ => None,
        }
    }

    proof fn lemma_tree_round_trip(m: ReqWxMessageDataValueView) {
    }

    proof fn lemma_tree_not_null(m: ReqWxMessageDataValueView) {
    }

    proof fn lemma_tree_in_range(m: ReqWxMessageDataValueView) {
        let es = Self::tree_of(m)->Obj_0;
        assert(forall|k: int| 0 <= k < es.len() ==> tree_in_range((#[trigger] es[k]).1)) by {
            assert(es[0].1 is Text);
        }
    }

    open spec fn eq_model(a: ReqWxMessageDataValueView, b: ReqWxMessageDataValueView) -> bool {
        a == b
    }

    fn to_tree(&self) -> (r: StoredValue) {
        let mut es: Vec<(String, StoredValue)> = Vec::new();
        es.push(("value".to_owned(), StoredValue::Text(self.value.clone())));
        proof {
            lemma_entry_views_of_push(Seq::empty(), es@[0]);
            assert(entry_views_of(es@) =~= seq![("value"@, TreeVal::Text(self.value@))]);
        }
        StoredValue::Obj(es)
    }

    fn from_tree(t: &StoredValue) -> (r: Result<Self, CodecError>) {
        match t {
            StoredValue::Obj(es) => {
                proof {
                    lemma_entry_views_of_len(es@);
                }
                if es.len() == 1 {
                    proof {
                        lemma_entry_views_of_index(es@, 0);
                    }
                    let key_matches = es[0].0 == "value".to_owned();
                    if key_matches {
                        match &es[0].1 {
                            StoredValue::Text(s) => Ok(ReqWxMessageDataValue { value: s.clone() }),
                            _ => Err(CodecError::SchemaMismatch),
                        }
                    } else {
                        Err(CodecError::SchemaMismatch)
                    }
                } else {
                    Err(CodecError::SchemaMismatch)
                }
            },
            _ => Err(CodecError::SchemaMismatch),
        }
    }

    fn eq_value(&self, other: &Self) -> (r: bool) {
        self.value == other.value
    }
}

/// Model of [`ReqWxMessageData4KeywordTemplate`].
pub struct ReqWxMessageData4KeywordTemplateView {
    pub first: ReqWxMessageDataValueView,
    pub remark: ReqWxMessageDataValueView,
}

/// A keyword-template message payload: an opening line and a remark.
#[derive(Debug)]
pub struct ReqWxMessageData4KeywordTemplate {
    pub first: ReqWxMessageDataValue,
    pub remark: ReqWxMessageDataValue,
}

impl DeepView for ReqWxMessageData4KeywordTemplate {
    type V = ReqWxMessageData4KeywordTemplateView;

    open spec fn deep_view(&self) -> ReqWxMessageData4KeywordTemplateView {
        ReqWxMessageData4KeywordTemplateView {
            first: self.first.deep_view(),
            remark: self.remark.deep_view(),
        }
    }
}

impl Clone for ReqWxMessageData4KeywordTemplate {
    fn clone(&self) -> (r: Self)
        ensures
            r.deep_view() == self.deep_view(),
    {
        ReqWxMessageData4KeywordTemplate {
            first: self.first.clone(),
            remark: self.remark.clone(),
        }
    }
}

impl Structured for ReqWxMessageData4KeywordTemplate {
    open spec fn tree_of(m: ReqWxMessageData4KeywordTemplateView) -> TreeVal {
        TreeVal::Obj(
            seq![
                ("first"@, ReqWxMessageDataValue::tree_of(m.first)),
                ("remark"@, ReqWxMessageDataValue::tree_of(m.remark)),
            ],
        )
    }

    open spec fn of_tree(t: TreeVal) -> Option<ReqWxMessageData4KeywordTemplateView> {
        match t {
            TreeVal::Obj(es) => {
                if es.len() == 2 && es[0].0 == "first"@ && es[1].0 == "remark"@ {
                    match (
                        ReqWxMessageDataValue::of_tree(es[0].1),
                        ReqWxMessageDataValue::of_tree(es[1].1),
                    ) {
                        (Some(f), Some(r)) => Some(
                            ReqWxMessageData4KeywordTemplateView { first: f, remark: r },
                        ),
                        _ => None,
                    }
                } else {
                    None
                }
            },
            _ => None,
        }
    }

    proof fn lemma_tree_round_trip(m: ReqWxMessageData4KeywordTemplateView) {
        ReqWxMessageDataValue::lemma_tree_round_trip(m.first);
        ReqWxMessageDataValue::lemma_tree_round_trip(m.remark);
    }

    proof fn lemma_tree_not_null(m: ReqWxMessageData4KeywordTemplateView) {
    }

    proof fn lemma_tree_in_range(m: ReqWxMessageData4KeywordTemplateView) {
        ReqWxMessageDataValue::lemma_tree_in_range(m.first);
        ReqWxMessageDataValue::lemma_tree_in_range(m.remark);
        let es = Self::tree_of(m)->Obj_0;
        assert(forall|k: int| 0 <= k < es.len() ==> tree_in_range((#[trigger] es[k]).1)) by {
            assert(es[0].1 == ReqWxMessageDataValue::tree_of(m.first));
            assert(es[1].1 == ReqWxMessageDataValue::tree_of(m.remark));
        }
    }

    fn to_tree(&self) -> (r: StoredValue) {
        let mut es: Vec<(String, StoredValue)> = Vec::new();
        es.push(("first".to_owned(), self.first.to_tree()));
        es.push(("remark".to_owned(), self.remark.to_tree()));
        proof {
            lemma_entry_views_of_push(Seq::empty(), es@[0]);
            lemma_entry_views_of_push(seq![es@[0]], es@[1]);
            assert(seq![es@[0]].push(es@[1]) =~= es@);
            assert(entry_views_of(es@) =~= seq![
                ("first"@, ReqWxMessageDataValue::tree_of(self.first.deep_view())),
                ("remark"@, ReqWxMessageDataValue::tree_of(self.remark.deep_view())),
            ]);
        }
        StoredValue::Obj(es)
    }

    fn from_tree(t: &StoredValue) -> (r: Result<Self, CodecError>) {
        match t {
            StoredValue::Obj(es) => {
                proof {
                    lemma_entry_views_of_len(es@);
                }
                if es.len() == 2 {
                    proof {
                        lemma_entry_views_of_index(es@, 0);
                        lemma_entry_views_of_index(es@, 1);
                    }
                    let keys_match = es[0].0 == "first".to_owned() && es[1].0
                        == "remark".to_owned();
                    if keys_match {
                        match (
                            ReqWxMessageDataValue::from_tree(&es[0].1),
                            ReqWxMessageDataValue::from_tree(&es[1].1),
                        ) {
                            (Ok(f), Ok(r)) => Ok(
                                ReqWxMessageData4KeywordTemplate { first: f, remark: r },
                            ),
                            _ => Err(CodecError::SchemaMismatch),
                        }
                    } else {
                        Err(CodecError::SchemaMismatch)
                    }
                } else {
                    Err(CodecError::SchemaMismatch)
                }
            },
            _ => Err(CodecError::SchemaMismatch),
        }
    }

    open spec fn eq_model(
        a: ReqWxMessageData4KeywordTemplateView,
        b: ReqWxMessageData4KeywordTemplateView,
    ) -> bool {
        a == b
    }

    fn eq_value(&self, other: &Self) -> (r: bool) {
        self.first.eq_value(&other.first) && self.remark.eq_value(&other.remark)
    }
}

/// Model of [`TypedMeta`], parameterized by the meta value's model.
pub struct TypedMetaView<MV> {
    pub meta: Option<MV>,
    pub data: Option<Seq<(Seq<char>, Seq<char>)>>,
}

/// The generic payload container: an optional, statically typed meta value
/// plus an optional free-form mapping of string keys to string values. The
/// whole container occupies a single semi-structured column.
#[derive(Debug)]
pub struct TypedMeta<T: Structured> {
    pub meta: Option<T>,
    pub data: Option<Vec<(String, String)>>,
}

impl<T: Structured> DeepView for TypedMeta<T> {
    type V = TypedMetaView<T::V>;

    open spec fn deep_view(&self) -> TypedMetaView<T::V> {
        TypedMetaView { meta: self.meta.deep_view(), data: self.data.deep_view() }
    }
}

/// The object entries a free-form mapping encodes to: each value as text.
pub open spec fn data_entries_tree(d: Seq<(Seq<char>, Seq<char>)>) -> Seq<(Seq<char>, TreeVal)> {
    Seq::new(d.len(), |i: int| (d[i].0, TreeVal::Text(d[i].1)))
}

/// The free-form mapping recovered from object entries: defined exactly when
/// every entry value is text.
pub open spec fn data_entries_of(es: Seq<(Seq<char>, TreeVal)>) -> Option<
    Seq<(Seq<char>, Seq<char>)>,
> {
    if forall|i: int| 0 <= i < es.len() ==> (#[trigger] es[i]).1 is Text {
        Some(Seq::new(es.len(), |i: int| (es[i].0, es[i].1->Text_0)))
    } else {
        None
    }
}

/// Recovering a mapping from its own encoding gives the mapping back.
pub proof fn lemma_data_entries_round_trip(d: Seq<(Seq<char>, Seq<char>)>)
    ensures
        data_entries_of(data_entries_tree(d)) == Some(d),
{
    let es = data_entries_tree(d);
    assert(forall|i: int| 0 <= i < es.len() ==> (#[trigger] es[i]).1 is Text);
    assert(data_entries_of(es).unwrap() =~= d);
}

/// Encodes a free-form mapping as object entries with text values.
fn data_to_entries(d: &Vec<(String, String)>) -> (r: Vec<(String, StoredValue)>)
    ensures
        entry_views_of(r@) == data_entries_tree(d.deep_view()),
{
    let ghost target = data_entries_tree(d.deep_view());
    let mut r: Vec<(String, StoredValue)> = Vec::new();
    let mut i: usize = 0;
    proof {
        assert(entry_views_of(r@) =~= target.take(0));
    }
    while i < d.len()
        invariant
            i <= d.len(),
            r@.len() == i,
            target == data_entries_tree(d.deep_view()),
            target.len() == d.len(),
            entry_views_of(r@) == target.take(i as int),
        decreases d.len() - i,
    {
        let ghost prev = r@;
        r.push((d[i].0.clone(), StoredValue::Text(d[i].1.clone())));
        proof {
            assert(r@ == prev.push(r@.last()));
            lemma_entry_views_of_push(prev, r@.last());
            assert(d.deep_view()[i as int] == (d@[i as int].0@, d@[i as int].1@));
            assert(r@.last().0@ == d@[i as int].0@);
            assert(r@.last().1@ == TreeVal::Text(d@[i as int].1@));
            assert(target[i as int] == (
                d.deep_view()[i as int].0,
                TreeVal::Text(d.deep_view()[i as int].1),
            ));
            assert((r@.last().0@, r@.last().1@) == target[i as int]);
            assert(target.take(i + 1) =~= target.take(i as int).push(target[i as int]));
            assert(entry_views_of(r@) == target.take(i + 1));
        }
        i = i + 1;
    }
    proof {
        assert(target.take(d.len() as int) =~= target);
    }
    r
}

/// Recovers a free-form mapping from object entries, rejecting any entry
/// whose value is not text.
fn entries_to_data(es: &Vec<(String, StoredValue)>) -> (r: Result<
    Vec<(String, String)>,
    CodecError,
>)
    ensures
        match data_entries_of(entry_views_of(es@)) {
            Some(d) => r matches Ok(v) && v.deep_view() == d,
            None => r matches Err(e) && e == CodecError::SchemaMismatch,
        },
{
    let ghost evs = entry_views_of(es@);
    proof {
        lemma_entry_views_of_len(es@);
    }
    let mut out: Vec<(String, String)> = Vec::new();
    let mut i: usize = 0;
    while i < es.len()
        invariant
            i <= es.len(),
            out@.len() == i,
            evs == entry_views_of(es@),
            evs.len() == es@.len(),
            forall|j: int| 0 <= j < i ==> (#[trigger] evs[j]).1 is Text,
            forall|j: int|
                0 <= j < i ==> #[trigger] out.deep_view()[j] == (evs[j].0, evs[j].1->Text_0),
        decreases es.len() - i,
    {
        proof {
            lemma_entry_views_of_index(es@, i as int);
        }
        match &es[i].1 {
            StoredValue::Text(s) => {
                let ghost prev = out@;
                let ghost prev_dv = out.deep_view();
                out.push((es[i].0.clone(), s.clone()));
                proof {
                    assert(out@ == prev.push(out@.last()));
                    assert(out@.last().0@ == es@[i as int].0@);
                    assert(out@.last().1@ == es@[i as int].1->Text_0@);
                    assert(out.deep_view()[i as int] == (out@[i as int].0@, out@[i as int].1@));
                    assert(out.deep_view()[i as int] == (evs[i as int].0, evs[i as int].1->Text_0));
                    assert forall|j: int|
                        0 <= j < i implies #[trigger] out.deep_view()[j] == (
                        evs[j].0,
                        evs[j].1->Text_0,
                    ) by {
                        assert(out.deep_view()[j] == prev[j].deep_view());
                        assert(prev[j].deep_view() == prev_dv[j]);
                        assert(prev_dv[j] == (evs[j].0, evs[j].1->Text_0));
                    }
                }
            },
            _ => {
                proof {
                    assert(!(evs[i as int].1 is Text));
                    assert(data_entries_of(evs) is None);
                }
                return Err(CodecError::SchemaMismatch);
            },
        }
        i = i + 1;
    }
    proof {
        assert(data_entries_of(evs) matches Some(d) && out.deep_view() =~= d);
    }
    Ok(out)
}

impl<T: Structured> Structured for TypedMeta<T> {
    open spec fn tree_of(m: TypedMetaView<T::V>) -> TreeVal {
        TreeVal::Obj(
            seq![
                (
                    "meta"@,
                    match m.meta {
                        Some(x) => T::tree_of(x),
                        None => TreeVal::Null,
                    },
                ),
                (
                    "data"@,
                    match m.data {
                        Some(d) => TreeVal::Obj(data_entries_tree(d)),
                        None => TreeVal::Null,
                    },
                ),
            ],
        )
    }

    open spec fn of_tree(t: TreeVal) -> Option<TypedMetaView<T::V>> {
        match t {
            TreeVal::Obj(es) => {
                if es.len() == 2 && es[0].0 == "meta"@ && es[1].0 == "data"@ {
                    let meta_part: Option<Option<T::V>> = if es[0].1 is Null {
                        Some(None)
                    } else {
                        match T::of_tree(es[0].1) {
                            Some(x) => Some(Some(x)),
                            None => None,
                        }
                    };
                    let data_part: Option<Option<Seq<(Seq<char>, Seq<char>)>>> = if es[1].1
                        is Null {
                        Some(None)
                    } else {
                        match es[1].1 {
                            TreeVal::Obj(des) => match data_entries_of(des) {
                                Some(d) => Some(Some(d)),
                                None => None,
                            },
                            _ => None,
                        }
                    };
                    match (meta_part, data_part) {
                        (Some(mm), Some(dd)) => Some(TypedMetaView { meta: mm, data: dd }),
                        _ => None,
                    }
                } else {
                    None
                }
            },
            _ => None,
        }
    }

    proof fn lemma_tree_round_trip(m: TypedMetaView<T::V>) {
        match m.meta {
            Some(x) => {
                T::lemma_tree_not_null(x);
                T::lemma_tree_round_trip(x);
            },
            None => {},
        }
        match m.data {
            Some(d) => {
                lemma_data_entries_round_trip(d);
            },
            None => {},
        }
    }

    proof fn lemma_tree_not_null(m: TypedMetaView<T::V>) {
    }

    proof fn lemma_tree_in_range(m: TypedMetaView<T::V>) {
        let es = Self::tree_of(m)->Obj_0;
        if m.meta is Some {
            T::lemma_tree_in_range(m.meta->0);
            assert(es[0].1 == T::tree_of(m.meta->0));
        } else {
            assert(es[0].1 is Null);
        }
        if m.data is Some {
            let des = data_entries_tree(m.data->0);
            assert(forall|q: int| 0 <= q < des.len() ==> (#[trigger] des[q]).1 is Text);
            assert(forall|q: int| 0 <= q < des.len() ==> tree_in_range((#[trigger] des[q]).1));
            assert(es[1].1 == TreeVal::Obj(des));
        } else {
            assert(es[1].1 is Null);
        }
        assert(tree_in_range(es[0].1));
        assert(tree_in_range(es[1].1));
        assert(forall|k: int| 0 <= k < es.len() ==> tree_in_range((#[trigger] es[k]).1));
    }

    fn to_tree(&self) -> (r: StoredValue) {
        let meta_stored = match &self.meta {
            Some(x) => x.to_tree(),
            None => StoredValue::Null,
        };
        let data_stored = match &self.data {
            Some(d) => StoredValue::Obj(data_to_entries(d)),
            None => StoredValue::Null,
        };
        let mut es: Vec<(String, StoredValue)> = Vec::new();
        es.push(("meta".to_owned(), meta_stored));
        es.push(("data".to_owned(), data_stored));
        proof {
            lemma_entry_views_of_push(Seq::empty(), es@[0]);
            lemma_entry_views_of_push(seq![es@[0]], es@[1]);
            assert(seq![es@[0]].push(es@[1]) =~= es@);
            assert(entry_views_of(es@) =~= Self::tree_of(self.deep_view())->Obj_0);
        }
        StoredValue::Obj(es)
    }

    fn from_tree(t: &StoredValue) -> (r: Result<Self, CodecError>) {
        match t {
            StoredValue::Obj(es) => {
                proof {
                    lemma_entry_views_of_len(es@);
                }
                if es.len() == 2 {
                    proof {
                        lemma_entry_views_of_index(es@, 0);
                        lemma_entry_views_of_index(es@, 1);
                    }
                    let keys_match = es[0].0 == "meta".to_owned() && es[1].0 == "data".to_owned();
                    if keys_match {
                        let meta = match &es[0].1 {
                            StoredValue::Null => None,
                            other => match T::from_tree(other) {
                                Ok(x) => Some(x),
                                Err(e) => {
                                    return Err(CodecError::SchemaMismatch);
                                },
                            },
                        };
                        let data = match &es[1].1 {
                            StoredValue::Null => None,
                            StoredValue::Obj(des) => match entries_to_data(des) {
                                Ok(d) => Some(d),
                                Err(e) => {
                                    return Err(CodecError::SchemaMismatch);
                                },
                            },
                            _ => {
                                return Err(CodecError::SchemaMismatch);
                            },
                        };
                        Ok(TypedMeta { meta, data })
                    } else {
                        Err(CodecError::SchemaMismatch)
                    }
                } else {
                    Err(CodecError::SchemaMismatch)
                }
            },
            _ => Err(CodecError::SchemaMismatch),
        }
    }

    open spec fn eq_model(a: TypedMetaView<T::V>, b: TypedMetaView<T::V>) -> bool {
        (match (a.meta, b.meta) {
            (Some(x), Some(y)) => T::eq_model(x, y),
            (None, None) => true,
            _ => false,
        }) && opt_data_map(a.data) == opt_data_map(b.data)
    }

    fn eq_value(&self, other: &Self) -> (r: bool) {
        let metas_match = match (&self.meta, &other.meta) {
            (Some(a), Some(b)) => a.eq_value(b),
            (None, None) => true,
            _ => false,
        };
        if !metas_match {
            return false;
        }
        data_eq(&self.data, &other.data)
    }
}

/// The mapping a key-value list denotes: a later binding of a key overrides
/// an earlier one, as the engine's object reading and the original's map
/// semantics had it.
pub open spec fn data_map(d: Seq<(Seq<char>, Seq<char>)>) -> Map<Seq<char>, Seq<char>>
    decreases d,
{
    if d.len() == 0 {
        Map::<Seq<char>, Seq<char>>::empty()
    } else {
        data_map(d.drop_last()).insert(d.last().0, d.last().1)
    }
}

/// The mapping of an optional key-value list.
pub open spec fn opt_data_map(d: Option<Seq<(Seq<char>, Seq<char>)>>) -> Option<
    Map<Seq<char>, Seq<char>>,
> {
    match d {
        Some(x) => Some(data_map(x)),
        None => None,
    }
}

/// The last binding of a key in a key-value list.
pub open spec fn last_binding(d: Seq<(Seq<char>, Seq<char>)>, k: Seq<char>) -> Option<Seq<char>>
    decreases d,
{
    if d.len() == 0 {
        None
    } else if d.last().0 == k {
        Some(d.last().1)
    } else {
        last_binding(d.drop_last(), k)
    }
}

/// A key is bound exactly when some entry carries it, and then its value is
/// its last binding.
pub proof fn lemma_data_map_binding(d: Seq<(Seq<char>, Seq<char>)>, k: Seq<char>)
    ensures
        data_map(d).dom().contains(k) <==> (exists|j: int|
            0 <= j < d.len() && (#[trigger] d[j]).0 == k),
        data_map(d).dom().contains(k) <==> last_binding(d, k) is Some,
        last_binding(d, k) matches Some(v) ==> data_map(d)[k] == v,
    decreases d,
{
    if d.len() > 0 {
        let front = d.drop_last();
        lemma_data_map_binding(front, k);
        if d.last().0 == k {
            assert((d[d.len() - 1]).0 == k);
        } else {
            if exists|j: int| 0 <= j < d.len() && (#[trigger] d[j]).0 == k {
                let j = choose|j: int| 0 <= j < d.len() && (#[trigger] d[j]).0 == k;
                assert(j < d.len() - 1);
                assert((front[j]).0 == k);
            }
            if exists|j: int| 0 <= j < front.len() && (#[trigger] front[j]).0 == k {
                let j = choose|j: int| 0 <= j < front.len() && (#[trigger] front[j]).0 == k;
                assert((d[j]).0 == k);
            }
        }
    }
}

/// The value of a key's last binding in the list, if the key is bound.
fn lookup_last<'a>(d: &'a Vec<(String, String)>, k: &String) -> (r: Option<&'a String>)
    ensures
        match r {
            Some(v) => last_binding(d.deep_view(), k@) == Some(v@),
            None => last_binding(d.deep_view(), k@) is None,
        },
{
    let ghost dv = d.deep_view();
    let mut i: usize = d.len();
    proof {
        assert(dv.take(d@.len() as int) =~= dv);
    }
    while i > 0
        invariant
            i <= d@.len(),
            dv == d.deep_view(),
            dv.len() == d@.len(),
            last_binding(dv, k@) == last_binding(dv.take(i as int), k@),
        decreases i,
    {
        i = i - 1;
        proof {
            assert(dv.take(i + 1).last() == dv[i as int]);
            assert(dv.take(i + 1).drop_last() =~= dv.take(i as int));
            assert(dv[i as int] == (d@[i as int].0@, d@[i as int].1@));
        }
        if d[i].0 == *k {
            return Some(&d[i].1);
        }
    }
    proof {
        assert(dv.take(0) =~= Seq::<(Seq<char>, Seq<char>)>::empty());
    }
    None
}

/// Decides whether two key-value lists denote the same mapping.
fn data_map_eq(av: &Vec<(String, String)>, bv: &Vec<(String, String)>) -> (r: bool)
    ensures
        r == (data_map(av.deep_view()) == data_map(bv.deep_view())),
{
    let ghost ma = data_map(av.deep_view());
    let ghost mb = data_map(bv.deep_view());
    // Every key bound by the first list is bound by the second, to the same
    // value.
    let mut i: usize = 0;
    while i < av.len()
        invariant
            i <= av@.len(),
            ma == data_map(av.deep_view()),
            mb == data_map(bv.deep_view()),
            av.deep_view().len() == av@.len(),
            forall|j: int|
                0 <= j < i ==> mb.dom().contains((#[trigger] av.deep_view()[j]).0) && ma[
                    av.deep_view()[j].0] == mb[av.deep_view()[j].0],
        decreases av@.len() - i,
    {
        let k = &av[i].0;
        proof {
            assert(av.deep_view()[i as int] == (av@[i as int].0@, av@[i as int].1@));
            lemma_data_map_binding(av.deep_view(), k@);
            lemma_data_map_binding(bv.deep_view(), k@);
            assert(ma.dom().contains(k@)) by {
                assert((av.deep_view()[i as int]).0 == k@);
            }
        }
        let ok = match (lookup_last(av, k), lookup_last(bv, k)) {
            (Some(va), Some(vb)) => *va == *vb,
            (None, None) => true,
            _ => false,
        };
        if !ok {
            proof {
                assert(ma != mb);
            }
            return false;
        }
        proof {
            assert(mb.dom().contains(k@) && ma[k@] == mb[k@]);
        }
        i = i + 1;
    }
    // Every key bound by the second list is bound by the first.
    let mut i2: usize = 0;
    while i2 < bv.len()
        invariant
            i2 <= bv@.len(),
            ma == data_map(av.deep_view()),
            mb == data_map(bv.deep_view()),
            av.deep_view().len() == av@.len(),
            bv.deep_view().len() == bv@.len(),
            forall|j: int|
                0 <= j < av.deep_view().len() ==> mb.dom().contains(
                    (#[trigger] av.deep_view()[j]).0,
                ) && ma[av.deep_view()[j].0] == mb[av.deep_view()[j].0],
            forall|j: int| 0 <= j < i2 ==> ma.dom().contains((#[trigger] bv.deep_view()[j]).0),
        decreases bv@.len() - i2,
    {
        let k = &bv[i2].0;
        proof {
            assert(bv.deep_view()[i2 as int] == (bv@[i2 as int].0@, bv@[i2 as int].1@));
            lemma_data_map_binding(av.deep_view(), k@);
            lemma_data_map_binding(bv.deep_view(), k@);
            assert(mb.dom().contains(k@)) by {
                assert((bv.deep_view()[i2 as int]).0 == k@);
            }
        }
        let bound = match lookup_last(av, k) {
            Some(_) => true,
            None => false,
        };
        if !bound {
            proof {
                assert(!ma.dom().contains(k@));
                assert(ma != mb);
            }
            return false;
        }
        proof {
            assert(ma.dom().contains(k@));
        }
        i2 = i2 + 1;
    }
    proof {
        assert forall|k: Seq<char>| #[trigger] ma.dom().contains(k) implies mb.dom().contains(k)
            && ma[k] == mb[k] by {
            lemma_data_map_binding(av.deep_view(), k);
            let j = choose|j: int|
                0 <= j < av.deep_view().len() && (#[trigger] av.deep_view()[j]).0 == k;
            assert(mb.dom().contains(av.deep_view()[j].0));
        }
        assert forall|k: Seq<char>| #[trigger] mb.dom().contains(k) implies ma.dom().contains(
            k,
        ) by {
            lemma_data_map_binding(bv.deep_view(), k);
            let j = choose|j: int|
                0 <= j < bv.deep_view().len() && (#[trigger] bv.deep_view()[j]).0 == k;
            assert(ma.dom().contains(bv.deep_view()[j].0));
        }
        assert(ma.dom() =~= mb.dom());
        assert(ma =~= mb);
    }
    true
}

/// Decides equality of two optional free-form mappings, as mappings: key
/// order and shadowed duplicate bindings are not significant.
fn data_eq(a: &Option<Vec<(String, String)>>, b: &Option<Vec<(String, String)>>) -> (r: bool)
    ensures
        r == (opt_data_map(a.deep_view()) == opt_data_map(b.deep_view())),
{
    match (a, b) {
        (Some(av), Some(bv)) => data_map_eq(av, bv),
        (None, None) => true,
        _ => false,
    }
}

impl<T: Structured> PartialEq for TypedMeta<T> {
    fn eq(&self, other: &Self) -> (r: bool) {
        self.eq_value(other)
    }
}

impl<T: Structured> vstd::std_specs::cmp::PartialEqSpecImpl for TypedMeta<T> {
    open spec fn obeys_eq_spec() -> bool {
        true
    }

    open spec fn eq_spec(&self, other: &Self) -> bool {
        TypedMeta::<T>::eq_model(self.deep_view(), other.deep_view())
    }
}

impl<T: Structured> Default for TypedMeta<T> {
    /// The empty payload: no meta value and no mapping.
    fn default() -> (r: Self)
        ensures
            r.meta is None,
            r.data is None,
    {
        TypedMeta { meta: None, data: None }
    }
}

/// Encode a payload into the store's column value.
///
/// Total: every payload constructible in memory encodes, since the column
/// tree represents exactly the shapes a payload can hold.
pub fn encode<T: Structured>(p: &TypedMeta<T>) -> (r: StoredValue)
    ensures
        r@ == TypedMeta::<T>::tree_of(p.deep_view()),
{
    p.to_tree()
}

/// Decode a column value back into a typed payload; a tree whose shape does
/// not match the payload's static shape is rejected, never coerced.
pub fn decode<T: Structured>(raw: &StoredValue) -> (r: Result<TypedMeta<T>, CodecError>)
    ensures
        match TypedMeta::<T>::of_tree(raw@) {
            Some(m) => r matches Ok(v) && v.deep_view() == m,
            None => r matches Err(e) && e == CodecError::SchemaMismatch,
        },
{
    TypedMeta::<T>::from_tree(raw)
}

/// Round-trip law: decoding the encoding of any constructible payload gives
/// back exactly that payload, for every payload type.
pub proof fn lemma_codec_round_trip<T: Structured>(m: TypedMetaView<T::V>)
    ensures
        TypedMeta::<T>::of_tree(TypedMeta::<T>::tree_of(m)) == Some(m),
{
    TypedMeta::<T>::lemma_tree_round_trip(m);
}

/// Encode a payload into the raw text of its column value, as the store
/// hands the column out on a raw read.
pub fn encode_text<T: Structured>(p: &TypedMeta<T>) -> (r: String)
    ensures
        r@ == render_tree(TypedMeta::<T>::tree_of(p.deep_view())),
{
    let v = p.to_tree();
    to_text(&v)
}

/// Decode a payload from the raw text of its column value: text that is not
/// valid tree text is malformed; a well-formed tree of the wrong shape is a
/// schema mismatch.
pub fn decode_text<T: Structured>(raw: &str) -> (r: Result<TypedMeta<T>, CodecError>)
    ensures
        match spec_parse_text(raw@) {
            Some(t) => match TypedMeta::<T>::of_tree(t) {
                Some(m) => r matches Ok(v) && v.deep_view() == m,
                None => r matches Err(e) && e == CodecError::SchemaMismatch,
            },
            None => r matches Err(e) && e == CodecError::Malformed,
        },
{
    match from_text(raw) {
        Ok(v) => TypedMeta::<T>::from_tree(&v),
        Err(e) => Err(e),
    }
}

/// Round-trip law at the raw-text level: the text of an encoded payload
/// parses back to the encoded tree, and that tree decodes to exactly the
/// payload it came from, for every payload type.
pub proof fn lemma_text_codec_round_trip<T: Structured>(m: TypedMetaView<T::V>)
    ensures
        ({
            let tree = TypedMeta::<T>::tree_of(m);
            spec_parse_text(render_tree(tree)) == Some(tree) && TypedMeta::<T>::of_tree(tree)
                == Some(m)
        }),
{
    TypedMeta::<T>::lemma_tree_in_range(m);
    crate::text::lemma_parse_render(TypedMeta::<T>::tree_of(m));
    TypedMeta::<T>::lemma_tree_round_trip(m);
}

/// The payload container fixed to a plain string meta value.
#[derive(Debug)]
pub struct Meta {
    pub meta: Option<String>,
    pub data: Option<Vec<(String, String)>>,
}

impl DeepView for Meta {
    type V = TypedMetaView<Seq<char>>;

    open spec fn deep_view(&self) -> TypedMetaView<Seq<char>> {
        TypedMetaView { meta: self.meta.deep_view(), data: self.data.deep_view() }
    }
}

impl Structured for Meta {
    open spec fn tree_of(m: TypedMetaView<Seq<char>>) -> TreeVal {
        TypedMeta::<String>::tree_of(m)
    }

    open spec fn of_tree(t: TreeVal) -> Option<TypedMetaView<Seq<char>>> {
        TypedMeta::<String>::of_tree(t)
    }

    proof fn lemma_tree_round_trip(m: TypedMetaView<Seq<char>>) {
        TypedMeta::<String>::lemma_tree_round_trip(m);
    }

    proof fn lemma_tree_not_null(m: TypedMetaView<Seq<char>>) {
    }

    proof fn lemma_tree_in_range(m: TypedMetaView<Seq<char>>) {
        TypedMeta::<String>::lemma_tree_in_range(m);
    }

    open spec fn eq_model(a: TypedMetaView<Seq<char>>, b: TypedMetaView<Seq<char>>) -> bool {
        TypedMeta::<String>::eq_model(a, b)
    }

    fn to_tree(&self) -> (r: StoredValue) {
        let meta_stored = match &self.meta {
            Some(s) => StoredValue::Text(s.clone()),
            None => StoredValue::Null,
        };
        let data_stored = match &self.data {
            Some(d) => StoredValue::Obj(data_to_entries(d)),
            None => StoredValue::Null,
        };
        let mut es: Vec<(String, StoredValue)> = Vec::new();
        es.push(("meta".to_owned(), meta_stored));
        es.push(("data".to_owned(), data_stored));
        proof {
            lemma_entry_views_of_push(Seq::empty(), es@[0]);
            lemma_entry_views_of_push(seq![es@[0]], es@[1]);
            assert(seq![es@[0]].push(es@[1]) =~= es@);
            assert(entry_views_of(es@) =~= Self::tree_of(self.deep_view())->Obj_0);
        }
        StoredValue::Obj(es)
    }

    fn from_tree(t: &StoredValue) -> (r: Result<Self, CodecError>) {
        match TypedMeta::<String>::from_tree(t) {
            Ok(tm) => Ok(Meta { meta: tm.meta, data: tm.data }),
            Err(e) => Err(e),
        }
    }

    fn eq_value(&self, other: &Self) -> (r: bool) {
        let metas_match = match (&self.meta, &other.meta) {
            (Some(a), Some(b)) => *a == *b,
            (None, None) => true,
            _ => false,
        };
        metas_match && data_eq(&self.data, &other.data)
    }
}

impl PartialEq for Meta {
    fn eq(&self, other: &Self) -> (r: bool) {
        self.eq_value(other)
    }
}

impl vstd::std_specs::cmp::PartialEqSpecImpl for Meta {
    open spec fn obeys_eq_spec() -> bool {
        true
    }

    open spec fn eq_spec(&self, other: &Self) -> bool {
        TypedMeta::<String>::eq_model(self.deep_view(), other.deep_view())
    }
}

impl Default for Meta {
    /// The empty payload: no meta text and no mapping.
    fn default() -> (r: Self)
        ensures
            r.meta is None,
            r.data is None,
    {
        Meta { meta: None, data: None }
    }
}

} // verus!
