//! The store's semi-structured column value: a self-describing tree of
//! nulls, booleans, integers, text, arrays and keyed objects, together with
//! its mathematical model.

use vstd::prelude::*;

verus! {

/// The mathematical model of a column value: an unbounded tree.
///
/// An object is modelled as the sequence of its entries in storage order;
/// key order is part of the physical representation, though payload equality
/// is stated over whole trees, so two payloads that disagree only in entry
/// order are distinct trees.
pub enum TreeVal {
    Null,
    Bool(bool),
    Int(int),
    Text(Seq<char>),
    Arr(Seq<TreeVal>),
    Obj(Seq<(Seq<char>, TreeVal)>),
}

/// A column value as held in memory: the executable form of [`TreeVal`].
#[derive(Debug)]
pub enum StoredValue {
    Null,
    Bool(bool),
    Int(i64),
    Text(String),
    Arr(Vec<StoredValue>),
    Obj(Vec<(String, StoredValue)>),
}

/// Model of a sequence of child values.
pub open spec fn views_of(s: Seq<StoredValue>) -> Seq<TreeVal>
    decreases s,
{
    if s.len() == 0 {
        Seq::<TreeVal>::empty()
    } else {
        views_of(s.drop_last()).push(s.last().view())
    }
}

/// Model of a sequence of object entries.
pub open spec fn entry_views_of(s: Seq<(String, StoredValue)>) -> Seq<(Seq<char>, TreeVal)>
    decreases s,
{
    if s.len() == 0 {
        Seq::<(Seq<char>, TreeVal)>::empty()
    } else {
        entry_views_of(s.drop_last()).push((s.last().0@, s.last().1.view()))
    }
}

impl View for StoredValue {
    type V = TreeVal;

    open spec fn view(&self) -> TreeVal
        decreases self,
    {
        match self {
            StoredValue::Null => TreeVal::Null,
            StoredValue::Bool(b) => TreeVal::Bool(*b),
            StoredValue::Int(n) => TreeVal::Int(*n as int),
            StoredValue::Text(s) => TreeVal::Text(s@),
            StoredValue::Arr(xs) => TreeVal::Arr(views_of(xs@)),
            StoredValue::Obj(fs) => TreeVal::Obj(entry_views_of(fs@)),
        }
    }
}

/// The length of a modelled child sequence is the length of the source.
pub proof fn lemma_views_of_len(s: Seq<StoredValue>)
    ensures
        views_of(s).len() == s.len(),
    decreases s,
{
    if s.len() > 0 {
        lemma_views_of_len(s.drop_last());
        assert(s.drop_last().len() == s.len() - 1);
        assert(views_of(s) == views_of(s.drop_last()).push(s.last().view()));
    }
}

/// Each modelled child is the model of the corresponding source child.
pub proof fn lemma_views_of_index(s: Seq<StoredValue>, i: int)
    requires
        0 <= i < s.len(),
    ensures
        views_of(s).len() == s.len(),
        views_of(s)[i] == s[i]@,
    decreases s,
{
    lemma_views_of_len(s);
    lemma_views_of_len(s.drop_last());
    assert(s.drop_last().len() == s.len() - 1);
    assert(views_of(s) == views_of(s.drop_last()).push(s.last().view()));
    if i < s.len() - 1 {
        lemma_views_of_index(s.drop_last(), i);
        assert(s.drop_last()[i] == s[i]);
    }
}

/// Appending a child appends its model.
pub proof fn lemma_views_of_push(s: Seq<StoredValue>, x: StoredValue)
    ensures
        views_of(s.push(x)) == views_of(s).push(x@),
{
    assert(s.push(x).drop_last() =~= s);
    assert(s.push(x).last() == x);
}

/// The length of a modelled entry sequence is the length of the source.
pub proof fn lemma_entry_views_of_len(s: Seq<(String, StoredValue)>)
    ensures
        entry_views_of(s).len() == s.len(),
    decreases s,
{
    if s.len() > 0 {
        lemma_entry_views_of_len(s.drop_last());
        assert(s.drop_last().len() == s.len() - 1);
        assert(entry_views_of(s) == entry_views_of(s.drop_last()).push(
            (s.last().0@, s.last().1.view()),
        ));
    }
}

/// Each modelled entry carries the key view and value model of its source.
pub proof fn lemma_entry_views_of_index(s: Seq<(String, StoredValue)>, i: int)
    requires
        0 <= i < s.len(),
    ensures
        entry_views_of(s).len() == s.len(),
        entry_views_of(s)[i] == (s[i].0@, s[i].1@),
    decreases s,
{
    lemma_entry_views_of_len(s);
    lemma_entry_views_of_len(s.drop_last());
    assert(s.drop_last().len() == s.len() - 1);
    assert(entry_views_of(s) == entry_views_of(s.drop_last()).push(
        (s.last().0@, s.last().1.view()),
    ));
    if i < s.len() - 1 {
        lemma_entry_views_of_index(s.drop_last(), i);
        assert(s.drop_last()[i] == s[i]);
    }
}

/// Every integer in the tree fits the store's integer column type. The
/// model of every in-memory column value satisfies this.
pub open spec fn tree_in_range(t: TreeVal) -> bool
    decreases t, 1int,
{
    match t {
        TreeVal::Int(n) => i64::MIN <= n <= i64::MAX,
        TreeVal::Arr(xs) => forall|k: int| 0 <= k < xs.len() ==> tree_in_range(#[trigger] xs[k]),
        TreeVal::Obj(fs) => forall|k: int|
            0 <= k < fs.len() ==> tree_in_range((#[trigger] fs[k]).1),
        _ => true,
    }
}

/// The model of an in-memory column value keeps every integer in range.
pub proof fn lemma_stored_in_range(v: StoredValue)
    ensures
        tree_in_range(v@),
    decreases v,
{
    match v {
        StoredValue::Arr(xs) => {
            lemma_views_of_len(xs@);
            assert forall|k: int| 0 <= k < views_of(xs@).len() implies tree_in_range(
                #[trigger] views_of(xs@)[k],
            ) by {
                lemma_views_of_index(xs@, k);
                lemma_stored_in_range(xs@[k]);
            }
        },
        StoredValue::Obj(fs) => {
            lemma_entry_views_of_len(fs@);
            assert forall|k: int| 0 <= k < entry_views_of(fs@).len() implies tree_in_range(
                (#[trigger] entry_views_of(fs@)[k]).1,
            ) by {
                lemma_entry_views_of_index(fs@, k);
                lemma_stored_in_range(fs@[k].1);
            }
        },
        _ => {},
    }
}

/// Appending an entry appends its model.
pub proof fn lemma_entry_views_of_push(s: Seq<(String, StoredValue)>, x: (String, StoredValue))
    ensures
        entry_views_of(s.push(x)) == entry_views_of(s).push((x.0@, x.1@)),
{
    assert(s.push(x).drop_last() =~= s);
    assert(s.push(x).last() == x);
}

} // verus!
