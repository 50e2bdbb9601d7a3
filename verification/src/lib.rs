//! Generic indexed containers: records keyed by a caller-supplied identifier,
//! stored either densely in insertion order (`LinearTable`) or in slots
//! addressed by a numeric view of the identifier (`SparseTable`), behind the
//! common `Table` interface.

use vstd::prelude::*;

pub mod linear_table;
pub mod sparse_table;

verus! {

/// A stored record: an identifier paired with the value it names.
pub struct TableEntry<T, ID> {
    pub id: ID,
    pub data: T,
}

impl<T, ID> TableEntry<T, ID> {
    pub fn new(id: ID, data: T) -> (e: Self)
        ensures
            e.id == id,
            e.data == data,
    {
        Self { id, data }
    }
}

/// An identifier type whose runtime equality test agrees with mathematical
/// equality of the values. Both table strategies compare identifiers through
/// this trait.
pub trait IdEq: Sized + Copy {
    fn eq_id(&self, other: &Self) -> (b: bool)
        ensures
            b == (*self == *other),
    ;
}

/// An identifier that exposes a dense non-negative numeric view, used by
/// `SparseTable` as a direct slot offset.
pub trait U64Id: Sized {
    /// The numeric index of this identifier.
    spec fn id_spec(&self) -> u64;

    fn get_id(&self) -> (n: u64)
        ensures
            n == self.id_spec(),
    ;
}

impl IdEq for u64 {
    fn eq_id(&self, other: &Self) -> (b: bool) {
        *self == *other
    }
}

impl U64Id for u64 {
    open spec fn id_spec(&self) -> u64 {
        *self
    }

    fn get_id(&self) -> (n: u64) {
        *self
    }
}

/// Whether some record in `s` is stored under `id`.
pub open spec fn has_id<T, ID>(s: Seq<(ID, T)>, id: ID) -> bool {
    exists|i: int| 0 <= i < s.len() && s[i].0 == id
}

/// The last record in `s` stored under `id` (the lookup tie-break: a scan
/// takes the last match in storage order).
pub open spec fn last_with_id<T, ID>(s: Seq<(ID, T)>, id: ID) -> (ID, T)
    decreases s.len(),
{
    if s.len() == 0 {
        arbitrary()
    } else if s.last().0 == id {
        s.last()
    } else {
        last_with_id(s.drop_last(), id)
    }
}

/// Some position in `s` holding a record stored under `id`.
pub open spec fn index_of_id<T, ID>(s: Seq<(ID, T)>, id: ID) -> int {
    choose|i: int| 0 <= i < s.len() && s[i].0 == id
}

/// No two records of `s` share an identifier.
pub open spec fn distinct_ids<T, ID>(s: Seq<(ID, T)>) -> bool {
    forall|i: int, j: int| 0 <= i < j < s.len() ==> s[i].0 != s[j].0
}

/// `last_with_id` is the record at any position whose suffix holds no further
/// match.
pub proof fn lemma_last_with_id_at<T, ID>(s: Seq<(ID, T)>, id: ID, i: int)
    requires
        0 <= i < s.len(),
        s[i].0 == id,
        forall|j: int| i < j < s.len() ==> s[j].0 != id,
    ensures
        has_id(s, id),
        last_with_id(s, id) == s[i],
    decreases s.len(),
{
    if i == s.len() - 1 {
    } else {
        assert(s.drop_last()[i] == s[i]);
        lemma_last_with_id_at(s.drop_last(), id, i);
    }
}

/// Filtering distributes over appending one element.
pub proof fn lemma_filter_push<A>(s: Seq<A>, pred: spec_fn(A) -> bool, e: A)
    ensures
        s.push(e).filter(pred) == if pred(e) {
            s.filter(pred).push(e)
        } else {
            s.filter(pred)
        },
{
    reveal(Seq::filter);
    assert(s.push(e).drop_last() =~= s);
}

/// Filtering keeps a sequence whose members all satisfy the predicate.
pub proof fn lemma_filter_all_true<A>(s: Seq<A>, pred: spec_fn(A) -> bool)
    requires
        forall|i: int| 0 <= i < s.len() ==> pred(#[trigger] s[i]),
    ensures
        s.filter(pred) == s,
    decreases s.len(),
{
    reveal(Seq::filter);
    if s.len() > 0 {
        assert(forall|i: int| 0 <= i < s.drop_last().len() ==> #[trigger] s.drop_last()[i]
            == s[i]);
        lemma_filter_all_true(s.drop_last(), pred);
        assert(s.drop_last().push(s.last()) =~= s);
    }
}

/// Filtering a sequence with exactly one failing member removes exactly that
/// member and keeps every other in place.
pub proof fn lemma_filter_one_false<A>(s: Seq<A>, pred: spec_fn(A) -> bool, k: int)
    requires
        0 <= k < s.len(),
        !pred(s[k]),
        forall|i: int| 0 <= i < s.len() && i != k ==> pred(#[trigger] s[i]),
    ensures
        s.filter(pred) == s.remove(k),
    decreases s.len(),
{
    reveal(Seq::filter);
    if k == s.len() - 1 {
        lemma_filter_all_true(s.drop_last(), pred);
        assert(s.drop_last() =~= s.remove(k));
    } else {
        lemma_filter_one_false(s.drop_last(), pred, k);
        assert(s.drop_last().remove(k).push(s.last()) =~= s.remove(k));
    }
}

/// Law: deletion is idempotent. `delete_by_id` leaves the live records
/// filtered by "not the targeted slot"; filtering again with the same
/// predicate changes nothing, so a second identical delete leaves the state
/// of the first.
pub proof fn lemma_filter_idempotent<A>(s: Seq<A>, pred: spec_fn(A) -> bool)
    ensures
        s.filter(pred).filter(pred) == s.filter(pred),
{
    broadcast use vstd::seq_lib::group_filter_ensures;

    lemma_filter_all_true(s.filter(pred), pred);
}

/// Law: round trip. `push(item, id)` appends `(id, item)` to the live
/// records, and a lookup of `id` then finds it as the last match, so
/// `try_get_by_id(id)` returns a value equal to `item`.
pub proof fn lemma_push_round_trip<T, ID>(s: Seq<(ID, T)>, id: ID, item: T)
    ensures
        has_id(s.push((id, item)), id),
        last_with_id(s.push((id, item)), id) == (id, item),
{
    let s1 = s.push((id, item));
    assert(s1[s1.len() - 1] == (id, item));
}

/// The shared capability contract of the two storage strategies: push,
/// delete, look up and replace records by identifier, and count the live
/// records. Each implementor supplies the spec functions that model its
/// state; the method contracts below then describe every operation's effect
/// on the sequence of live records.
pub trait Table<T, ID>: Sized {
    /// The structural invariant of this strategy; established by its
    /// constructor and preserved by every operation.
    spec fn wf(&self) -> bool;

    /// The live records, in iteration order: insertion order for the linear
    /// strategy, ascending slot index for the sparse one.
    spec fn live(&self) -> Seq<(ID, T)>;

    /// Whether this state accepts `push` under `id` (identifier uniqueness,
    /// and for the sparse strategy slot alignment).
    spec fn may_push(&self, id: ID) -> bool;

    /// Whether this state accepts `set_by_id` under `id` (always for the
    /// linear strategy; for the sparse one the slot must already exist).
    spec fn may_set(&self, id: ID) -> bool;

    /// Whether a record stored under `a` is the one `delete_by_id(b)`
    /// targets: identifier equality for the linear strategy, equality of
    /// numeric indices for the sparse one.
    spec fn same_slot(&self, a: ID, b: ID) -> bool;

    /// The live records after `set_by_id(id, item)`: the linear strategy
    /// replaces an existing record in place or does nothing; the sparse one
    /// overwrites the slot at `id`'s numeric index unconditionally.
    spec fn set_view(&self, id: ID, item: T) -> Seq<(ID, T)>;

    /// Inserts a new record under `id`; it becomes the last live record in
    /// iteration order.
    fn push(&mut self, item: T, id: ID)
        requires
            old(self).wf(),
            old(self).may_push(id),
        ensures
            final(self).wf(),
            final(self).live() == old(self).live().push((id, item)),
    ;

    /// Removes visibility of the record `id` targets; a silent no-op when
    /// there is none.
    fn delete_by_id(&mut self, id: ID)
        requires
            old(self).wf(),
        ensures
            final(self).wf(),
            final(self).live() == old(self).live().filter(
                |p: (ID, T)| !old(self).same_slot(p.0, id),
            ),
    ;

    /// Returns the live record stored under `id`, or nothing when there is
    /// none; when several match, the last in storage order wins.
    fn try_get_by_id(&self, id: ID) -> (r: Option<&T>)
        requires
            self.wf(),
        ensures
            match r {
                Some(v) => has_id(self.live(), id) && *v == last_with_id(self.live(), id).1,
                None => !has_id(self.live(), id),
            },
    ;

    /// The looked-up record for call sites that have already established its
    /// existence.
    fn get_by_id(&self, id: ID) -> (r: &T)
        requires
            self.wf(),
            has_id(self.live(), id),
        ensures
            *r == last_with_id(self.live(), id).1,
    {
        self.try_get_by_id(id).unwrap()
    }

    /// Replaces the record `id` names, as `set_view` describes.
    fn set_by_id(&mut self, id: ID, item: T)
        requires
            old(self).wf(),
            old(self).may_set(id),
        ensures
            final(self).wf(),
            final(self).live() == old(self).set_view(id, item),
    ;

    /// The number of currently live records.
    fn len(&self) -> (n: usize)
        requires
            self.wf(),
        ensures
            n == self.live().len(),
    ;
}

} // verus!
