//! The densely packed strategy: live records sit in one insertion-ordered
//! vector, and deletion physically removes them.

use vstd::prelude::*;
use vstd::pervasive::VecAdditionalExecFns;

use crate::{
    distinct_ids, has_id, index_of_id, lemma_filter_all_true, lemma_filter_idempotent,
    lemma_filter_one_false, lemma_filter_push, lemma_last_with_id_at, IdEq, Table, TableEntry,
};

verus! {

/// A table whose live records form an insertion-ordered sequence.
///
/// `ids` is the identifier log kept only for uniqueness checks; `invisible`
/// is reserved for a soft-delete mode and is never filled by the present
/// deletion path.
pub struct LinearTable<T, ID> {
    ids: Vec<ID>,
    visible: Vec<TableEntry<T, ID>>,
    invisible: Vec<TableEntry<T, ID>>,
}

impl<T, ID> LinearTable<T, ID> {
    /// The live records in insertion order.
    pub closed spec fn entries(&self) -> Seq<(ID, T)> {
        Seq::new(self.visible@.len(), |i: int| (self.visible@[i].id, self.visible@[i].data))
    }

    /// The identifier log.
    pub closed spec fn logged_ids(&self) -> Seq<ID> {
        self.ids@
    }

    /// How many records the soft-delete store hides (always zero: the
    /// present deletion path removes records outright).
    pub closed spec fn hidden_count(&self) -> nat {
        self.invisible@.len()
    }

    /// The structural invariant: the identifier log mirrors the live
    /// records, live identifiers are pairwise distinct, and the soft-delete
    /// store is empty.
    pub open spec fn inv(&self) -> bool {
        &&& self.logged_ids().len() == self.entries().len()
        &&& (forall|i: int|
            0 <= i < self.entries().len() ==> self.logged_ids()[i] == #[trigger] self.entries()[i].0)
        &&& distinct_ids(self.entries())
        &&& self.hidden_count() == 0
    }

    pub fn new() -> (t: Self)
        ensures
            t.inv(),
            t.entries() == Seq::<(ID, T)>::empty(),
            t.logged_ids() == Seq::<ID>::empty(),
    {
        let t = Self { ids: Vec::new(), visible: Vec::new(), invisible: Vec::new() };
        proof {
            assert(t.entries() =~= Seq::<(ID, T)>::empty());
        }
        t
    }
}

impl<T, ID> Default for LinearTable<T, ID> {
    fn default() -> (t: Self)
        ensures
            t.inv(),
            t.entries() == Seq::<(ID, T)>::empty(),
            t.logged_ids() == Seq::<ID>::empty(),
    {
        Self::new()
    }
}

impl<T, ID: IdEq> LinearTable<T, ID> {
    /// The explicit uniqueness check: reports whether `new_id` is free, that
    /// is, whether a push under it would keep live identifiers pairwise
    /// distinct. A failing check is the duplicate-identifier condition.
    pub fn validate_uniqueness(&self, new_id: ID) -> (r: bool)
        requires
            self.inv(),
        ensures
            r == !has_id(self.entries(), new_id),
    {
        let mut i: usize = 0;
        let mut found = false;
        while i < self.ids.len()
            invariant
                self.inv(),
                i <= self.ids.len(),
                found == exists|j: int| 0 <= j < i && self.logged_ids()[j] == new_id,
            decreases self.ids.len() - i,
        {
            if self.ids[i].eq_id(&new_id) {
                found = true;
            }
            i += 1;
        }
        proof {
            if found {
                let j = choose|j: int| 0 <= j < self.logged_ids().len() && self.logged_ids()[j]
                    == new_id;
                assert(self.entries()[j].0 == new_id);
            }
            if has_id(self.entries(), new_id) {
                let j = choose|j: int|
                    0 <= j < self.entries().len() && self.entries()[j].0 == new_id;
                assert(self.logged_ids()[j] == new_id);
            }
        }
        !found
    }

    /// All live values in insertion order, as a restartable traversal.
    pub fn all<'a>(&'a self) -> (it: LinearTableAllIter<'a, T, ID>)
        ensures
            it.pos_spec() == 0,
            it.full().len() == self.entries().len(),
            forall|i: int|
                0 <= i < self.entries().len() ==> it.full()[i] == #[trigger] self.entries()[i].1,
    {
        LinearTableAllIter::_new(&self.visible)
    }
}

impl<T, ID: IdEq> Table<T, ID> for LinearTable<T, ID> {
    open spec fn wf(&self) -> bool {
        self.inv()
    }

    open spec fn live(&self) -> Seq<(ID, T)> {
        self.entries()
    }

    open spec fn may_push(&self, id: ID) -> bool {
        !has_id(self.entries(), id)
    }

    open spec fn may_set(&self, id: ID) -> bool {
        true
    }

    open spec fn same_slot(&self, a: ID, b: ID) -> bool {
        a == b
    }

    open spec fn set_view(&self, id: ID, item: T) -> Seq<(ID, T)> {
        if has_id(self.entries(), id) {
            self.entries().update(index_of_id(self.entries(), id), (id, item))
        } else {
            self.entries()
        }
    }

    fn push(&mut self, item: T, id: ID)
        ensures
            final(self).logged_ids() == old(self).logged_ids().push(id),
    {
        self.ids.push(id);
        self.visible.push(TableEntry::new(id, item));
        proof {
            let o = old(self).entries();
            assert(self.entries() =~= o.push((id, item)));
            assert forall|i: int| 0 <= i < o.len() implies #[trigger] o[i].0 != id by {
                if o[i].0 == id {
                    assert(has_id(o, id));
                }
            }
            assert(self.logged_ids() =~= old(self).logged_ids().push(id));
        }
    }

    fn delete_by_id(&mut self, target_id: ID)
        ensures
            final(self).hidden_count() == old(self).hidden_count(),
    {
        let ghost orig = old(self).entries();
        let ghost pred = |p: (ID, T)| !old(self).same_slot(p.0, target_id);
        proof {
            reveal(Seq::filter);
            assert(orig.subrange(0, 0).filter(pred) =~= Seq::<(ID, T)>::empty());
            assert(self.entries() =~= orig.subrange(0, 0).filter(pred) + orig.subrange(
                0,
                orig.len() as int,
            ));
        }
        let mut i: usize = 0;
        let ghost mut k: int = 0;
        while i < self.visible.len()
            invariant
                0 <= k <= orig.len(),
                i as int == orig.subrange(0, k).filter(pred).len(),
                i <= self.visible.len(),
                self.entries() == orig.subrange(0, k).filter(pred) + orig.subrange(
                    k,
                    orig.len() as int,
                ),
                self.invisible@ == old(self).invisible@,
                self.ids@ == old(self).ids@,
                pred == (|p: (ID, T)| !old(self).same_slot(p.0, target_id)),
            decreases orig.len() - k,
        {
            proof {
                assert(self.entries().len() == i + orig.subrange(k, orig.len() as int).len());
                assert(self.entries()[i as int] == orig.subrange(k, orig.len() as int)[0]);
                assert(self.entries()[i as int] == orig[k]);
            }
            let is_match = self.visible[i].id.eq_id(&target_id);
            proof {
                assert(self.entries()[i as int].0 == self.visible@[i as int].id);
                assert(orig.subrange(0, k + 1) =~= orig.subrange(0, k).push(orig[k]));
                lemma_filter_push(orig.subrange(0, k), pred, orig[k]);
            }
            if is_match {
                let ghost pre = self.entries();
                self.visible.remove(i);
                proof {
                    assert(self.entries() =~= pre.remove(i as int));
                    assert(pre.remove(i as int) =~= orig.subrange(0, k).filter(pred)
                        + orig.subrange(k + 1, orig.len() as int));
                    k = k + 1;
                    assert(self.entries() =~= orig.subrange(0, k).filter(pred) + orig.subrange(
                        k,
                        orig.len() as int,
                    ));
                }
            } else {
                i += 1;
                proof {
                    k = k + 1;
                    assert(self.entries() =~= orig.subrange(0, k).filter(pred) + orig.subrange(
                        k,
                        orig.len() as int,
                    ));
                }
            }
        }
        proof {
            assert(orig.subrange(k, orig.len() as int).len() == 0);
            assert(k == orig.len());
            assert(orig.subrange(0, k) =~= orig);
            assert(self.entries() =~= orig.filter(pred));
        }
        let mut new_ids: Vec<ID> = Vec::new();
        let mut j: usize = 0;
        while j < self.visible.len()
            invariant
                j <= self.visible.len(),
                new_ids@.len() == j as int,
                forall|m: int| 0 <= m < j ==> new_ids@[m] == #[trigger] self.entries()[m].0,
            decreases self.visible.len() - j,
        {
            new_ids.push(self.visible[j].id);
            j += 1;
        }
        self.ids = new_ids;
        proof {
            assert(pred =~= (|p: (ID, T)| !(p.0 == target_id)));
            lemma_delete_keeps_distinct(orig, target_id);
            assert(distinct_ids(self.entries()));
            assert(self.entries() == old(self).entries().filter(
                |p: (ID, T)| !old(self).same_slot(p.0, target_id),
            ));
        }
    }

    fn try_get_by_id(&self, id: ID) -> (r: Option<&T>) {
        let mut i: usize = self.visible.len();
        while i > 0
            invariant
                i <= self.visible.len(),
                forall|j: int|
                    i <= j < self.entries().len() ==> #[trigger] self.entries()[j].0 != id,
            decreases i,
        {
            i -= 1;
            if self.visible[i].id.eq_id(&id) {
                proof {
                    assert(self.entries()[i as int].0 == id);
                    lemma_last_with_id_at(self.entries(), id, i as int);
                }
                return Some(&self.visible[i].data);
            }
            proof {
                assert(self.entries()[i as int].0 != id);
            }
        }
        proof {
            assert(forall|j: int|
                0 <= j < self.entries().len() ==> #[trigger] self.entries()[j].0 != id);
        }
        None
    }

    fn set_by_id(&mut self, id: ID, item: T) {
        let mut i: usize = 0;
        while i < self.visible.len()
            invariant
                i <= self.visible.len(),
                forall|j: int| 0 <= j < i ==> #[trigger] self.entries()[j].0 != id,
                old(self).inv(),
                *self == *old(self),
            decreases self.visible.len() - i,
        {
            if self.visible[i].id.eq_id(&id) {
                proof {
                    assert(self.entries()[i as int].0 == id);
                    assert(has_id(self.entries(), id));
                }
                self.visible.set(i, TableEntry::new(id, item));
                proof {
                    let o = old(self).entries();
                    assert(self.entries() =~= o.update(i as int, (id, item)));
                    let k0 = index_of_id(o, id);
                    assert(0 <= k0 < o.len() && o[k0].0 == id);
                    assert(k0 == i as int) by {
                        if k0 < i as int {
                            assert(o[k0].0 != o[i as int].0);
                        } else if k0 > i as int {
                            assert(o[i as int].0 != o[k0].0);
                        }
                    }
                    assert(forall|j: int|
                        0 <= j < self.entries().len() ==> #[trigger] self.entries()[j].0
                            == o[j].0);
                }
                return;
            }
            i += 1;
        }
        proof {
            assert(forall|j: int|
                0 <= j < self.entries().len() ==> #[trigger] self.entries()[j].0 != id);
            assert(!has_id(self.entries(), id));
        }
    }

    fn len(&self) -> (n: usize) {
        self.visible.len()
    }
}

/// Deleting an identifier keeps the remaining identifiers pairwise
/// distinct: the filter removes the unique match, or nothing.
proof fn lemma_delete_keeps_distinct<T, ID: IdEq>(s: Seq<(ID, T)>, target_id: ID)
    requires
        distinct_ids(s),
    ensures
        distinct_ids(s.filter(|p: (ID, T)| !(p.0 == target_id))),
        has_id(s, target_id) ==> s.filter(|p: (ID, T)| !(p.0 == target_id)) == s.remove(
            index_of_id(s, target_id),
        ),
        !has_id(s, target_id) ==> s.filter(|p: (ID, T)| !(p.0 == target_id)) == s,
{
    let pred = |p: (ID, T)| !(p.0 == target_id);
    if has_id(s, target_id) {
        let k0 = index_of_id(s, target_id);
        assert(0 <= k0 < s.len() && s[k0].0 == target_id);
        assert forall|i: int| 0 <= i < s.len() && i != k0 implies pred(#[trigger] s[i]) by {
            if s[i].0 == target_id {
                if i < k0 {
                    assert(s[i].0 != s[k0].0);
                } else {
                    assert(s[k0].0 != s[i].0);
                }
            }
        }
        lemma_filter_one_false(s, pred, k0);
        let s1 = s.remove(k0);
        assert forall|i: int, j: int| 0 <= i < j < s1.len() implies #[trigger] s1[i].0
            != #[trigger] s1[j].0 by {
            let i0 = if i < k0 {
                i
            } else {
                i + 1
            };
            let j0 = if j < k0 {
                j
            } else {
                j + 1
            };
            assert(s1[i] == s[i0]);
            assert(s1[j] == s[j0]);
        }
    } else {
        assert forall|i: int| 0 <= i < s.len() implies pred(#[trigger] s[i]) by {
            if s[i].0 == target_id {
                assert(has_id(s, target_id));
            }
        }
        lemma_filter_all_true(s, pred);
    }
}

/// Yields the live values of a `LinearTable` one at a time, in insertion
/// order; a fresh traversal starts again from the first.
pub struct LinearTableAllIter<'a, T, ID> {
    entries: &'a Vec<TableEntry<T, ID>>,
    pos: usize,
}

impl<'a, T, ID> LinearTableAllIter<'a, T, ID> {
    /// The values this traversal yields, in order.
    pub closed spec fn full(&self) -> Seq<T> {
        Seq::new(self.entries@.len(), |i: int| self.entries@[i].data)
    }

    /// The position of the next value to yield.
    pub closed spec fn pos_spec(&self) -> int {
        self.pos as int
    }

    fn _new(entries: &'a Vec<TableEntry<T, ID>>) -> (it: Self)
        ensures
            it.pos_spec() == 0,
            it.full().len() == entries@.len(),
            forall|i: int| 0 <= i < entries@.len() ==> it.full()[i] == #[trigger] entries@[i].data,
    {
        Self { entries, pos: 0 }
    }

    /// The next live value, or nothing once the traversal is exhausted.
    pub fn next(&mut self) -> (r: Option<&'a T>)
        ensures
            final(self).full() == old(self).full(),
            old(self).pos_spec() < old(self).full().len() ==> final(self).pos_spec() == old(
                self,
            ).pos_spec() + 1 && (r matches Some(v) && *v == old(self).full()[old(
                self,
            ).pos_spec()]),
            old(self).pos_spec() >= old(self).full().len() ==> final(self).pos_spec() == old(
                self,
            ).pos_spec() && r is None,
    {
        if self.pos < self.entries.len() {
            let r = Some(&self.entries[self.pos].data);
            self.pos = self.pos + 1;
            r
        } else {
            None
        }
    }
}

/// Law: a live identifier is never accepted for a second push. With the
/// uniqueness check enabled this is the duplicate-identifier rejection:
/// `validate_uniqueness` reports exactly `may_push`, so a push under an
/// identifier already live among the records is refused.
pub proof fn lemma_live_id_not_pushable<T, ID: IdEq>(t: &LinearTable<T, ID>, id: ID)
    requires
        t.inv(),
        has_id(t.entries(), id),
    ensures
        !t.may_push(id),
{
}

/// Law: deletion is idempotent. When `t1` is the state `delete_by_id(id)`
/// left behind, deleting `id` again removes nothing: the live records stay
/// exactly those of `t1`.
pub proof fn lemma_delete_twice<T, ID: IdEq>(
    t0: &LinearTable<T, ID>,
    t1: &LinearTable<T, ID>,
    id: ID,
)
    requires
        t1.entries() == t0.entries().filter(|p: (ID, T)| !t0.same_slot(p.0, id)),
    ensures
        t1.entries().filter(|p: (ID, T)| !t1.same_slot(p.0, id)) == t1.entries(),
{
    let pred0 = |p: (ID, T)| !t0.same_slot(p.0, id);
    let pred1 = |p: (ID, T)| !t1.same_slot(p.0, id);
    assert(pred0 =~= pred1);
    lemma_filter_idempotent(t0.entries(), pred0);
}

/// Law: visibility after delete. The deleted identifier has no live record
/// any more, iteration omits it, and the live count drops by exactly one
/// when the identifier was live, or stays unchanged when it was not.
pub proof fn lemma_delete_visibility<T, ID: IdEq>(t: &LinearTable<T, ID>, id: ID)
    requires
        t.inv(),
    ensures
        !has_id(t.entries().filter(|p: (ID, T)| !t.same_slot(p.0, id)), id),
        has_id(t.entries(), id) ==> t.entries().filter(|p: (ID, T)| !t.same_slot(p.0, id)).len()
            == t.entries().len() - 1,
        !has_id(t.entries(), id) ==> t.entries().filter(|p: (ID, T)| !t.same_slot(p.0, id))
            == t.entries(),
{
    let pred = |p: (ID, T)| !t.same_slot(p.0, id);
    assert(pred =~= (|p: (ID, T)| !(p.0 == id)));
    lemma_delete_keeps_distinct(t.entries(), id);
    let s1 = t.entries().filter(|p: (ID, T)| !(p.0 == id));
    broadcast use vstd::seq_lib::group_filter_ensures;

    assert forall|i: int| 0 <= i < s1.len() implies #[trigger] s1[i].0 != id by {
        assert(pred(s1[i]));
    }
}

} // verus!
