//! The slot-stable strategy: each record sits in the slot named by the
//! numeric view of its identifier, and deletion tombstones the slot instead
//! of removing it.

use vstd::prelude::*;
use vstd::pervasive::VecAdditionalExecFns;

use crate::{
    has_id, lemma_filter_all_true, lemma_filter_push, IdEq, Table, U64Id,
};

verus! {

/// One slot of a `SparseTable`: a record together with its liveness mark.
/// A slot with `busy == false` is a tombstone whose storage is retained for
/// reuse.
pub struct SparseTableEntry<T, ID> {
    pub id: ID,
    pub data: T,
    pub busy: bool,
}

impl<T, ID> SparseTableEntry<T, ID> {
    pub fn new(id: ID, data: T, busy: bool) -> (e: Self)
        ensures
            e.id == id,
            e.data == data,
            e.busy == busy,
    {
        Self { id, data, busy }
    }
}

/// The live records a slot sequence holds, in ascending slot order:
/// tombstoned slots are skipped.
pub open spec fn live_view<T, ID>(s: Seq<SparseTableEntry<T, ID>>) -> Seq<(ID, T)>
    decreases s.len(),
{
    if s.len() == 0 {
        Seq::empty()
    } else if s.last().busy {
        live_view(s.drop_last()).push((s.last().id, s.last().data))
    } else {
        live_view(s.drop_last())
    }
}

/// Each busy slot holds an identifier whose numeric index names that very
/// slot: the structural invariant of the sparse strategy.
pub open spec fn aligned<T, ID: U64Id>(s: Seq<SparseTableEntry<T, ID>>) -> bool {
    forall|i: int| 0 <= i < s.len() && (#[trigger] s[i]).busy ==> s[i].id.id_spec() as int == i
}

/// The slot sequence after `delete_by_id` of an identifier with numeric
/// index `key`: the slot is marked free, its contents stay in place; an
/// out-of-range index changes nothing.
pub open spec fn tombstoned<T, ID>(s: Seq<SparseTableEntry<T, ID>>, key: u64) -> Seq<
    SparseTableEntry<T, ID>,
> {
    if (key as int) < s.len() {
        s.update(
            key as int,
            SparseTableEntry { id: s[key as int].id, data: s[key as int].data, busy: false },
        )
    } else {
        s
    }
}

/// Appending one slot appends its record to the live view when it is busy
/// and changes nothing otherwise.
pub proof fn lemma_live_view_push<T, ID>(s: Seq<SparseTableEntry<T, ID>>, e: SparseTableEntry<T, ID>)
    ensures
        live_view(s.push(e)) == if e.busy {
            live_view(s).push((e.id, e.data))
        } else {
            live_view(s)
        },
{
    assert(s.push(e).drop_last() =~= s);
    assert(s.push(e).last() == e);
}

/// Whether the record `p` sits, live, in some busy slot of `s`.
pub open spec fn slot_origin<T, ID>(s: Seq<SparseTableEntry<T, ID>>, p: (ID, T)) -> bool {
    exists|k: int| 0 <= k < s.len() && (#[trigger] s[k]).busy && p == (s[k].id, s[k].data)
}

/// Every record of the live view comes from some busy slot.
pub proof fn lemma_live_view_members<T, ID>(s: Seq<SparseTableEntry<T, ID>>)
    ensures
        forall|j: int| #![trigger live_view(s)[j]]
            0 <= j < live_view(s).len() ==> slot_origin(s, live_view(s)[j]),
    decreases s.len(),
{
    if s.len() == 0 {
        assert(live_view(s).len() == 0);
    } else {
        let d = s.drop_last();
        lemma_live_view_members(d);
        assert forall|j: int| #![trigger live_view(s)[j]]
            0 <= j < live_view(s).len() implies slot_origin(s, live_view(s)[j]) by {
            if s.last().busy && j == live_view(s).len() - 1 {
                let k = s.len() - 1;
                assert(s[k] == s.last());
                assert(s[k].busy && live_view(s)[j] == (s[k].id, s[k].data));
            } else {
                assert(live_view(s)[j] == live_view(d)[j]);
                assert(slot_origin(d, live_view(d)[j]));
                let k = choose|k: int|
                    0 <= k < d.len() && (#[trigger] d[k]).busy && live_view(d)[j] == (
                    d[k].id,
                    d[k].data,
                    );
                assert(s[k] == d[k]);
                assert(s[k].busy && live_view(s)[j] == (s[k].id, s[k].data));
            }
        }
    }
}

/// An identifier held by no busy slot is absent from the live view.
pub proof fn lemma_live_view_no_id<T, ID>(s: Seq<SparseTableEntry<T, ID>>, id: ID)
    requires
        forall|k: int| 0 <= k < s.len() ==> !((#[trigger] s[k]).busy && s[k].id == id),
    ensures
        !has_id(live_view(s), id),
{
    lemma_live_view_members(s);
    if has_id(live_view(s), id) {
        let j = choose|j: int| 0 <= j < live_view(s).len() && live_view(s)[j].0 == id;
        let k = choose|k: int|
            0 <= k < s.len() && (#[trigger] s[k]).busy && live_view(s)[j] == (s[k].id, s[k].data);
        assert(s[k].busy && s[k].id == id);
    }
}

/// The record of a busy slot is in the live view, and a lookup of its
/// identifier finds exactly that record.
pub proof fn lemma_live_view_member<T, ID: U64Id>(s: Seq<SparseTableEntry<T, ID>>, k: int)
    requires
        aligned(s),
        0 <= k < s.len(),
        s[k].busy,
    ensures
        has_id(live_view(s), s[k].id),
        crate::last_with_id(live_view(s), s[k].id) == (s[k].id, s[k].data),
    decreases s.len(),
{
    let lv = live_view(s);
    let d = s.drop_last();
    if k == s.len() - 1 {
        assert(s.last() == s[k]);
        assert(lv == live_view(d).push((s[k].id, s[k].data)));
        assert(lv[lv.len() - 1] == (s[k].id, s[k].data));
        assert(lv.last() == (s[k].id, s[k].data));
    } else {
        assert(forall|i: int| 0 <= i < d.len() ==> #[trigger] d[i] == s[i]);
        lemma_live_view_member(d, k);
        if s.last().busy {
            assert(s.last().id.id_spec() as int == s.len() - 1);
            assert(s[k].id.id_spec() as int == k);
            assert(s.last().id != s[k].id);
            assert(lv == live_view(d).push((s.last().id, s.last().data)));
            let j = choose|j: int|
                0 <= j < live_view(d).len() && live_view(d)[j].0 == s[k].id;
            assert(lv[j] == live_view(d)[j]);
            assert(has_id(lv, s[k].id));
            assert(lv.drop_last() =~= live_view(d));
            assert(lv.last().0 != s[k].id);
        } else {
            assert(lv == live_view(d));
        }
    }
}

/// Tombstoning the slot `key` removes exactly the live records whose
/// identifier carries that numeric index, and keeps every other record in
/// order.
pub proof fn lemma_live_view_tombstone<T, ID: U64Id>(s: Seq<SparseTableEntry<T, ID>>, key: u64)
    requires
        aligned(s),
    ensures
        live_view(tombstoned(s, key)) == live_view(s).filter(
            |p: (ID, T)| p.0.id_spec() != key,
        ),
    decreases s.len(),
{
    let pred = |p: (ID, T)| p.0.id_spec() != key;
    let t = tombstoned(s, key);
    let lv = live_view(s);
    if (key as int) >= s.len() {
        lemma_live_view_members(s);
        assert forall|j: int| 0 <= j < lv.len() implies pred(#[trigger] lv[j]) by {
            let k = choose|k: int|
                0 <= k < s.len() && (#[trigger] s[k]).busy && lv[j] == (s[k].id, s[k].data);
            assert(s[k].id.id_spec() as int == k);
        }
        lemma_filter_all_true(lv, pred);
    } else {
        let n = s.len() as int;
        let d = s.drop_last();
        assert(forall|i: int| 0 <= i < d.len() ==> #[trigger] d[i] == s[i]);
        if key as int == n - 1 {
            if s.last().busy {
                assert(t.drop_last() =~= d);
                assert(!t.last().busy);
                assert(live_view(t) == live_view(d));
                let lastpair = (s.last().id, s.last().data);
                assert(lv == live_view(d).push(lastpair));
                assert(s.last().id.id_spec() as int == n - 1);
                assert(!pred(lastpair));
                lemma_filter_push(live_view(d), pred, lastpair);
                lemma_live_view_members(d);
                assert forall|j: int| 0 <= j < live_view(d).len() implies pred(
                    #[trigger] live_view(d)[j],
                ) by {
                    let k = choose|k: int|
                        0 <= k < d.len() && (#[trigger] d[k]).busy && live_view(d)[j] == (
                        d[k].id,
                        d[k].data,
                        );
                    assert(d[k].id.id_spec() as int == k);
                }
                lemma_filter_all_true(live_view(d), pred);
            } else {
                assert(t =~= s);
                lemma_live_view_members(s);
                assert forall|j: int| 0 <= j < lv.len() implies pred(#[trigger] lv[j]) by {
                    let k = choose|k: int|
                        0 <= k < s.len() && (#[trigger] s[k]).busy && lv[j] == (
                        s[k].id,
                        s[k].data,
                        );
                    assert(s[k].id.id_spec() as int == k);
                    assert(k != n - 1);
                }
                lemma_filter_all_true(lv, pred);
            }
        } else {
            assert(t.drop_last() =~= tombstoned(d, key));
            assert(t.last() == s.last());
            lemma_live_view_tombstone(d, key);
            if s.last().busy {
                let lastpair = (s.last().id, s.last().data);
                assert(live_view(t) == live_view(tombstoned(d, key)).push(lastpair));
                assert(lv == live_view(d).push(lastpair));
                assert(s.last().id.id_spec() as int == n - 1);
                assert(pred(lastpair));
                lemma_filter_push(live_view(d), pred, lastpair);
            } else {
                assert(live_view(t) == live_view(tombstoned(d, key)));
                assert(lv == live_view(d));
            }
        }
    }
}

/// Tombstoning a busy slot shrinks the live count by exactly one; a free or
/// out-of-range slot leaves it unchanged.
pub proof fn lemma_tombstone_len<T, ID: U64Id>(s: Seq<SparseTableEntry<T, ID>>, key: u64)
    requires
        aligned(s),
    ensures
        live_view(tombstoned(s, key)).len() == live_view(s).len() - (
        if (key as int) < s.len() && s[key as int].busy {
            1int
        } else {
            0int
        }),
    decreases s.len(),
{
    let t = tombstoned(s, key);
    if (key as int) >= s.len() {
    } else {
        let n = s.len() as int;
        let d = s.drop_last();
        assert(forall|i: int| 0 <= i < d.len() ==> #[trigger] d[i] == s[i]);
        if key as int == n - 1 {
            if s.last().busy {
                assert(t.drop_last() =~= d);
                assert(!t.last().busy);
                assert(live_view(t) == live_view(d));
            } else {
                assert(t =~= s);
            }
        } else {
            assert(t.drop_last() =~= tombstoned(d, key));
            assert(t.last() == s.last());
            lemma_tombstone_len(d, key);
        }
    }
}

/// A table whose records sit in the slot named by the numeric index of
/// their identifier.
///
/// `ids` is an append-only log of every identifier ever pushed, kept only
/// for uniqueness checks: deletion does not prune it.
pub struct SparseTable<T, ID> {
    ids: Vec<ID>,
    data: Vec<SparseTableEntry<T, ID>>,
}

impl<T, ID> SparseTable<T, ID> {
    /// All slots in index order, tombstones included.
    pub closed spec fn slots(&self) -> Seq<SparseTableEntry<T, ID>> {
        self.data@
    }

    /// The append-only identifier log.
    pub closed spec fn logged_ids(&self) -> Seq<ID> {
        self.ids@
    }

    pub fn new() -> (t: Self)
        ensures
            t.slots() == Seq::<SparseTableEntry<T, ID>>::empty(),
            t.logged_ids() == Seq::<ID>::empty(),
    {
        Self { ids: Vec::new(), data: Vec::new() }
    }
}

impl<T, ID: U64Id> SparseTable<T, ID> {
    /// The structural invariant: every busy slot is named by its own
    /// identifier's numeric index.
    pub open spec fn inv(&self) -> bool {
        aligned(self.slots())
    }
}

impl<T, ID> Default for SparseTable<T, ID> {
    fn default() -> (t: Self)
        ensures
            t.slots() == Seq::<SparseTableEntry<T, ID>>::empty(),
            t.logged_ids() == Seq::<ID>::empty(),
    {
        Self::new()
    }
}

impl<T, ID: IdEq> SparseTable<T, ID> {
    /// The explicit uniqueness check: reports whether `new_id` was never
    /// pushed before. A failing check is the duplicate-identifier
    /// condition; deletion does not free an identifier for pushing again,
    /// only `set_by_id` reuses a slot.
    pub fn validate_uniqueness(&self, new_id: ID) -> (r: bool)
        ensures
            r == !self.logged_ids().contains(new_id),
    {
        let mut i: usize = 0;
        let mut found = false;
        while i < self.ids.len()
            invariant
                i <= self.ids.len(),
                found == exists|j: int| 0 <= j < i && self.logged_ids()[j] == new_id,
            decreases self.ids.len() - i,
        {
            if self.ids[i].eq_id(&new_id) {
                found = true;
                proof {
                    assert(self.logged_ids()[i as int] == new_id);
                }
            } else {
                proof {
                    assert(self.logged_ids()[i as int] != new_id);
                }
            }
            i += 1;
        }
        !found
    }

    /// All live values in ascending slot order, as a restartable traversal.
    pub fn all<'a>(&'a self) -> (it: SparseTableAllIter<'a, T, ID>)
        ensures
            it.slots() == self.slots(),
            it.pos_spec() == 0,
    {
        SparseTableAllIter::new(&self.data)
    }

    /// The same traversal, meant to be consumed through `next_enumerated`,
    /// which pairs each live value with its identifier.
    pub fn all_enumerated<'a>(&'a self) -> (it: SparseTableAllIter<'a, T, ID>)
        ensures
            it.slots() == self.slots(),
            it.pos_spec() == 0,
    {
        SparseTableAllIter::new(&self.data)
    }
}

impl<T, ID: IdEq + U64Id> Table<T, ID> for SparseTable<T, ID> {
    open spec fn wf(&self) -> bool {
        self.inv()
    }

    open spec fn live(&self) -> Seq<(ID, T)> {
        live_view(self.slots())
    }

    open spec fn may_push(&self, id: ID) -> bool {
        id.id_spec() as int == self.slots().len() && !self.logged_ids().contains(id)
    }

    open spec fn may_set(&self, id: ID) -> bool {
        (id.id_spec() as int) < self.slots().len()
    }

    open spec fn same_slot(&self, a: ID, b: ID) -> bool {
        a.id_spec() == b.id_spec()
    }

    open spec fn set_view(&self, id: ID, item: T) -> Seq<(ID, T)> {
        live_view(
            self.slots().update(
                id.id_spec() as int,
                SparseTableEntry { id, data: item, busy: true },
            ),
        )
    }

    fn push(&mut self, item: T, id: ID)
        ensures
            final(self).slots() == old(self).slots().push(
                (SparseTableEntry { id, data: item, busy: true }),
            ),
            final(self).logged_ids() == old(self).logged_ids().push(id),
    {
        self.ids.push(id);
        self.data.push(SparseTableEntry::new(id, item, true));
        proof {
            let e = SparseTableEntry { id, data: item, busy: true };
            assert(self.slots() =~= old(self).slots().push(e));
            lemma_live_view_push(old(self).slots(), e);
            assert forall|i: int|
                0 <= i < self.slots().len() && (#[trigger] self.slots()[i]).busy implies self.slots()[i].id.id_spec() as int == i by {
                if i < old(self).slots().len() {
                    assert(self.slots()[i] == old(self).slots()[i]);
                } else {
                    assert(self.slots()[i] == e);
                }
            }
        }
    }

    fn delete_by_id(&mut self, target_id: ID)
        ensures
            final(self).slots() == tombstoned(old(self).slots(), target_id.id_spec()),
            final(self).logged_ids() == old(self).logged_ids(),
    {
        let key = target_id.get_id();
        if key < self.data.len() as u64 {
            let i = key as usize;
            let e = self.data.remove(i);
            let tomb = SparseTableEntry::new(e.id, e.data, false);
            self.data.insert(i, tomb);
            proof {
                let o = old(self).slots();
                assert(self.slots() =~= tombstoned(o, key));
                lemma_live_view_tombstone(o, key);
                assert forall|j: int|
                    0 <= j < self.slots().len() && (#[trigger] self.slots()[j]).busy implies self.slots()[j].id.id_spec() as int == j by {
                    assert(self.slots()[j] == o[j]);
                }
                assert((|p: (ID, T)| p.0.id_spec() != key) =~= (
                |p: (ID, T)| !old(self).same_slot(p.0, target_id)
                ));
            }
        } else {
            proof {
                let o = old(self).slots();
                assert(self.slots() == tombstoned(o, key));
                lemma_live_view_tombstone(o, key);
                assert((|p: (ID, T)| p.0.id_spec() != key) =~= (
                |p: (ID, T)| !old(self).same_slot(p.0, target_id)
                ));
            }
        }
    }

    fn try_get_by_id(&self, id: ID) -> (r: Option<&T>) {
        let mut i: usize = self.data.len();
        while i > 0
            invariant
                i <= self.data.len(),
                forall|j: int|
                    i <= j < self.slots().len() ==> !((#[trigger] self.slots()[j]).busy
                        && self.slots()[j].id == id),
                self.inv(),
            decreases i,
        {
            i -= 1;
            if self.data[i].busy {
                if self.data[i].id.eq_id(&id) {
                    proof {
                        lemma_live_view_member(self.slots(), i as int);
                    }
                    return Some(&self.data[i].data);
                }
            }
        }
        proof {
            lemma_live_view_no_id(self.slots(), id);
        }
        None
    }

    fn set_by_id(&mut self, id: ID, item: T)
        ensures
            final(self).slots() == old(self).slots().update(
                id.id_spec() as int,
                (SparseTableEntry { id, data: item, busy: true }),
            ),
            final(self).logged_ids() == old(self).logged_ids(),
    {
        let key = id.get_id();
        let n = self.data.len();
        proof {
            assert(n == self.slots().len());
            assert((key as int) < n as int);
            assert((key as usize) as int == key as int);
        }
        let i = key as usize;
        self.data.set(i, SparseTableEntry::new(id, item, true));
        proof {
            let e = SparseTableEntry { id, data: item, busy: true };
            assert(self.slots() =~= old(self).slots().update(id.id_spec() as int, e));
            assert forall|j: int|
                0 <= j < self.slots().len() && (#[trigger] self.slots()[j]).busy implies self.slots()[j].id.id_spec() as int == j by {
                if j != id.id_spec() as int {
                    assert(self.slots()[j] == old(self).slots()[j]);
                }
            }
        }
    }

    fn len(&self) -> (n: usize) {
        let mut n: usize = 0;
        let mut i: usize = 0;
        proof {
            assert(self.slots().subrange(0, 0) =~= Seq::<SparseTableEntry<T, ID>>::empty());
        }
        while i < self.data.len()
            invariant
                i <= self.data.len(),
                n <= i,
                n as int == live_view(self.slots().subrange(0, i as int)).len(),
            decreases self.data.len() - i,
        {
            proof {
                assert(self.slots().subrange(0, i + 1) =~= self.slots().subrange(0, i as int).push(
                    self.slots()[i as int],
                ));
                lemma_live_view_push(self.slots().subrange(0, i as int), self.slots()[i as int]);
            }
            if self.data[i].busy {
                n += 1;
            }
            i += 1;
        }
        proof {
            assert(self.slots().subrange(0, self.slots().len() as int) =~= self.slots());
        }
        n
    }
}

/// Yields the live values of a `SparseTable` one at a time, in ascending
/// slot order, skipping tombstones; a fresh traversal starts again from the
/// first slot.
pub struct SparseTableAllIter<'a, T, ID> {
    data: &'a Vec<SparseTableEntry<T, ID>>,
    pos: usize,
}

impl<'a, T, ID> SparseTableAllIter<'a, T, ID> {
    /// The slots this traversal walks.
    pub closed spec fn slots(&self) -> Seq<SparseTableEntry<T, ID>> {
        self.data@
    }

    /// The position of the next slot to inspect.
    pub closed spec fn pos_spec(&self) -> int {
        self.pos as int
    }

    pub fn new(data: &'a Vec<SparseTableEntry<T, ID>>) -> (it: Self)
        ensures
            it.slots() == data@,
            it.pos_spec() == 0,
    {
        Self { data, pos: 0 }
    }

    /// The next live value in ascending slot order, or nothing once every
    /// remaining slot is a tombstone.
    pub fn next(&mut self) -> (r: Option<&'a T>)
        requires
            old(self).pos_spec() <= old(self).slots().len(),
        ensures
            final(self).slots() == old(self).slots(),
            final(self).pos_spec() <= final(self).slots().len(),
            match r {
                Some(v) => ({
                    let k = final(self).pos_spec() - 1;
                    &&& old(self).pos_spec() <= k < old(self).slots().len()
                    &&& old(self).slots()[k].busy
                    &&& *v == old(self).slots()[k].data
                    &&& forall|j: int|
                        old(self).pos_spec() <= j < k ==> !(#[trigger] old(self).slots()[j]).busy
                }),
                None => final(self).pos_spec() == old(self).slots().len() && (forall|j: int|
                    old(self).pos_spec() <= j < old(self).slots().len() ==> !(#[trigger] old(
                        self,
                    ).slots()[j]).busy),
            },
    {
        while self.pos < self.data.len()
            invariant
                self.data == old(self).data,
                old(self).pos_spec() <= self.pos as int <= self.slots().len(),
                forall|j: int|
                    old(self).pos_spec() <= j < self.pos as int ==> !(#[trigger] self.slots()[j]).busy,
            decreases self.data.len() - self.pos,
        {
            if self.data[self.pos].busy {
                let r = Some(&self.data[self.pos].data);
                self.pos = self.pos + 1;
                return r;
            }
            self.pos = self.pos + 1;
        }
        None
    }
}

impl<'a, T, ID: Copy> SparseTableAllIter<'a, T, ID> {
    /// The next live value paired with its identifier.
    pub fn next_enumerated(&mut self) -> (r: Option<(ID, &'a T)>)
        requires
            old(self).pos_spec() <= old(self).slots().len(),
        ensures
            final(self).slots() == old(self).slots(),
            final(self).pos_spec() <= final(self).slots().len(),
            match r {
                Some(p) => ({
                    let k = final(self).pos_spec() - 1;
                    &&& old(self).pos_spec() <= k < old(self).slots().len()
                    &&& old(self).slots()[k].busy
                    &&& p.0 == old(self).slots()[k].id
                    &&& *p.1 == old(self).slots()[k].data
                    &&& forall|j: int|
                        old(self).pos_spec() <= j < k ==> !(#[trigger] old(self).slots()[j]).busy
                }),
                None => final(self).pos_spec() == old(self).slots().len() && (forall|j: int|
                    old(self).pos_spec() <= j < old(self).slots().len() ==> !(#[trigger] old(
                        self,
                    ).slots()[j]).busy),
            },
    {
        while self.pos < self.data.len()
            invariant
                self.data == old(self).data,
                old(self).pos_spec() <= self.pos as int <= self.slots().len(),
                forall|j: int|
                    old(self).pos_spec() <= j < self.pos as int ==> !(#[trigger] self.slots()[j]).busy,
            decreases self.data.len() - self.pos,
        {
            if self.data[self.pos].busy {
                let r = Some((self.data[self.pos].id, &self.data[self.pos].data));
                self.pos = self.pos + 1;
                return r;
            }
            self.pos = self.pos + 1;
        }
        None
    }
}

/// Law: a live identifier is never accepted for a second push. A live
/// record occupies the slot its numeric index names, which lies below the
/// slot count, while a push demands an index equal to the slot count.
pub proof fn lemma_live_id_not_pushable<T, ID: IdEq + U64Id>(t: &SparseTable<T, ID>, id: ID)
    requires
        t.inv(),
        has_id(live_view(t.slots()), id),
    ensures
        !t.may_push(id),
{
    lemma_live_view_members(t.slots());
    let lv = live_view(t.slots());
    let j = choose|j: int| 0 <= j < lv.len() && lv[j].0 == id;
    let k = choose|k: int|
        0 <= k < t.slots().len() && (#[trigger] t.slots()[k]).busy && lv[j] == (
        t.slots()[k].id,
        t.slots()[k].data,
        );
    assert(t.slots()[k].id.id_spec() as int == k);
}

/// Law: deletion is idempotent. Tombstoning the same slot twice leaves the
/// slots of a single tombstoning, so a second `delete_by_id` of the same
/// identifier changes nothing.
pub proof fn lemma_delete_twice<T, ID>(s: Seq<SparseTableEntry<T, ID>>, key: u64)
    ensures
        tombstoned(tombstoned(s, key), key) == tombstoned(s, key),
{
    if (key as int) < s.len() {
        assert(tombstoned(tombstoned(s, key), key) =~= tombstoned(s, key));
    }
}

/// Law: visibility after delete. When the slot named by the deleted
/// identifier's numeric index holds no other identifier, the deleted
/// identifier has no live record any more, and the live count drops by
/// exactly one when it was live, or stays unchanged when it was not.
pub proof fn lemma_delete_visibility<T, ID: U64Id>(s: Seq<SparseTableEntry<T, ID>>, id: ID)
    requires
        aligned(s),
        (id.id_spec() as int) < s.len() && s[id.id_spec() as int].busy ==> s[id.id_spec() as int].id
            == id,
    ensures
        !has_id(live_view(tombstoned(s, id.id_spec())), id),
        has_id(live_view(s), id) ==> live_view(tombstoned(s, id.id_spec())).len() == live_view(
            s,
        ).len() - 1,
        !has_id(live_view(s), id) ==> live_view(tombstoned(s, id.id_spec())) == live_view(s),
{
    let key = id.id_spec();
    let t = tombstoned(s, key);
    assert forall|k: int| 0 <= k < t.len() implies !((#[trigger] t[k]).busy && t[k].id == id) by {
        if t[k].busy {
            assert(t[k] == s[k]);
            assert(s[k].id.id_spec() as int == k);
            if t[k].id == id {
                assert(k == key as int);
            }
        }
    }
    lemma_live_view_no_id(t, id);
    lemma_tombstone_len(s, key);
    if has_id(live_view(s), id) {
        lemma_live_view_members(s);
        let lv = live_view(s);
        let j = choose|j: int| 0 <= j < lv.len() && lv[j].0 == id;
        let k = choose|k: int|
            0 <= k < s.len() && (#[trigger] s[k]).busy && lv[j] == (s[k].id, s[k].data);
        assert(s[k].id == id);
        assert(k == key as int);
    } else {
        if (key as int) < s.len() {
            if s[key as int].busy {
                lemma_live_view_member(s, key as int);
            } else {
                assert(t =~= s);
            }
        }
    }
}

/// Law: iteration order. Splitting the slots at any boundary splits the
/// live view around the same point: every live record of a lower-numbered
/// slot comes before every live record of a higher-numbered one, so
/// traversal yields live records in ascending slot order.
pub proof fn lemma_live_view_split<T, ID>(s: Seq<SparseTableEntry<T, ID>>, m: int)
    requires
        0 <= m <= s.len(),
    ensures
        live_view(s) == live_view(s.subrange(0, m)) + live_view(
            s.subrange(m, s.len() as int),
        ),
    decreases s.len(),
{
    let n = s.len() as int;
    if m == n {
        assert(s.subrange(0, m) =~= s);
        assert(s.subrange(m, n) =~= Seq::<SparseTableEntry<T, ID>>::empty());
        assert(live_view(s) =~= live_view(s) + live_view(s.subrange(m, n)));
    } else {
        let d = s.drop_last();
        assert(d =~= s.subrange(0, n - 1));
        lemma_live_view_split(d, m);
        assert(s.subrange(0, m) =~= d.subrange(0, m));
        assert(s.subrange(m, n) =~= d.subrange(m, n - 1).push(s.last()));
        lemma_live_view_push(d.subrange(m, n - 1), s.last());
        if s.last().busy {
            assert(live_view(s) == live_view(d).push((s.last().id, s.last().data)));
            assert(live_view(d).push((s.last().id, s.last().data)) =~= live_view(
                s.subrange(0, m),
            ) + live_view(s.subrange(m, n)));
        } else {
            assert(live_view(s) == live_view(d));
        }
    }
}

/// Law: slot reuse. Writing a record through `set_by_id` at an existing
/// slot, tombstoned or not, makes that record live: the lookup of its
/// identifier finds it, and iteration includes it.
pub proof fn lemma_slot_reuse<T, ID: U64Id>(s: Seq<SparseTableEntry<T, ID>>, id: ID, item: T)
    requires
        aligned(s),
        (id.id_spec() as int) < s.len(),
    ensures
        aligned(s.update(id.id_spec() as int, SparseTableEntry { id, data: item, busy: true })),
        has_id(
            live_view(
                s.update(id.id_spec() as int, SparseTableEntry { id, data: item, busy: true }),
            ),
            id,
        ),
        crate::last_with_id(
            live_view(
                s.update(id.id_spec() as int, SparseTableEntry { id, data: item, busy: true }),
            ),
            id,
        ) == (id, item),
{
    let k = id.id_spec() as int;
    let e = SparseTableEntry { id, data: item, busy: true };
    let s1 = s.update(k, e);
    assert forall|i: int| 0 <= i < s1.len() && (#[trigger] s1[i]).busy implies s1[i].id.id_spec()
        as int == i by {
        if i != k {
            assert(s1[i] == s[i]);
        }
    }
    lemma_live_view_member(s1, k);
}

} // verus!
