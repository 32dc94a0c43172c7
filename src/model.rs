use vstd::prelude::*;

verus! {

/// The abstract state of an index list: what each slot holds, the order of
/// the live slots from head to tail, the stack of free slots, and the
/// structure generation.
pub struct ListModel<T> {
    /// `None` for a free slot, `Some((value, stamp))` for an occupied one.
    pub slots: Seq<Option<(T, nat)>>,
    /// Positions of the live slots, head first.
    pub order: Seq<usize>,
    /// Positions of the free slots, the next one to be reused first.
    pub free: Seq<usize>,
    /// Incremented on every successful removal.
    pub generation: nat,
}

impl<T> ListModel<T> {
    /// The model of a new list.
    pub open spec fn empty() -> ListModel<T> {
        ListModel { slots: Seq::empty(), order: Seq::empty(), free: Seq::empty(), generation: 0 }
    }

    /// The well-formedness of a model: every live position holds a value,
    /// every free position is empty, no position appears twice, every
    /// occupied slot is live, and no stamp is newer than the generation.
    pub open spec fn inv(self) -> bool {
        &&& self.slots.len() <= usize::MAX
        &&& self.order.no_duplicates()
        &&& self.free.no_duplicates()
        &&& forall|k: int|
            0 <= k < self.order.len() ==> {
                &&& #[trigger] self.order[k] < self.slots.len()
                &&& self.slots[self.order[k] as int] is Some
            }
        &&& forall|k: int|
            0 <= k < self.free.len() ==> {
                &&& #[trigger] self.free[k] < self.slots.len()
                &&& self.slots[self.free[k] as int] is None
            }
        &&& forall|p: int|
            0 <= p < self.slots.len() && (#[trigger] self.slots[p]) is Some ==> {
                &&& self.order.contains(p as usize)
                &&& self.slots[p]->Some_0.1 <= self.generation
            }
    }

    /// The value that a handle `(pos, stamp)` designates, if it is live.
    pub open spec fn lookup(self, pos: usize, stamp: nat) -> Option<T> {
        if pos < self.slots.len() && self.slots[pos as int] is Some
            && self.slots[pos as int]->Some_0.1 == stamp {
            Some(self.slots[pos as int]->Some_0.0)
        } else {
            None
        }
    }

    /// The stored values, head to tail.
    pub open spec fn values(self) -> Seq<T> {
        self.order.map_values(|p: usize| self.slots[p as int]->Some_0.0)
    }

    /// The number of live values.
    pub open spec fn len(self) -> nat {
        self.order.len()
    }

    /// The position that the next insertion fills: the top of the free
    /// stack, or a new slot at the end.
    pub open spec fn next_pos(self) -> int {
        if self.free.len() == 0 {
            self.slots.len() as int
        } else {
            self.free[0] as int
        }
    }

    /// The model after the value in the live slot `pos` is replaced by
    /// `item`; the stamp stays.
    pub open spec fn replace(self, pos: usize, item: T) -> ListModel<T> {
        ListModel {
            slots: self.slots.update(pos as int, Some((item, self.slots[pos as int]->Some_0.1))),
            ..self
        }
    }

    /// The model after storing `item` at `next_pos`, stamped with the
    /// current generation, as the new tail (`front == false`) or the new
    /// head (`front == true`).
    pub open spec fn insert(self, item: T, front: bool) -> ListModel<T> {
        let p = self.next_pos();
        let entry = Some((item, self.generation));
        ListModel {
            slots: if self.free.len() == 0 {
                self.slots.push(entry)
            } else {
                self.slots.update(p, entry)
            },
            order: if front {
                seq![p as usize] + self.order
            } else {
                self.order.push(p as usize)
            },
            free: if self.free.len() == 0 {
                self.free
            } else {
                self.free.drop_first()
            },
            generation: self.generation,
        }
    }

    /// The model after removing the value that handle `(pos, stamp)`
    /// designates; unchanged where the handle is not live.
    pub open spec fn remove(self, pos: usize, stamp: nat) -> ListModel<T> {
        if self.lookup(pos, stamp) is Some {
            ListModel {
                slots: self.slots.update(pos as int, None),
                order: self.order.remove(self.order.index_of(pos)),
                free: seq![pos] + self.free,
                generation: self.generation + 1,
            }
        } else {
            self
        }
    }
}

/// The position that an insertion fills holds no live value.
pub proof fn lemma_next_pos_fresh<T>(m: ListModel<T>)
    requires
        m.inv(),
    ensures
        0 <= m.next_pos() <= m.slots.len(),
        m.next_pos() < m.slots.len() ==> m.slots[m.next_pos()] is None,
        m.next_pos() < usize::MAX ==> !m.order.contains(m.next_pos() as usize),
{
    let p = m.next_pos();
    if m.next_pos() < usize::MAX && m.order.contains(p as usize) {
        let k = choose|k: int| 0 <= k < m.order.len() && m.order[k] == p as usize;
        assert(m.slots[m.order[k] as int] is Some);
    }
}

/// Insertion keeps the model well-formed.
pub proof fn lemma_insert_inv<T>(m: ListModel<T>, item: T, front: bool)
    requires
        m.inv(),
        m.slots.len() < usize::MAX,
    ensures
        m.insert(item, front).inv(),
{
    lemma_next_pos_fresh(m);
    let r = m.insert(item, front);
    let p = m.next_pos();
    assert forall|k: int| 0 <= k < r.order.len() implies {
        &&& #[trigger] r.order[k] < r.slots.len()
        &&& r.slots[r.order[k] as int] is Some
    } by {
        if r.order[k] != p as usize {
            let j = if front { k - 1 } else { k };
            assert(r.order[k] == m.order[j]);
        }
    }
    assert forall|k: int| 0 <= k < r.free.len() implies {
        &&& #[trigger] r.free[k] < r.slots.len()
        &&& r.slots[r.free[k] as int] is None
    } by {
        if m.free.len() != 0 {
            assert(r.free[k] == m.free[k + 1]);
            assert(m.free[k + 1] != m.free[0]);
        }
    }
    assert forall|q: int| 0 <= q < r.slots.len() && (#[trigger] r.slots[q]) is Some implies {
        &&& r.order.contains(q as usize)
        &&& r.slots[q]->Some_0.1 <= r.generation
    } by {
        if q == p {
            if front {
                assert(r.order[0] == p as usize);
            } else {
                assert(r.order[r.order.len() - 1] == p as usize);
            }
        } else {
            assert(m.slots[q] is Some);
            let j = choose|j: int| 0 <= j < m.order.len() && m.order[j] == q as usize;
            if front {
                assert(r.order[j + 1] == q as usize);
            } else {
                assert(r.order[j] == q as usize);
            }
        }
    }
    assert forall|i: int, j: int| 0 <= i < r.order.len() && 0 <= j < r.order.len() && i != j
        implies r.order[i] != r.order[j] by {
        if front {
            if i > 0 && j > 0 {
                assert(r.order[i] == m.order[i - 1]);
                assert(r.order[j] == m.order[j - 1]);
            }
        }
    }
    assert forall|i: int, j: int| 0 <= i < r.free.len() && 0 <= j < r.free.len() && i != j
        implies r.free[i] != r.free[j] by {
        if m.free.len() != 0 {
            assert(r.free[i] == m.free[i + 1]);
            assert(r.free[j] == m.free[j + 1]);
        }
    }
}

/// A live handle's position appears in the order exactly once, at
/// `index_of`.
pub proof fn lemma_live_in_order<T>(m: ListModel<T>, pos: usize, stamp: nat)
    requires
        m.inv(),
        m.lookup(pos, stamp) is Some,
    ensures
        0 <= m.order.index_of(pos) < m.order.len(),
        m.order[m.order.index_of(pos)] == pos,
        forall|j: int| 0 <= j < m.order.len() && m.order[j] == pos ==> j == m.order.index_of(pos),
{
    assert(m.slots[pos as int] is Some);
    assert(m.order.contains(pos));
}

/// Removal keeps the model well-formed.
pub proof fn lemma_remove_inv<T>(m: ListModel<T>, pos: usize, stamp: nat)
    requires
        m.inv(),
    ensures
        m.remove(pos, stamp).inv(),
{
    if m.lookup(pos, stamp) is Some {
        lemma_live_in_order(m, pos, stamp);
        let r = m.remove(pos, stamp);
        let k = m.order.index_of(pos);
        assert forall|j: int| 0 <= j < r.order.len() implies {
            &&& #[trigger] r.order[j] < r.slots.len()
            &&& r.slots[r.order[j] as int] is Some
        } by {
            let i = if j < k { j } else { j + 1 };
            assert(r.order[j] == m.order[i]);
        }
        assert forall|j: int| 0 <= j < r.free.len() implies {
            &&& #[trigger] r.free[j] < r.slots.len()
            &&& r.slots[r.free[j] as int] is None
        } by {
            if j > 0 {
                assert(r.free[j] == m.free[j - 1]);
            }
        }
        assert forall|q: int| 0 <= q < r.slots.len() && (#[trigger] r.slots[q]) is Some implies {
            &&& r.order.contains(q as usize)
            &&& r.slots[q]->Some_0.1 <= r.generation
        } by {
            assert(q != pos as int);
            assert(m.slots[q] is Some);
            let i = choose|i: int| 0 <= i < m.order.len() && m.order[i] == q as usize;
            if i < k {
                assert(r.order[i] == q as usize);
            } else {
                assert(i != k);
                assert(r.order[i - 1] == q as usize);
            }
        }
        assert forall|a: int, b: int| 0 <= a < r.order.len() && 0 <= b < r.order.len() && a != b
            implies r.order[a] != r.order[b] by {
            let ia = if a < k { a } else { a + 1 };
            let ib = if b < k { b } else { b + 1 };
            assert(r.order[a] == m.order[ia]);
            assert(r.order[b] == m.order[ib]);
        }
        assert forall|a: int, b: int| 0 <= a < r.free.len() && 0 <= b < r.free.len() && a != b
            implies r.free[a] != r.free[b] by {
            if a > 0 {
                assert(r.free[a] == m.free[a - 1]);
            }
            if b > 0 {
                assert(r.free[b] == m.free[b - 1]);
            }
        }
    }
}

/// The model after inserting `items` one after another, each as the new
/// tail (`front == false`) or the new head (`front == true`).
pub open spec fn insert_all<T>(m: ListModel<T>, items: Seq<T>, front: bool) -> ListModel<T>
    decreases items.len(),
{
    if items.len() == 0 {
        m
    } else {
        insert_all(m, items.drop_last(), front).insert(items.last(), front)
    }
}

/// Inserting a value as the new tail appends it to the values; inserting it
/// as the new head prepends it.
pub proof fn lemma_insert_values<T>(m: ListModel<T>, item: T, front: bool)
    requires
        m.inv(),
        m.slots.len() < usize::MAX,
    ensures
        m.insert(item, front).values() == if front {
            seq![item] + m.values()
        } else {
            m.values().push(item)
        },
        m.insert(item, front).len() == m.len() + 1,
{
    lemma_next_pos_fresh(m);
    let r = m.insert(item, front);
    let p = m.next_pos();
    let expected = if front {
        seq![item] + m.values()
    } else {
        m.values().push(item)
    };
    assert forall|k: int| 0 <= k < r.order.len() implies r.values()[k] == expected[k] by {
        let q = r.order[k];
        if q != p as usize {
            assert(m.slots[q as int] is Some);
            assert(r.slots[q as int] == m.slots[q as int]);
        }
    }
    assert(r.values() =~= expected);
}

/// Values inserted one after another at the tail come out in the order of
/// insertion after the values already present; inserted at the head, they
/// come out in reverse order before them.
pub proof fn lemma_insert_all_order<T>(m: ListModel<T>, items: Seq<T>, front: bool)
    requires
        m.inv(),
        m.slots.len() + items.len() <= usize::MAX,
    ensures
        insert_all(m, items, front).inv(),
        insert_all(m, items, front).slots.len() <= m.slots.len() + items.len(),
        insert_all(m, items, front).values() == if front {
            items.reverse() + m.values()
        } else {
            m.values() + items
        },
    decreases items.len(),
{
    if items.len() == 0 {
        assert(items.reverse() =~= Seq::<T>::empty());
        assert(m.values() + items =~= m.values());
        assert(items.reverse() + m.values() =~= m.values());
    } else {
        let rest = items.drop_last();
        lemma_insert_all_order(m, rest, front);
        let mid = insert_all(m, rest, front);
        lemma_insert_inv(mid, items.last(), front);
        lemma_insert_values(mid, items.last(), front);
        lemma_next_pos_fresh(mid);
        if front {
            assert(seq![items.last()] + (rest.reverse() + m.values()) =~= items.reverse() + m.values());
        } else {
            assert((m.values() + rest).push(items.last()) =~= m.values() + items);
        }
    }
}

/// The handle that an insertion returns designates the inserted value.
pub proof fn lemma_insert_then_lookup<T>(m: ListModel<T>, item: T, front: bool)
    requires
        m.inv(),
        m.slots.len() < usize::MAX,
    ensures
        m.insert(item, front).lookup(m.next_pos() as usize, m.generation) == Some(item),
{
    lemma_next_pos_fresh(m);
}

/// Insertion leaves the value of every live handle as it was.
pub proof fn lemma_insert_keeps_lookup<T>(m: ListModel<T>, item: T, front: bool, pos: usize, stamp: nat)
    requires
        m.inv(),
        m.slots.len() < usize::MAX,
        m.lookup(pos, stamp) is Some,
    ensures
        m.insert(item, front).lookup(pos, stamp) == m.lookup(pos, stamp),
{
    lemma_next_pos_fresh(m);
}

/// Removing through one handle leaves the value of every handle to another
/// slot as it was.
pub proof fn lemma_remove_keeps_other<T>(m: ListModel<T>, pos: usize, stamp: nat, other: usize, other_stamp: nat)
    requires
        m.inv(),
        pos != other,
    ensures
        m.remove(pos, stamp).lookup(other, other_stamp) == m.lookup(other, other_stamp),
{
}

/// After a removal the handle designates nothing, and removing through it
/// again returns nothing and changes nothing.
pub proof fn lemma_remove_then_absent<T>(m: ListModel<T>, pos: usize, stamp: nat)
    requires
        m.inv(),
    ensures
        m.remove(pos, stamp).lookup(pos, stamp) is None,
        m.remove(pos, stamp).remove(pos, stamp) == m.remove(pos, stamp),
{
}

/// A handle is stale when it designates nothing and was issued before the
/// current generation.
pub open spec fn is_stale<T>(m: ListModel<T>, pos: usize, stamp: nat) -> bool {
    m.lookup(pos, stamp) is None && stamp < m.generation
}

/// A successful removal makes its handle stale, and the next insertion
/// reuses the freed slot.
pub proof fn lemma_remove_makes_stale<T>(m: ListModel<T>, pos: usize, stamp: nat)
    requires
        m.inv(),
        m.lookup(pos, stamp) is Some,
    ensures
        is_stale(m.remove(pos, stamp), pos, stamp),
        m.remove(pos, stamp).next_pos() == pos,
{
    assert(m.slots[pos as int] is Some);
}

/// A stale handle stays stale through every insertion and removal, also
/// when its slot is filled again.
pub proof fn lemma_stale_stays_stale<T>(m: ListModel<T>, pos: usize, stamp: nat, item: T, front: bool, rpos: usize, rstamp: nat)
    requires
        m.inv(),
        m.slots.len() < usize::MAX,
        is_stale(m, pos, stamp),
    ensures
        is_stale(m.insert(item, front), pos, stamp),
        is_stale(m.remove(rpos, rstamp), pos, stamp),
{
    lemma_next_pos_fresh(m);
}

/// Removing a live value takes it out of the values at its place; the head
/// moves to the next value when the head is removed, the tail to the
/// previous one when the tail is removed, and the list is empty when the
/// sole value is removed.
pub proof fn lemma_remove_values<T>(m: ListModel<T>, pos: usize, stamp: nat)
    requires
        m.inv(),
        m.lookup(pos, stamp) is Some,
    ensures
        m.remove(pos, stamp).values() == m.values().remove(m.order.index_of(pos)),
        m.order[0] == pos ==> m.remove(pos, stamp).order == m.order.drop_first(),
        m.order.last() == pos ==> m.remove(pos, stamp).order == m.order.drop_last(),
        m.len() == 1 ==> m.remove(pos, stamp).len() == 0,
{
    lemma_live_in_order(m, pos, stamp);
    let r = m.remove(pos, stamp);
    let k = m.order.index_of(pos);
    assert forall|j: int| 0 <= j < r.order.len() implies r.values()[j] == m.values().remove(k)[j] by {
        let i = if j < k { j } else { j + 1 };
        assert(r.order[j] == m.order[i]);
        assert(m.order[i] != pos);
    }
    assert(r.values() =~= m.values().remove(k));
    if m.order[0] == pos {
        assert(r.order =~= m.order.drop_first());
    }
    if m.order.last() == pos {
        assert(r.order =~= m.order.drop_last());
    }
}

/// The generation grows by exactly one on each successful removal, and is
/// left as it was by insertions and by removals through handles that are
/// not live.
pub proof fn lemma_generation_counts<T>(m: ListModel<T>, item: T, front: bool, pos: usize, stamp: nat)
    ensures
        m.insert(item, front).generation == m.generation,
        m.remove(pos, stamp).generation == if m.lookup(pos, stamp) is Some {
            m.generation + 1
        } else {
            m.generation
        },
{
}

} // verus!
