use vstd::prelude::*;

use crate::IndexList;

verus! {

/// Forwards iterator with a reference to a list.
/// Returns references to the values in the list, head to tail.
pub struct ForwardIter<'a, T> {
    list: &'a IndexList<T>,
    next_index: Option<usize>,
    /// The place in the list's order of `next_index`.
    pos: Ghost<int>,
}

impl<'a, T> ForwardIter<'a, T> {
    /// The iterator's state agrees with its list.
    pub closed spec fn wf(&self) -> bool {
        let order = self.list@.order;
        &&& self.list.wf()
        &&& 0 <= self.pos@ <= order.len()
        &&& self.next_index == if self.pos@ == order.len() {
            None
        } else {
            Some(order[self.pos@])
        }
    }

    /// The values that are still to come.
    pub closed spec fn remaining(&self) -> Seq<T> {
        self.list@.values().subrange(self.pos@, self.list@.order.len() as int)
    }

    /// An iterator that starts at slot `next_index`, which is live, and
    /// ends at the tail; with `None` it yields nothing.
    pub fn new(list: &'a IndexList<T>, next_index: Option<usize>) -> (r: Self)
        requires
            list.wf(),
            next_index matches Some(p) ==> list@.order.contains(p),
        ensures
            r.wf(),
            r.remaining() == match next_index {
                None => Seq::<T>::empty(),
                Some(p) => list@.values().subrange(
                    list@.order.index_of(p),
                    list@.order.len() as int,
                ),
            },
    {
        let ghost pos = match next_index {
            None => list@.order.len() as int,
            Some(p) => list@.order.index_of(p),
        };
        let r = ForwardIter { list, next_index, pos: Ghost(pos) };
        proof {
            if next_index is None {
                assert(r.remaining() =~= Seq::<T>::empty());
            }
        }
        r
    }

    /// The next value, `None` once the tail has been passed.
    pub fn next(&mut self) -> (r: Option<&'a T>)
        requires
            old(self).wf(),
        ensures
            final(self).wf(),
            old(self).remaining().len() == 0 ==> r is None && final(self).remaining() == old(
                self,
            ).remaining(),
            old(self).remaining().len() > 0 ==> r is Some && *r.unwrap() == old(self).remaining()[0]
                && final(self).remaining() == old(self).remaining().drop_first(),
    {
        match self.next_index {
            None => None,
            Some(index) => {
                let list: &'a IndexList<T> = self.list;
                let (item, next) = list.step(Ghost(self.pos@), index);
                self.next_index = next;
                self.pos = Ghost(self.pos@ + 1);
                proof {
                    assert(self.remaining() =~= old(self).remaining().drop_first());
                }
                Some(item)
            },
        }
    }
}

impl<T> IndexList<T> {
    /// Consumes the list into an iterator over its values, head to tail.
    pub fn into_iter(self) -> (r: ForwardIntoIter<T>)
        requires
            self.wf(),
        ensures
            r.wf(),
            r.remaining() == self@.values(),
    {
        proof {
            self.lemma_wf_chain();
            self.lemma_wf_inv();
        }
        let next_index = self.head;
        let r = ForwardIntoIter { list: self, next_index, pos: Ghost(0) };
        proof {
            assert(r.remaining() =~= self@.values());
        }
        r
    }
}

/// Forwards iterator that consumes the list.
pub struct ForwardIntoIter<T> {
    list: IndexList<T>,
    next_index: Option<usize>,
    /// The place in the list's order of `next_index`.
    pos: Ghost<int>,
}

impl<T> ForwardIntoIter<T> {
    /// The slots still to be visited form a chain starting at `next_index`.
    pub closed spec fn wf(&self) -> bool {
        let order = self.list@.order;
        &&& self.list.chain_from(self.pos@)
        &&& 0 <= self.pos@ <= order.len()
        &&& self.next_index == if self.pos@ == order.len() {
            None
        } else {
            Some(order[self.pos@])
        }
    }

    /// The values that are still to come.
    pub closed spec fn remaining(&self) -> Seq<T> {
        self.list@.values().subrange(self.pos@, self.list@.order.len() as int)
    }

    /// The next value, moved out of the list; `None` once the tail has been
    /// passed.
    pub fn next(&mut self) -> (r: Option<T>)
        requires
            old(self).wf(),
        ensures
            final(self).wf(),
            old(self).remaining().len() == 0 ==> r is None && final(self).remaining() == old(
                self,
            ).remaining(),
            old(self).remaining().len() > 0 ==> r == Some(old(self).remaining()[0])
                && final(self).remaining() == old(self).remaining().drop_first(),
    {
        match self.next_index {
            None => None,
            Some(index) => {
                let ghost k = self.pos@;
                let ghost before = self.list@.values();
                let ghost n = self.list@.order.len() as int;
                let (item, next) = self.list.take(Ghost(k), index);
                self.next_index = next;
                self.pos = Ghost(k + 1);
                proof {
                    let after = self.list@.values();
                    assert(after.subrange(k + 1, n) == before.subrange(k + 1, n));
                    assert(before.subrange(k, n).drop_first() =~= before.subrange(k + 1, n));
                }
                Some(item)
            },
        }
    }
}

} // verus!
