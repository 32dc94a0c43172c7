use std::marker::PhantomData;
use vstd::prelude::*;

pub mod iter;
pub mod model;

pub use iter::{ForwardIntoIter, ForwardIter};
use model::{lemma_next_pos_fresh, ListModel};

verus! {

/// A doubly-linked list kept in a vector of slots. Values are reached
/// through generation-stamped handles, so a handle to a removed value is
/// detected as stale even after its slot has been reused.
pub struct IndexList<T> {
    contents: Vec<Entry<T>>,
    generation: usize,
    next_free: Option<usize>,
    head: Option<usize>,
    tail: Option<usize>,
    /// Positions of the live slots, head first.
    order: Ghost<Seq<usize>>,
    /// Positions of the free slots, in free-list order.
    free: Ghost<Seq<usize>>,
}

enum Entry<T> {
    Free { next_free: Option<usize> },
    Occupied(OccupiedEntry<T>),
}

struct OccupiedEntry<T> {
    item: T,
    generation: usize,
    next: Option<usize>,
    prev: Option<usize>,
}

/// Index used to access the information in the list.
/// The generation tells whether the index still designates the
/// entry it was issued for.
pub struct Index<T> {
    index: usize,
    generation: usize,
    _marker: PhantomData<T>,
}

impl<T> View for Index<T> {
    /// The slot position and the generation stamp.
    type V = (usize, nat);

    closed spec fn view(&self) -> (usize, nat) {
        (self.index, self.generation as nat)
    }
}

impl<T> Index<T> {
    fn new(index: usize, generation: usize) -> (r: Self)
        ensures
            r@ == (index, generation as nat),
    {
        Index { index, generation, _marker: PhantomData }
    }

    /// The generation stamp that this index carries.
    pub fn generation(&self) -> (r: usize)
        ensures
            r as nat == self@.1,
    {
        self.generation
    }
}

spec fn entry_view<T>(e: Entry<T>) -> Option<(T, nat)> {
    match e {
        Entry::Free { .. } => None,
        Entry::Occupied(o) => Some((o.item, o.generation as nat)),
    }
}

/// Relies on `Vec::capacity`: the result depends on the allocator, so
/// nothing is stated of it.
#[verifier::external_body]
fn vec_capacity<T>(v: &Vec<T>) -> usize {
    v.capacity()
}

impl<T> Default for IndexList<T> {
    fn default() -> (r: Self)
        ensures
            r.wf(),
            r@ == ListModel::<T>::empty(),
    {
        IndexList::new()
    }
}

spec fn slots_view<T>(s: Seq<Entry<T>>) -> Seq<Option<(T, nat)>> {
    s.map_values(|e: Entry<T>| entry_view(e))
}

/// Overwriting one entry changes the slot view at that entry alone.
proof fn lemma_slots_view_update<T>()
    ensures
        forall|s: Seq<Entry<T>>, i: int, e: Entry<T>|
            0 <= i < s.len() ==> #[trigger] slots_view(s.update(i, e)) == slots_view(s).update(
                i,
                entry_view(e),
            ),
{
    assert forall|s: Seq<Entry<T>>, i: int, e: Entry<T>| 0 <= i < s.len() implies #[trigger] slots_view(
        s.update(i, e),
    ) == slots_view(s).update(i, entry_view(e)) by {
        assert(slots_view(s.update(i, e)) =~= slots_view(s).update(i, entry_view(e)));
    }
}

/// Two lists with the same links, stamps, free list and ghost state, whose
/// values may differ.
spec fn same_shape<T>(a: IndexList<T>, b: IndexList<T>) -> bool {
    &&& a.contents@.len() == b.contents@.len()
    &&& forall|p: int|
        0 <= p < a.contents@.len() ==> match (#[trigger] a.contents@[p], b.contents@[p]) {
            (Entry::Occupied(x), Entry::Occupied(y)) => x.generation == y.generation && x.next
                == y.next && x.prev == y.prev,
            (x, y) => x == y,
        }
    &&& a.generation == b.generation
    &&& a.next_free == b.next_free
    &&& a.head == b.head
    &&& a.tail == b.tail
    &&& a.order == b.order
    &&& a.free == b.free
}

/// Well-formedness does not depend on the stored values.
proof fn lemma_wf_same_shape<T>()
    ensures
        forall|a: IndexList<T>, b: IndexList<T>|
            #![trigger a.wf(), b.wf()]
            a.wf() && same_shape(a, b) ==> b.wf(),
{
    assert forall|a: IndexList<T>, b: IndexList<T>| a.wf() && same_shape(a, b) implies b.wf() by {
        assert forall|p: int| 0 <= p < b.contents@.len() implies (a.contents@[p] is Occupied
            <==> b.contents@[p] is Occupied) && (a.contents@[p] is Occupied ==> a.contents@[p]->Occupied_0.generation == b.contents@[p]->Occupied_0.generation) by {
            let _ = a.contents@[p];
        }
        assert forall|k: int| 0 <= k < b.order@.len() implies (#[trigger] b.node(b.order@[k])).prev == a.node(a.order@[k]).prev
            && b.node(b.order@[k]).next == a.node(a.order@[k]).next by {
            let q = a.order@[k];
            assert(a@.slots[q as int] is Some);
            let _ = a.contents@[q as int];
        }
        assert forall|k: int| 0 <= k < b.free@.len() implies (#[trigger] b.contents@[b.free@[k] as int]) == a.contents@[a.free@[k] as int] by {
            let q = a.free@[k];
            assert(a@.slots[q as int] is None);
            let _ = a.contents@[q as int];
        }
        assert forall|p: int| 0 <= p < b@.slots.len() implies (#[trigger] b@.slots[p] is Some
            <==> a@.slots[p] is Some) && (b@.slots[p] is Some ==> b@.slots[p]->Some_0.1 == a@.slots[p]->Some_0.1) by {
            let _ = a.contents@[p];
        }
    }
}

impl<T> View for IndexList<T> {
    type V = ListModel<T>;

    closed spec fn view(&self) -> ListModel<T> {
        ListModel {
            slots: slots_view(self.contents@),
            order: self.order@,
            free: self.free@,
            generation: self.generation as nat,
        }
    }
}

impl<T> IndexList<T> {
    spec fn node(&self, p: usize) -> OccupiedEntry<T> {
        self.contents@[p as int]->Occupied_0
    }

    /// The links of every live slot follow `order`, and `head` and `tail`
    /// are its two ends.
    spec fn links_wf(&self) -> bool {
        let order = self.order@;
        &&& forall|k: int|
            0 <= k < order.len() ==> {
                &&& (#[trigger] self.node(order[k])).prev == if k == 0 {
                    None
                } else {
                    Some(order[k - 1])
                }
                &&& self.node(order[k]).next == if k + 1 == order.len() {
                    None
                } else {
                    Some(order[k + 1])
                }
            }
        &&& self.head == if order.len() == 0 {
            None
        } else {
            Some(order[0])
        }
        &&& self.tail == if order.len() == 0 {
            None
        } else {
            Some(order.last())
        }
    }

    /// The free list threads through the slots listed in `free`.
    spec fn free_wf(&self) -> bool {
        let free = self.free@;
        &&& forall|k: int|
            0 <= k < free.len() ==> (#[trigger] self.contents@[free[k] as int]) == (Entry::<T>::Free {
                next_free: if k + 1 == free.len() {
                    None
                } else {
                    Some(free[k + 1])
                },
            })
        &&& self.next_free == if free.len() == 0 {
            None
        } else {
            Some(free[0])
        }
    }

    /// The well-formedness of the list.
    pub closed spec fn wf(&self) -> bool {
        &&& self@.inv()
        &&& self.links_wf()
        &&& self.free_wf()
    }

    /// Every well-formed list has a well-formed model.
    pub proof fn lemma_wf_inv(&self)
        requires
            self.wf(),
        ensures
            self@.inv(),
    {
    }

    /// Creates an empty list.
    pub fn new() -> (r: Self)
        ensures
            r.wf(),
            r@ == ListModel::<T>::empty(),
    {
        let r = IndexList {
            contents: Vec::new(),
            generation: 0,
            next_free: None,
            head: None,
            tail: None,
            order: Ghost(Seq::empty()),
            free: Ghost(Seq::empty()),
        };
        assert(r@.slots =~= Seq::empty());
        r
    }

    /// Creates an empty list whose slot vector has room for `size` slots;
    /// the size is a hint, not a bound.
    pub fn new_with_capacity(size: usize) -> (r: Self)
        ensures
            r.wf(),
            r@ == ListModel::<T>::empty(),
    {
        let r = IndexList {
            contents: Vec::with_capacity(size),
            generation: 0,
            next_free: None,
            head: None,
            tail: None,
            order: Ghost(Seq::empty()),
            free: Ghost(Seq::empty()),
        };
        assert(r@.slots =~= Seq::empty());
        r
    }

    /// A reference to the value that `index` designates, or `None` where the
    /// index is out of range, its slot is free, or the slot holds a value of
    /// another generation.
    pub fn get(&self, index: &Index<T>) -> (r: Option<&T>)
        requires
            self.wf(),
        ensures
            r is None <==> self@.lookup(index@.0, index@.1) is None,
            r is Some ==> self@.lookup(index@.0, index@.1) == Some(*r.unwrap()),
    {
        if index.index < self.contents.len() {
            match &self.contents[index.index] {
                Entry::Free { .. } => None,
                Entry::Occupied(value) => {
                    if value.generation == index.generation {
                        Some(&value.item)
                    } else {
                        None
                    }
                },
            }
        } else {
            None
        }
    }

    /// A mutable reference to the first value, `None` where the list is
    /// empty. What is written through it becomes the first value.
    pub fn head_mut(&mut self) -> (r: Option<&mut T>)
        requires
            old(self).wf(),
        ensures
            r is None <==> old(self)@.len() == 0,
            r is None ==> final(self)@ == old(self)@,
            r is Some ==> *r.unwrap() == old(self)@.values()[0],
            r is Some ==> final(self)@ == old(self)@.replace(old(self)@.order[0], *final(r.unwrap())),
            final(self).wf(),
    {
        match self.head {
            None => None,
            Some(index) => {
                proof {
                    assert(self@.order[0] == index);
                    assert(self@.slots[index as int] is Some);
                    lemma_slots_view_update::<T>();
                    lemma_wf_same_shape::<T>();
                }
                match &mut self.contents[index] {
                    Entry::Free { .. } => None,
                    Entry::Occupied(value) => Some(&mut value.item),
                }
            },
        }
    }

    /// A mutable reference to the last value, `None` where the list is
    /// empty. What is written through it becomes the last value.
    pub fn tail_mut(&mut self) -> (r: Option<&mut T>)
        requires
            old(self).wf(),
        ensures
            r is None <==> old(self)@.len() == 0,
            r is None ==> final(self)@ == old(self)@,
            r is Some ==> *r.unwrap() == old(self)@.values().last(),
            r is Some ==> final(self)@ == old(self)@.replace(old(self)@.order.last(), *final(r.unwrap())),
            final(self).wf(),
    {
        match self.tail {
            None => None,
            Some(index) => {
                proof {
                    assert(self@.order[self@.order.len() - 1] == index);
                    assert(self@.slots[index as int] is Some);
                    lemma_slots_view_update::<T>();
                    lemma_wf_same_shape::<T>();
                }
                match &mut self.contents[index] {
                    Entry::Free { .. } => None,
                    Entry::Occupied(value) => Some(&mut value.item),
                }
            },
        }
    }

    /// The number of slots, live or free.
    pub fn slot_count(&self) -> (r: usize)
        ensures
            r == self@.slots.len(),
    {
        self.contents.len()
    }

    /// The number of slots that the slot vector has room for.
    pub fn capacity(&self) -> usize {
        vec_capacity(&self.contents)
    }

    /// The structure generation: the number of successful removals.
    pub fn generation(&self) -> (r: usize)
        ensures
            r == self@.generation,
    {
        self.generation
    }

    /// The position of the slot that the next insertion reuses, if any.
    pub fn next_free(&self) -> (r: Option<usize>)
        requires
            self.wf(),
        ensures
            r == if self@.free.len() == 0 {
                None
            } else {
                Some(self@.free[0])
            },
    {
        self.next_free
    }

    /// The position of the head slot, `None` where the list is empty.
    pub fn head_index(&self) -> (r: Option<usize>)
        requires
            self.wf(),
        ensures
            r == if self@.len() == 0 {
                None
            } else {
                Some(self@.order[0])
            },
    {
        self.head
    }

    /// The position of the tail slot, `None` where the list is empty.
    pub fn tail_index(&self) -> (r: Option<usize>)
        requires
            self.wf(),
        ensures
            r == if self@.len() == 0 {
                None
            } else {
                Some(self@.order.last())
            },
    {
        self.tail
    }

    /// The value in the live slot at place `k` of the order, and the
    /// position of the slot after it.
    pub(crate) fn step(&self, Ghost(k): Ghost<int>, p: usize) -> (r: (&T, Option<usize>))
        requires
            self.wf(),
            0 <= k < self@.order.len(),
            self@.order[k] == p,
        ensures
            *r.0 == self@.values()[k],
            r.1 == if k + 1 == self@.order.len() {
                None
            } else {
                Some(self@.order[k + 1])
            },
    {
        proof {
            assert(self@.slots[p as int] is Some);
            assert(self.node(self.order@[k]) == self.node(p));
        }
        match &self.contents[p] {
            Entry::Occupied(value) => (&value.item, value.next),
            Entry::Free { .. } => unreached(),
        }
    }

    /// A borrowing iterator over the values, head to tail.
    pub fn iter(&self) -> (r: ForwardIter<'_, T>)
        requires
            self.wf(),
        ensures
            r.wf(),
            r.remaining() == self@.values(),
    {
        ForwardIter::new(self, self.head)
    }

    /// From place `start` of the order on, every slot is live and linked
    /// to the next; what came before may have been taken out.
    pub(crate) closed spec fn chain_from(&self, start: int) -> bool {
        let order = self.order@;
        &&& order.no_duplicates()
        &&& 0 <= start <= order.len()
        &&& forall|k: int|
            start <= k < order.len() ==> {
                &&& #[trigger] order[k] < self.contents@.len()
                &&& self.contents@[order[k] as int] is Occupied
                &&& self.node(order[k]).next == if k + 1 == order.len() {
                    None
                } else {
                    Some(order[k + 1])
                }
            }
    }

    /// A well-formed list is a full chain.
    pub(crate) proof fn lemma_wf_chain(&self)
        requires
            self.wf(),
        ensures
            self.chain_from(0),
    {
        assert forall|k: int| 0 <= k < self.order@.len() implies self.contents@[self.order@[k] as int] is Occupied by {
            assert(self@.slots[self.order@[k] as int] is Some);
        }
    }

    /// Moves out the value in the slot at place `k` of the order, leaving
    /// the slot free, and returns it with the position of the slot after it.
    pub(crate) fn take(&mut self, Ghost(k): Ghost<int>, p: usize) -> (r: (T, Option<usize>))
        requires
            old(self).chain_from(k),
            k < old(self)@.order.len(),
            old(self)@.order[k] == p,
        ensures
            final(self).chain_from(k + 1),
            final(self)@.order == old(self)@.order,
            final(self)@.values().subrange(k + 1, final(self)@.order.len() as int)
                == old(self)@.values().subrange(k + 1, old(self)@.order.len() as int),
            r.0 == old(self)@.values()[k],
            r.1 == if k + 1 == old(self)@.order.len() {
                None
            } else {
                Some(old(self)@.order[k + 1])
            },
    {
        let ghost old_list = *self;
        let mut removed = Entry::Free { next_free: None };
        std::mem::swap(&mut self.contents[p], &mut removed);
        proof {
            let order = self.order@;
            let n = order.len() as int;
            assert forall|j: int| k + 1 <= j < n implies self.contents@[order[j] as int]
                == old_list.contents@[order[j] as int] by {
                assert(order[j] != order[k]);
            }
            assert(self@.values().subrange(k + 1, n) =~= old_list@.values().subrange(k + 1, n));
        }
        match removed {
            Entry::Occupied(value) => (value.item, value.next),
            Entry::Free { .. } => unreached(),
        }
    }

    /// Stores `new_entry` in the first free slot, or in a new slot at the
    /// end where none is free, and returns its position.
    fn push(&mut self, new_entry: Entry<T>) -> (index: usize)
        requires
            old(self).wf(),
            old(self)@.slots.len() < usize::MAX,
        ensures
            index as int == old(self)@.next_pos(),
            old(self)@.free.len() == 0 ==> final(self).contents@ == old(self).contents@.push(new_entry),
            old(self)@.free.len() != 0 ==> final(self).contents@ == old(self).contents@.update(index as int, new_entry),
            final(self).free@ == if old(self)@.free.len() == 0 {
                old(self).free@
            } else {
                old(self).free@.drop_first()
            },
            final(self).free_wf(),
            final(self).generation == old(self).generation,
            final(self).head == old(self).head,
            final(self).tail == old(self).tail,
            final(self).order == old(self).order,
    {
        match self.next_free {
            None => {
                let index = self.contents.len();
                self.contents.push(new_entry);
                index
            },
            Some(index) => {
                proof {
                    assert(self.contents@[self.free@[0] as int] is Free);
                }
                match &self.contents[index] {
                    Entry::Free { next_free } => self.next_free = *next_free,
                    Entry::Occupied(..) => {},
                }
                self.contents.set(index, new_entry);
                self.free = Ghost(self.free@.drop_first());
                proof {
                    let free = self.free@;
                    assert forall|k: int| 0 <= k < free.len() implies (#[trigger] self.contents@[free[k] as int]) == (Entry::<T>::Free {
                        next_free: if k + 1 == free.len() {
                            None
                        } else {
                            Some(free[k + 1])
                        },
                    }) by {
                        assert(old(self).free@[k + 1] == free[k]);
                        assert(old(self).free@[0] != old(self).free@[k + 1]);
                    }
                }
                index
            },
        }
    }

    /// Appends `item` as the new tail and returns its index.
    pub fn push_back(&mut self, item: T) -> (r: Index<T>)
        requires
            old(self).wf(),
            old(self)@.slots.len() < usize::MAX,
        ensures
            final(self).wf(),
            final(self)@ == old(self)@.insert(item, false),
            r@ == (old(self)@.next_pos() as usize, old(self)@.generation),
    {
        let ghost old_list = *self;
        let new_entry = Entry::Occupied(
            OccupiedEntry { item, generation: self.generation, next: None, prev: self.tail },
        );
        let index = self.push(new_entry);
        proof {
            lemma_next_pos_fresh(old_list@);
        }
        if let Some(tail_index) = self.tail {
            match &mut self.contents[tail_index] {
                Entry::Free { .. } => {},
                Entry::Occupied(entry) => entry.next = Some(index),
            }
        }
        if self.head.is_none() {
            self.head = Some(index);
        }
        self.tail = Some(index);
        self.order = Ghost(self.order@.push(index));
        proof {
            let ghost new_model = old_list@.insert(item, false);
            let n = old_list@.order.len();
            assert(self@.slots =~= new_model.slots) by {
                assert forall|p: int| 0 <= p < self@.slots.len() implies self@.slots[p]
                    == new_model.slots[p] by {
                    if n > 0 && p == old_list@.order[n - 1] as int {
                        assert(old_list@.slots[p] is Some);
                    }
                }
            }
            assert(self@.order =~= new_model.order);
            assert(self@.free =~= new_model.free);
            self.lemma_wf_after_insert(old_list, item, false, index);
        }
        Index::new(index, self.generation)
    }

    /// Prepends `item` as the new head and returns its index.
    pub fn push_front(&mut self, item: T) -> (r: Index<T>)
        requires
            old(self).wf(),
            old(self)@.slots.len() < usize::MAX,
        ensures
            final(self).wf(),
            final(self)@ == old(self)@.insert(item, true),
            r@ == (old(self)@.next_pos() as usize, old(self)@.generation),
    {
        let ghost old_list = *self;
        let new_entry = Entry::Occupied(
            OccupiedEntry { item, generation: self.generation, next: self.head, prev: None },
        );
        let index = self.push(new_entry);
        proof {
            lemma_next_pos_fresh(old_list@);
        }
        if let Some(head_index) = self.head {
            match &mut self.contents[head_index] {
                Entry::Free { .. } => {},
                Entry::Occupied(entry) => entry.prev = Some(index),
            }
        }
        if self.tail.is_none() {
            self.tail = Some(index);
        }
        self.head = Some(index);
        self.order = Ghost(seq![index] + self.order@);
        proof {
            let ghost new_model = old_list@.insert(item, true);
            assert(self@.slots =~= new_model.slots) by {
                assert forall|p: int| 0 <= p < self@.slots.len() implies self@.slots[p]
                    == new_model.slots[p] by {
                    if old_list@.order.len() > 0 && p == old_list@.order[0] as int {
                        assert(old_list@.slots[p] is Some);
                    }
                }
            }
            assert(self@.order =~= new_model.order);
            assert(self@.free =~= new_model.free);
            self.lemma_wf_after_insert(old_list, item, true, index);
        }
        Index::new(index, self.generation)
    }

    /// Removes the value that `index` designates and returns it; `None`,
    /// with the list unchanged, where the index is not live. A successful
    /// removal frees the slot and increments the generation.
    pub fn remove(&mut self, index: &Index<T>) -> (r: Option<T>)
        requires
            old(self).wf(),
            old(self)@.lookup(index@.0, index@.1) is Some ==> old(self)@.generation < usize::MAX,
        ensures
            final(self).wf(),
            r == old(self)@.lookup(index@.0, index@.1),
            final(self)@ == old(self)@.remove(index@.0, index@.1),
    {
        let ghost old_list = *self;
        let head = match self.head {
            Some(h) => h,
            None => {
                proof {
                    if self@.lookup(index@.0, index@.1) is Some {
                        model::lemma_live_in_order(self@, index@.0, index@.1);
                    }
                }
                return None;
            },
        };
        let tail = match self.tail {
            Some(t) => t,
            None => return None,
        };
        if index.index >= self.contents.len() {
            return None;
        }
        let (prev, next) = match &self.contents[index.index] {
            Entry::Free { .. } => return None,
            Entry::Occupied(value) => {
                if value.generation != index.generation {
                    return None;
                }
                (value.prev, value.next)
            },
        };
        let ghost pos = index.index;
        let ghost o = old_list@.order;
        let ghost k = o.index_of(pos);
        proof {
            model::lemma_live_in_order(old_list@, index@.0, index@.1);
            assert(old_list.node(o[k]) == old_list.node(pos));
        }
        if let Some(prev_index) = prev {
            proof {
                assert(old_list@.slots[o[k - 1] as int] is Some);
            }
            match &mut self.contents[prev_index] {
                Entry::Free { .. } => {},
                Entry::Occupied(value) => value.next = next,
            }
        }
        if index.index == tail {
            self.tail = prev;
        }
        if let Some(next_index) = next {
            proof {
                assert(old_list@.slots[o[k + 1] as int] is Some);
            }
            match &mut self.contents[next_index] {
                Entry::Free { .. } => {},
                Entry::Occupied(value) => value.prev = prev,
            }
        }
        if index.index == head {
            self.head = next;
        }
        let mut removed = Entry::Free { next_free: self.next_free };
        std::mem::swap(&mut self.contents[index.index], &mut removed);
        self.next_free = Some(index.index);
        self.generation = self.generation + 1;
        self.order = Ghost(o.remove(k));
        self.free = Ghost(seq![pos] + self.free@);
        proof {
            self.lemma_wf_after_remove(old_list, pos, index@.1);
        }
        match removed {
            Entry::Occupied(value) => Some(value.item),
            Entry::Free { .. } => None,
        }
    }

    /// A mutable reference to the value that `index` designates, under the
    /// same conditions as `get`. What is written through it becomes the
    /// value at that index.
    pub fn get_mut(&mut self, index: &Index<T>) -> (r: Option<&mut T>)
        requires
            old(self).wf(),
        ensures
            r is None <==> old(self)@.lookup(index@.0, index@.1) is None,
            r is None ==> final(self)@ == old(self)@,
            r is Some ==> old(self)@.lookup(index@.0, index@.1) == Some(*r.unwrap()),
            r is Some ==> final(self)@ == old(self)@.replace(index@.0, *final(r.unwrap())),
            final(self).wf(),
    {
        if self.get(index).is_none() {
            return None;
        }
        proof {
            lemma_slots_view_update::<T>();
            lemma_wf_same_shape::<T>();
        }
        match &mut self.contents[index.index] {
            Entry::Free { .. } => None,
            Entry::Occupied(value) => Some(&mut value.item),
        }
    }

    /// A reference to the first value, `None` where the list is empty.
    pub fn head(&self) -> (r: Option<&T>)
        requires
            self.wf(),
        ensures
            r is None <==> self@.len() == 0,
            r is Some ==> *r.unwrap() == self@.values()[0],
    {
        match self.head {
            None => None,
            Some(index) => {
                proof {
                    assert(self@.order[0] == index);
                }
                match &self.contents[index] {
                    Entry::Free { .. } => None,
                    Entry::Occupied(value) => Some(&value.item),
                }
            },
        }
    }

    /// A reference to the last value, `None` where the list is empty.
    pub fn tail(&self) -> (r: Option<&T>)
        requires
            self.wf(),
        ensures
            r is None <==> self@.len() == 0,
            r is Some ==> *r.unwrap() == self@.values().last(),
    {
        match self.tail {
            None => None,
            Some(index) => {
                proof {
                    assert(self@.order[self@.order.len() - 1] == index);
                }
                match &self.contents[index] {
                    Entry::Free { .. } => None,
                    Entry::Occupied(value) => Some(&value.item),
                }
            },
        }
    }
}

impl<T> IndexList<T> {
    /// Where the model is that of an insertion, the new slot is linked to
    /// its neighbour, and every other slot is as it was, the list is
    /// well-formed.
    proof fn lemma_wf_after_insert(&self, old_list: IndexList<T>, item: T, front: bool, index: usize)
        requires
            old_list.wf(),
            old_list@.slots.len() < usize::MAX,
            index as int == old_list@.next_pos(),
            self@ == old_list@.insert(item, front),
            self.contents@.len() == old_list@.insert(item, front).slots.len(),
            self.free_wf(),
            self.node(index).next == if front { old_list.head } else { None::<usize> },
            self.node(index).prev == if front { None::<usize> } else { old_list.tail },
            front && old_list.head is Some ==> self.node(old_list.head->Some_0).prev == Some(index)
                && self.node(old_list.head->Some_0).next == old_list.node(old_list.head->Some_0).next,
            !front && old_list.tail is Some ==> self.node(old_list.tail->Some_0).next == Some(index)
                && self.node(old_list.tail->Some_0).prev == old_list.node(old_list.tail->Some_0).prev,
            forall|p: usize| p < old_list.contents@.len() && p != index
                && Some(p) != (if front { old_list.head } else { old_list.tail })
                ==> self.contents@[p as int] == old_list.contents@[p as int],
            self.head == if old_list.head is None || front { Some(index) } else { old_list.head },
            self.tail == if old_list.tail is None || !front { Some(index) } else { old_list.tail },
        ensures
            self.wf(),
    {
        lemma_next_pos_fresh(old_list@);
        model::lemma_insert_inv(old_list@, item, front);
        let o = old_list@.order;
        let order = self@.order;
        let n = o.len();
        assert(self@.slots[index as int] is Some);
        assert(self.contents@[index as int] is Occupied);
        assert forall|k: int| 0 <= k < order.len() implies {
            &&& (#[trigger] self.node(order[k])).prev == if k == 0 {
                None
            } else {
                Some(order[k - 1])
            }
            &&& self.node(order[k]).next == if k + 1 == order.len() {
                None
            } else {
                Some(order[k + 1])
            }
        } by {
            if front {
                if k > 0 {
                    let q = o[k - 1];
                    assert(order[k] == q);
                    assert(q != index);
                    assert(old_list@.slots[q as int] is Some);
                    let on = old_list.node(q);
                    assert(on.prev == if k - 1 == 0 { None } else { Some(o[k - 2]) });
                    assert(on.next == if k == n { None } else { Some(o[k]) });
                    if k > 1 {
                        assert(q != o[0]);
                        assert(self.contents@[q as int] == old_list.contents@[q as int]);
                    }
                }
            } else {
                if k < n {
                    let q = o[k];
                    assert(order[k] == q);
                    assert(q != index);
                    assert(old_list@.slots[q as int] is Some);
                    let on = old_list.node(q);
                    assert(on.prev == if k == 0 { None } else { Some(o[k - 1]) });
                    assert(on.next == if k + 1 == n { None } else { Some(o[k + 1]) });
                    if k + 1 < n {
                        assert(q != o[n - 1]);
                        assert(self.contents@[q as int] == old_list.contents@[q as int]);
                    }
                }
            }
        }
    }

    /// Where slot `pos` has been unlinked from its neighbours and pushed on
    /// the free list, the list is well-formed and its model is that of the
    /// removal.
    #[verifier::rlimit(60)]
    proof fn lemma_wf_after_remove(&self, old_list: IndexList<T>, pos: usize, stamp: nat)
        requires
            old_list.wf(),
            old_list@.lookup(pos, stamp) is Some,
            old_list@.generation < usize::MAX,
            ({
                let o = old_list@.order;
                let k = o.index_of(pos);
                let prev = old_list.node(pos).prev;
                let next = old_list.node(pos).next;
                &&& self.contents@.len() == old_list.contents@.len()
                &&& self.contents@[pos as int] == (Entry::<T>::Free { next_free: old_list.next_free })
                &&& prev is Some ==> self.node(prev->Some_0).next == next
                    && self.node(prev->Some_0).prev == old_list.node(prev->Some_0).prev
                    && self.contents@[prev->Some_0 as int] is Occupied
                    && entry_view(self.contents@[prev->Some_0 as int]) == entry_view(old_list.contents@[prev->Some_0 as int])
                &&& next is Some ==> self.node(next->Some_0).prev == prev
                    && self.node(next->Some_0).next == old_list.node(next->Some_0).next
                    && self.contents@[next->Some_0 as int] is Occupied
                    && entry_view(self.contents@[next->Some_0 as int]) == entry_view(old_list.contents@[next->Some_0 as int])
                &&& forall|p: usize| p < old_list.contents@.len() && p != pos && Some(p) != prev
                    && Some(p) != next ==> self.contents@[p as int] == old_list.contents@[p as int]
                &&& self.head == if old_list.head == Some(pos) { next } else { old_list.head }
                &&& self.tail == if old_list.tail == Some(pos) { prev } else { old_list.tail }
                &&& self.next_free == Some(pos)
                &&& self.generation == old_list.generation + 1
                &&& self.order@ == o.remove(k)
                &&& self.free@ == seq![pos] + old_list.free@
            }),
        ensures
            self.wf(),
            self@ == old_list@.remove(pos, stamp),
    {
        model::lemma_live_in_order(old_list@, pos, stamp);
        model::lemma_remove_inv(old_list@, pos, stamp);
        let o = old_list@.order;
        let n = o.len();
        let k = o.index_of(pos);
        let order = self@.order;
        let nm = old_list@.remove(pos, stamp);
        assert(old_list.node(o[k]) == old_list.node(pos));
        assert(self@.slots =~= nm.slots) by {
            assert forall|p: int| 0 <= p < self@.slots.len() implies self@.slots[p]
                == nm.slots[p] by {
                if p != pos as int {
                    if k > 0 && p == o[k - 1] as int {
                    } else if k + 1 < n && p == o[k + 1] as int {
                    } else {
                        assert(self.contents@[p as usize as int] == old_list.contents@[p as usize as int]);
                    }
                }
            }
        }
        assert(self@.order =~= nm.order);
        assert(self@.free =~= nm.free);
        assert forall|j: int| 0 <= j < order.len() implies {
            &&& (#[trigger] self.node(order[j])).prev == if j == 0 {
                None
            } else {
                Some(order[j - 1])
            }
            &&& self.node(order[j]).next == if j + 1 == order.len() {
                None
            } else {
                Some(order[j + 1])
            }
        } by {
            let i = if j < k { j } else { j + 1 };
            let q = o[i];
            assert(order[j] == q);
            assert(q != pos);
            assert(old_list@.slots[q as int] is Some);
            let on = old_list.node(q);
            assert(on.prev == if i == 0 { None } else { Some(o[i - 1]) });
            assert(on.next == if i + 1 == n { None } else { Some(o[i + 1]) });
            if i != k - 1 && i != k + 1 {
                if k > 0 {
                    assert(q != o[k - 1]);
                }
                if k + 1 < n {
                    assert(q != o[k + 1]);
                }
                assert(self.contents@[q as int] == old_list.contents@[q as int]);
            }
        }
        let free = self.free@;
        assert forall|j: int| 0 <= j < free.len() implies (#[trigger] self.contents@[free[j] as int]) == (Entry::<T>::Free {
            next_free: if j + 1 == free.len() {
                None
            } else {
                Some(free[j + 1])
            },
        }) by {
            if j > 0 {
                let q = old_list.free@[j - 1];
                assert(free[j] == q);
                assert(old_list@.slots[q as int] is None);
                assert(old_list.contents@[q as int] is Free);
                if k > 0 {
                    assert(old_list@.slots[o[k - 1] as int] is Some);
                }
                if k + 1 < n {
                    assert(old_list@.slots[o[k + 1] as int] is Some);
                }
            }
        }
    }
}

} // verus!
