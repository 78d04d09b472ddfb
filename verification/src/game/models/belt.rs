//! A conveyor belt: a fixed line of slots, stored as runs of equal slots.

use std::collections::VecDeque;
use vstd::prelude::*;
use vstd::std_specs::cmp::PartialEqSpec;

verus! {

/// Why a belt operation could not be carried out.
#[derive(Clone, Copy, PartialEq, Eq, Debug, Structural)]
pub enum Error {
    /// The front slot holds nothing to take.
    Empty,
    /// The back slot is occupied.
    Full,
}

/// A run of `repeat` consecutive slots that all hold `item`.
#[derive(Debug)]
struct Chunk<T> {
    item: Option<T>,
    repeat: usize,
}

impl<T> Chunk<T> {
    /// The slots this run stands for.
    spec fn slots(self) -> Seq<Option<T>> {
        Seq::new(self.repeat as nat, |i: int| self.item)
    }

    fn space() -> (c: Chunk<T>)
        ensures
            c.item is None,
            c.repeat == 1,
    {
        Chunk::spaces(1)
    }

    fn spaces(count: usize) -> (c: Chunk<T>)
        ensures
            c.item is None,
            c.repeat == count,
    {
        Chunk { item: None, repeat: count }
    }

    fn item(item: T) -> (c: Chunk<T>)
        ensures
            c.item == Some(item),
            c.repeat == 1,
    {
        Chunk::items(item, 1)
    }

    fn items(item: T, count: usize) -> (c: Chunk<T>)
        ensures
            c.item == Some(item),
            c.repeat == count,
    {
        Chunk { item: Some(item), repeat: count }
    }

    fn is_space(&self) -> (b: bool)
        ensures
            b == (self.item is None),
    {
        self.item.is_none()
    }

    fn is_item(&self) -> (b: bool)
        ensures
            b == (self.item is Some),
    {
        self.item.is_some()
    }
}


/// The slots that a sequence of runs stands for, front first.
spec fn expand<T>(chunks: Seq<Chunk<T>>) -> Seq<Option<T>>
    decreases chunks.len(),
{
    if chunks.len() == 0 {
        Seq::empty()
    } else {
        expand(chunks.drop_last()) + chunks.last().slots()
    }
}

proof fn lemma_expand_concat<T>(a: Seq<Chunk<T>>, b: Seq<Chunk<T>>)
    ensures
        expand(a + b) == expand(a) + expand(b),
    decreases b.len(),
{
    if b.len() == 0 {
        assert(a + b =~= a);
        assert(expand(a) + expand(b) =~= expand(a));
    } else {
        assert((a + b).drop_last() =~= a + b.drop_last());
        lemma_expand_concat(a, b.drop_last());
        assert(expand(a + b) =~= expand(a) + expand(b));
    }
}

proof fn lemma_expand_one<T>(c: Chunk<T>)
    ensures
        expand(seq![c]) == c.slots(),
{
    reveal_with_fuel(expand, 2);
    assert(seq![c].drop_last() =~= Seq::<Chunk<T>>::empty());
    assert(expand(seq![c]) =~= c.slots());
}

/// Splits the slots of `chunks` around the run at `i`.
proof fn lemma_expand_at<T>(chunks: Seq<Chunk<T>>, i: int)
    requires
        0 <= i < chunks.len(),
    ensures
        expand(chunks) == expand(chunks.take(i)) + chunks[i].slots() + expand(chunks.skip(i + 1)),
        expand(chunks.take(i + 1)) == expand(chunks.take(i)) + chunks[i].slots(),
{
    let a = chunks.take(i);
    let b = chunks.skip(i + 1);
    assert(chunks =~= a + seq![chunks[i]] + b);
    assert(chunks.take(i + 1) =~= a + seq![chunks[i]]);
    lemma_expand_one(chunks[i]);
    lemma_expand_concat(a, seq![chunks[i]]);
    lemma_expand_concat(a + seq![chunks[i]], b);
}

/// Splits the slots of `chunks` after its first run.
proof fn lemma_expand_front<T>(chunks: Seq<Chunk<T>>)
    requires
        chunks.len() > 0,
    ensures
        expand(chunks) == chunks[0].slots() + expand(chunks.drop_first()),
{
    lemma_expand_at(chunks, 0);
    assert(chunks.take(0) =~= Seq::<Chunk<T>>::empty());
    assert(chunks.skip(1) =~= chunks.drop_first());
    assert(expand(chunks.take(0)) + chunks[0].slots() =~= chunks[0].slots());
}

/// The items that a line of slots holds, front first.
pub open spec fn items<T>(slots: Seq<Option<T>>) -> Seq<T>
    decreases slots.len(),
{
    if slots.len() == 0 {
        Seq::empty()
    } else if slots.last() is Some {
        items(slots.drop_last()).push(slots.last()->0)
    } else {
        items(slots.drop_last())
    }
}

/// The index of the first free slot, or the number of slots where none is free.
pub open spec fn first_space<T>(slots: Seq<Option<T>>) -> int
    decreases slots.len(),
{
    if slots.len() == 0 || slots[0] is None {
        0
    } else {
        1 + first_space(slots.drop_first())
    }
}

/// A line of `n` free slots.
pub open spec fn free_slots<T>(n: nat) -> Seq<Option<T>> {
    Seq::new(n, |i: int| None)
}

/// The front slot holds an item.
pub open spec fn slots_can_take<T>(slots: Seq<Option<T>>) -> bool {
    slots.len() > 0 && slots[0] is Some
}

/// There is a back slot and it is free.
pub open spec fn slots_can_put<T>(slots: Seq<Option<T>>) -> bool {
    slots.len() > 0 && slots.last() is None
}

/// The slots after the front item has been taken.
pub open spec fn slots_after_take<T>(slots: Seq<Option<T>>) -> Seq<Option<T>> {
    slots.update(0, None)
}

/// The slots after `item` has been put into the back slot.
pub open spec fn slots_after_put<T>(slots: Seq<Option<T>>, item: T) -> Seq<Option<T>> {
    slots.update(slots.len() - 1, Some(item))
}

/// The slots after one advance: the first free slot is closed up and a free
/// slot opens at the back. A line without a free slot stays as it is.
pub open spec fn slots_after_advance<T>(slots: Seq<Option<T>>) -> Seq<Option<T>> {
    let p = first_space(slots);
    if p < slots.len() {
        slots.remove(p).push(None)
    } else {
        slots
    }
}

/// Whether `stored` may stand on the belt for `item`: it is `item`, or the
/// element type's `==` holds it equal to `item`.
pub open spec fn stands_for<T: PartialEq>(stored: T, item: T) -> bool {
    stored == item || (T::obeys_eq_spec() ==> stored.eq_spec(&item))
}

pub proof fn lemma_items_concat<T>(a: Seq<Option<T>>, b: Seq<Option<T>>)
    ensures
        items(a + b) == items(a) + items(b),
    decreases b.len(),
{
    if b.len() == 0 {
        assert(a + b =~= a);
        assert(items(a) + items(b) =~= items(a));
    } else {
        assert((a + b).drop_last() =~= a + b.drop_last());
        lemma_items_concat(a, b.drop_last());
        assert(items(a + b) =~= items(a) + items(b));
    }
}

/// A line of slots holds no more items than it has slots.
pub proof fn lemma_items_len<T>(slots: Seq<Option<T>>)
    ensures
        items(slots).len() <= slots.len(),
    decreases slots.len(),
{
    if slots.len() > 0 {
        lemma_items_len(slots.drop_last());
    }
}

/// A line of free slots holds no item.
pub proof fn lemma_items_free<T>(slots: Seq<Option<T>>)
    requires
        forall|i: int| 0 <= i < slots.len() ==> slots[i] is None,
    ensures
        items(slots) == Seq::<T>::empty(),
    decreases slots.len(),
{
    if slots.len() > 0 {
        lemma_items_free(slots.drop_last());
    }
}

/// A line without a free slot holds one item for each slot.
pub proof fn lemma_items_packed<T>(slots: Seq<Option<T>>)
    requires
        forall|i: int| 0 <= i < slots.len() ==> slots[i] is Some,
    ensures
        items(slots).len() == slots.len(),
    decreases slots.len(),
{
    if slots.len() > 0 {
        lemma_items_packed(slots.drop_last());
    }
}

/// A line with a free slot holds fewer items than it has slots.
pub proof fn lemma_items_short<T>(slots: Seq<Option<T>>, p: int)
    requires
        0 <= p < slots.len(),
        slots[p] is None,
    ensures
        items(slots).len() < slots.len(),
    decreases slots.len(),
{
    if p == slots.len() - 1 {
        lemma_items_len(slots.drop_last());
    } else {
        assert(slots.drop_last()[p] == slots[p]);
        lemma_items_short(slots.drop_last(), p);
    }
}

/// `first_space` is the least index of a free slot.
pub proof fn lemma_first_space<T>(slots: Seq<Option<T>>, p: int)
    requires
        0 <= p <= slots.len(),
        forall|i: int| 0 <= i < p ==> slots[i] is Some,
        p < slots.len() ==> slots[p] is None,
    ensures
        first_space(slots) == p,
    decreases p,
{
    if p > 0 {
        let rest = slots.drop_first();
        assert forall|i: int| 0 <= i < p - 1 implies rest[i] is Some by {
            assert(rest[i] == slots[i + 1]);
        }
        lemma_first_space(rest, p - 1);
    }
}

/// What `first_space` returns: every slot before it is occupied, and the slot
/// at it, if there is one, is free.
pub proof fn lemma_first_space_is_least<T>(slots: Seq<Option<T>>)
    ensures
        0 <= first_space(slots) <= slots.len(),
        forall|i: int| 0 <= i < first_space(slots) ==> slots[i] is Some,
        first_space(slots) < slots.len() ==> slots[first_space(slots)] is None,
    decreases slots.len(),
{
    if !(slots.len() == 0 || slots[0] is None) {
        let rest = slots.drop_first();
        lemma_first_space_is_least(rest);
        assert forall|i: int| 0 <= i < first_space(slots) implies slots[i] is Some by {
            if i > 0 {
                assert(slots[i] == rest[i - 1]);
            }
        }
        if first_space(slots) < slots.len() {
            assert(slots[first_space(slots)] == rest[first_space(rest)]);
        }
    }
}

/// Putting an item into the free back slot appends it to the items on the belt.
pub proof fn lemma_put_appends<T>(slots: Seq<Option<T>>, item: T)
    requires
        slots.len() > 0,
        slots.last() is None,
    ensures
        items(slots_after_put(slots, item)) == items(slots).push(item),
{
    let after = slots_after_put(slots, item);
    assert(after.drop_last() =~= slots.drop_last());
}

/// Taking from an occupied front slot removes the first of the items on the
/// belt, and that first item is the one in the front slot.
pub proof fn lemma_take_removes_first<T>(slots: Seq<Option<T>>)
    requires
        slots.len() > 0,
        slots[0] is Some,
    ensures
        items(slots).len() > 0,
        items(slots).first() == slots[0]->0,
        items(slots_after_take(slots)) == items(slots).drop_first(),
{
    let head = seq![slots[0]];
    let freed = seq![None::<T>];
    let rest = slots.drop_first();
    assert(slots =~= head + rest);
    assert(slots_after_take(slots) =~= freed + rest);
    reveal_with_fuel(items, 2);
    lemma_items_concat(head, rest);
    lemma_items_concat(freed, rest);
    assert(head.drop_last() =~= Seq::<Option<T>>::empty());
    assert(freed.drop_last() =~= Seq::<Option<T>>::empty());
    assert(items(head) =~= seq![slots[0]->0]);
    assert(items(freed) =~= Seq::<T>::empty());
    assert(items(slots) =~= seq![slots[0]->0] + items(rest));
    assert(items(slots_after_take(slots)) =~= items(rest));
    assert(items(slots).drop_first() =~= items(rest));
}

/// An advance keeps the items on the belt and their order.
pub proof fn lemma_advance_keeps_items<T>(slots: Seq<Option<T>>)
    ensures
        items(slots_after_advance(slots)) == items(slots),
        slots_after_advance(slots).len() == slots.len(),
{
    lemma_first_space_is_least(slots);
    let p = first_space(slots);
    if p < slots.len() {
        let a = slots.take(p);
        let gap = seq![None::<T>];
        let b = slots.skip(p + 1);
        assert(slots =~= a + gap + b);
        assert(slots.remove(p).push(None) =~= a + b + gap);
        reveal_with_fuel(items, 2);
        lemma_items_concat(a, gap);
        lemma_items_concat(a + gap, b);
        lemma_items_concat(a, b);
        lemma_items_concat(a + b, gap);
        assert(gap.drop_last() =~= Seq::<Option<T>>::empty());
        assert(items(gap) =~= Seq::<T>::empty());
        assert(items(a + gap + b) =~= items(a) + items(b));
        assert(items(a + b + gap) =~= items(a) + items(b));
    }
}

/// One operation on a belt.
pub enum BeltOp<T> {
    /// Put the item into the back slot.
    Put(T),
    /// Take the item from the front slot.
    Take,
    /// Advance the belt by one slot.
    Advance,
}

/// The slots after `op`. An operation that fails leaves them as they are.
pub open spec fn slots_after<T>(slots: Seq<Option<T>>, op: BeltOp<T>) -> Seq<Option<T>> {
    match op {
        BeltOp::Put(item) => if slots_can_put(slots) {
            slots_after_put(slots, item)
        } else {
            slots
        },
        BeltOp::Take => if slots_can_take(slots) {
            slots_after_take(slots)
        } else {
            slots
        },
        BeltOp::Advance => slots_after_advance(slots),
    }
}

/// The slots after the operations `ops`, carried out in their order.
pub open spec fn slots_after_all<T>(slots: Seq<Option<T>>, ops: Seq<BeltOp<T>>) -> Seq<Option<T>>
    decreases ops.len(),
{
    if ops.len() == 0 {
        slots
    } else {
        slots_after(slots_after_all(slots, ops.drop_last()), ops.last())
    }
}

/// The items that the puts among `ops` placed on the belt, in their order.
pub open spec fn items_put<T>(slots: Seq<Option<T>>, ops: Seq<BeltOp<T>>) -> Seq<T>
    decreases ops.len(),
{
    if ops.len() == 0 {
        Seq::empty()
    } else {
        let earlier = items_put(slots, ops.drop_last());
        match ops.last() {
            BeltOp::Put(item) => if slots_can_put(slots_after_all(slots, ops.drop_last())) {
                earlier.push(item)
            } else {
                earlier
            },
            _ => earlier,
        }
    }
}

/// The items that the takes among `ops` removed from the belt, in their order.
pub open spec fn items_taken<T>(slots: Seq<Option<T>>, ops: Seq<BeltOp<T>>) -> Seq<T>
    decreases ops.len(),
{
    if ops.len() == 0 {
        Seq::empty()
    } else {
        let earlier = items_taken(slots, ops.drop_last());
        let now = slots_after_all(slots, ops.drop_last());
        match ops.last() {
            BeltOp::Take => if slots_can_take(now) {
                earlier.push(now[0]->0)
            } else {
                earlier
            },
            _ => earlier,
        }
    }
}

/// A belt is a queue: whatever operations are carried out, the items taken so
/// far, followed by the items still on the belt, are the items that were on
/// the belt at first, followed by the items put since, each in its order.
pub proof fn lemma_belt_fifo<T>(slots: Seq<Option<T>>, ops: Seq<BeltOp<T>>)
    ensures
        items_taken(slots, ops) + items(slots_after_all(slots, ops)) == items(slots) + items_put(
            slots,
            ops,
        ),
    decreases ops.len(),
{
    if ops.len() == 0 {
        assert(items_taken(slots, ops) + items(slots) =~= items(slots) + items_put(slots, ops));
    } else {
        let earlier = ops.drop_last();
        let now = slots_after_all(slots, earlier);
        lemma_belt_fifo(slots, earlier);
        let taken = items_taken(slots, earlier);
        let put = items_put(slots, earlier);
        assert(taken + items(now) == items(slots) + put);
        match ops.last() {
            BeltOp::Put(item) => {
                if slots_can_put(now) {
                    lemma_put_appends(now, item);
                    assert(taken + items(now).push(item) =~= (taken + items(now)).push(item));
                    assert((items(slots) + put).push(item) =~= items(slots) + put.push(item));
                }
            },
            BeltOp::Take => {
                if slots_can_take(now) {
                    lemma_take_removes_first(now);
                    assert(taken.push(now[0]->0) + items(now).drop_first() =~= taken + items(now));
                }
            },
            BeltOp::Advance => {
                lemma_advance_keeps_items(now);
            },
        }
    }
}

/// Whatever operations are carried out, the belt keeps its number of slots,
/// never holds more items than it has slots, and holds as many items as it
/// held at first, plus those put, minus those taken.
pub proof fn lemma_belt_conservation<T>(slots: Seq<Option<T>>, ops: Seq<BeltOp<T>>)
    ensures
        slots_after_all(slots, ops).len() == slots.len(),
        items(slots_after_all(slots, ops)).len() <= slots.len(),
        items(slots_after_all(slots, ops)).len() == items(slots).len() + items_put(slots, ops).len()
            - items_taken(slots, ops).len(),
    decreases ops.len(),
{
    lemma_belt_fifo(slots, ops);
    assert((items_taken(slots, ops) + items(slots_after_all(slots, ops))).len() == (items(slots)
        + items_put(slots, ops)).len());
    if ops.len() > 0 {
        lemma_belt_conservation(slots, ops.drop_last());
        lemma_advance_keeps_items(slots_after_all(slots, ops.drop_last()));
    }
    lemma_items_len(slots_after_all(slots, ops));
}

/// A conveyor belt with a fixed number of slots. Items enter at the back slot
/// and leave at the front slot; `advance` moves them one slot towards the front.
#[derive(Debug)]
pub struct Belt<T> {
    /// Runs of equal slots, front first. Runs of length zero may occur.
    chunks: VecDeque<Chunk<T>>,
    /// Number of slots on the belt.
    capacity: usize,
    /// Number of occupied slots.
    item_count: usize,
}

impl<T> View for Belt<T> {
    type V = Seq<Option<T>>;

    /// The slots of the belt, front first.
    closed spec fn view(&self) -> Seq<Option<T>> {
        expand(self.chunks@)
    }
}

impl<T> Belt<T> {
    /// The runs add up to the capacity, and the count is that of the occupied slots.
    pub closed spec fn wf(&self) -> bool {
        &&& self@.len() == self.capacity
        &&& self.item_count == items(self@).len()
    }

    /// The front slot holds an item.
    pub open spec fn spec_can_take(&self) -> bool {
        slots_can_take(self@)
    }

    /// There is a back slot and it is free.
    pub open spec fn spec_can_put(&self) -> bool {
        slots_can_put(self@)
    }
}

impl<T> Belt<T> where T: Clone + Eq {
    /// Creates a belt with the specified capacity, all slots free.
    pub fn new(capacity: usize) -> (belt: Belt<T>)
        ensures
            belt.wf(),
            belt@ == free_slots::<T>(capacity as nat),
            items(belt@) == Seq::<T>::empty(),
    {
        let mut belt = Belt { chunks: VecDeque::new(), capacity, item_count: 0 };
        belt.init();
        belt
    }

    fn init(&mut self)
        requires
            old(self).chunks@.len() == 0,
        ensures
            final(self).wf(),
            final(self).capacity == old(self).capacity,
            final(self)@ == free_slots::<T>(old(self).capacity as nat),
            items(final(self)@) == Seq::<T>::empty(),
    {
        let run = Chunk::spaces(self.capacity);
        self.chunks.push_back(run);
        self.item_count = 0;
        proof {
            assert(self.chunks@ =~= seq![run]);
            lemma_expand_one(run);
            assert(self@ =~= free_slots::<T>(self.capacity as nat));
            lemma_items_free(self@);
        }
    }

    /// Returns the number of slots on the belt.
    pub fn capacity(&self) -> (n: usize)
        requires
            self.wf(),
        ensures
            n == self@.len(),
    {
        self.capacity
    }

    /// Returns the number of items the belt holds currently.
    pub fn count(&self) -> (n: usize)
        requires
            self.wf(),
        ensures
            n == items(self@).len(),
            n <= self@.len(),
    {
        proof {
            lemma_items_len(self@);
        }
        self.item_count
    }

    /// Returns the item in the front slot.
    pub fn peek_front(&self) -> (r: Option<&T>)
        requires
            self.wf(),
        ensures
            match r {
                Some(item) => self@.len() > 0 && self@[0] == Some(*item),
                None => !self.spec_can_take(),
            },
    {
        let n = self.chunks.len();
        let mut i: usize = 0;
        while i < n
            invariant
                n == self.chunks@.len(),
                0 <= i <= n,
                expand(self.chunks@.take(i as int)).len() == 0,
            decreases n - i,
        {
            proof {
                lemma_expand_at(self.chunks@, i as int);
            }
            if self.chunks[i].repeat > 0 {
                assert(self@[0] == self.chunks@[i as int].slots()[0]);
                return self.chunks[i].item.as_ref();
            }
            i += 1;
        }
        assert(self.chunks@.take(n as int) =~= self.chunks@);
        None
    }

    /// Returns the item in the back slot.
    pub fn peek_back(&self) -> (r: Option<&T>)
        requires
            self.wf(),
        ensures
            match r {
                Some(item) => self@.len() > 0 && self@.last() == Some(*item),
                None => self@.len() == 0 || self@.last() is None,
            },
    {
        let n = self.chunks.len();
        let mut i: usize = n;
        while i > 0
            invariant
                n == self.chunks@.len(),
                0 <= i <= n,
                expand(self.chunks@.skip(i as int)).len() == 0,
            decreases i,
        {
            i -= 1;
            proof {
                lemma_expand_at(self.chunks@, i as int);
                lemma_expand_at(self.chunks@.skip(i as int), 0);
                assert(self.chunks@.skip(i as int).skip(1) =~= self.chunks@.skip(i + 1));
                assert(self.chunks@.skip(i as int).take(0) =~= Seq::<Chunk<T>>::empty());
            }
            if self.chunks[i].repeat > 0 {
                assert(self@.last() == self.chunks@[i as int].slots().last());
                return self.chunks[i].item.as_ref();
            }
        }
        assert(self.chunks@.skip(0) =~= self.chunks@);
        None
    }

    /// Indicates if `take()` can be successfully called.
    pub fn can_take(&self) -> (b: bool)
        requires
            self.wf(),
        ensures
            b == self.spec_can_take(),
    {
        self.peek_front().is_some()
    }

    /// Indicates if `put()` can be successfully called.
    pub fn can_put(&self) -> (b: bool)
        requires
            self.wf(),
        ensures
            b == self.spec_can_put(),
    {
        self.capacity > 0 && self.peek_back().is_none()
    }

    /// Removes zero-length runs from the front of the belt.
    fn strip_front(&mut self)
        ensures
            final(self).capacity == old(self).capacity,
            final(self).item_count == old(self).item_count,
            final(self)@ == old(self)@,
            final(self).chunks@.len() == 0 || final(self).chunks@[0].repeat > 0,
    {
        while self.chunks.len() > 0 && self.chunks[0].repeat == 0
            invariant
                self.capacity == old(self).capacity,
                self.item_count == old(self).item_count,
                self@ == old(self)@,
            decreases self.chunks@.len(),
        {
            proof {
                lemma_expand_at(self.chunks@, 0);
                assert(self.chunks@.take(0) =~= Seq::<Chunk<T>>::empty());
                assert(self@ =~= expand(self.chunks@.skip(1)));
            }
            let ghost rest = self.chunks@.skip(1);
            self.chunks.pop_front();
            assert(self.chunks@ =~= rest);
        }
    }

    /// Removes zero-length runs from the back of the belt.
    fn strip_back(&mut self)
        ensures
            final(self).capacity == old(self).capacity,
            final(self).item_count == old(self).item_count,
            final(self)@ == old(self)@,
            final(self).chunks@.len() == 0 || final(self).chunks@.last().repeat > 0,
    {
        while self.chunks.len() > 0 && self.chunks[self.chunks.len() - 1].repeat == 0
            invariant
                self.capacity == old(self).capacity,
                self.item_count == old(self).item_count,
                self@ == old(self)@,
            decreases self.chunks@.len(),
        {
            let ghost rest = self.chunks@.drop_last();
            assert(self@ =~= expand(rest));
            self.chunks.pop_back();
            assert(self.chunks@ =~= rest);
        }
    }

    /// Takes the item from the front slot of the belt, which becomes free.
    pub fn take(&mut self) -> (r: Result<T, Error>)
        requires
            old(self).wf(),
        ensures
            final(self).wf(),
            match r {
                Ok(item) => {
                    &&& old(self).spec_can_take()
                    &&& cloned(old(self)@[0]->0, item)
                    &&& final(self)@ == slots_after_take(old(self)@)
                    &&& items(final(self)@) == items(old(self)@).drop_first()
                },
                Err(e) => {
                    &&& e == Error::Empty
                    &&& !old(self).spec_can_take()
                    &&& final(self)@ == old(self)@
                },
            },
    {
        self.strip_front();
        if self.chunks.len() == 0 || self.chunks[0].is_space() {
            proof {
                if self.chunks@.len() > 0 {
                    lemma_expand_front(self.chunks@);
                    assert(self@[0] == self.chunks@[0].slots()[0]);
                }
            }
            return Err(Error::Empty);
        }
        let ghost before = self@;
        proof {
            lemma_expand_front(self.chunks@);
            assert(before[0] == self.chunks@[0].slots()[0]);
            lemma_take_removes_first(before);
        }
        let ghost rest = self.chunks@.drop_first();
        let front = self.chunks.pop_front().unwrap();
        assert(self.chunks@ =~= rest);
        let Chunk { item, repeat } = front;
        let held = item.unwrap();
        let taken = if repeat > 1 {
            let copy = held.clone();
            let shorter = Chunk::items(held, repeat - 1);
            self.chunks.push_front(shorter);
            let free = Chunk::space();
            self.chunks.push_front(free);
            proof {
                lemma_expand_front(seq![shorter] + rest);
                assert((seq![shorter] + rest).drop_first() =~= rest);
                lemma_expand_front(self.chunks@);
                assert(self.chunks@.drop_first() =~= seq![shorter] + rest);
                assert(self@ =~= slots_after_take(before));
            }
            copy
        } else {
            self.strip_front();
            if self.chunks.len() > 0 && self.chunks[0].is_space() {
                let ghost tail = self.chunks@.drop_first();
                proof {
                    lemma_expand_front(self.chunks@);
                }
                let next = self.chunks.pop_front().unwrap();
                assert(self.chunks@ =~= tail);
                let longer = Chunk::spaces(next.repeat + 1);
                self.chunks.push_front(longer);
                proof {
                    lemma_expand_front(self.chunks@);
                    assert(self.chunks@.drop_first() =~= tail);
                    assert(self@ =~= slots_after_take(before));
                }
            } else {
                let ghost tail = self.chunks@;
                let free = Chunk::space();
                self.chunks.push_front(free);
                proof {
                    lemma_expand_front(self.chunks@);
                    assert(self.chunks@.drop_first() =~= tail);
                    assert(self@ =~= slots_after_take(before));
                }
            }
            held
        };
        self.item_count -= 1;
        Ok(taken)
    }

    /// Puts `item` into the back slot of the belt.
    pub fn put(&mut self, item: T) -> (r: Result<(), Error>)
        requires
            old(self).wf(),
        ensures
            final(self).wf(),
            match r {
                Ok(()) => {
                    &&& old(self).spec_can_put()
                    &&& final(self)@.len() == old(self)@.len()
                    &&& final(self)@.drop_last() == old(self)@.drop_last()
                    &&& final(self)@.last() matches Some(stored) && stands_for(stored, item)
                    &&& final(self)@.last() == Some(item) || (old(self)@.len() >= 2 && final(self)@.last() == old(self)@[old(self)@.len() - 2])
                    &&& items(final(self)@) == items(old(self)@).push(final(self)@.last()->0)
                },
                Err(e) => {
                    &&& e == Error::Full
                    &&& !old(self).spec_can_put()
                    &&& final(self)@ == old(self)@
                },
            },
            r is Ok && vstd::laws_eq::obeys_concrete_eq::<T>() ==> final(self)@ == slots_after_put(
                old(self)@,
                item,
            ),
    {
        self.strip_back();
        let n = self.chunks.len();
        if n == 0 || self.chunks[n - 1].is_item() {
            proof {
                if n > 0 {
                    assert(self@.last() == self.chunks@.last().slots().last());
                }
            }
            return Err(Error::Full);
        }
        let ghost before = self@;
        assert(before.last() == self.chunks@.last().slots().last());
        let ghost rest = self.chunks@.drop_last();
        let back = self.chunks.pop_back().unwrap();
        assert(self.chunks@ =~= rest);
        if back.repeat > 1 {
            let shorter = Chunk::spaces(back.repeat - 1);
            self.chunks.push_back(shorter);
            let entry = Chunk::item(item);
            self.chunks.push_back(entry);
            proof {
                assert(self.chunks@.drop_last() =~= rest.push(shorter));
                assert(rest.push(shorter).drop_last() =~= rest);
                assert(expand(rest.push(shorter)) =~= expand(rest) + shorter.slots());
                assert(self@ =~= slots_after_put(before, item));
            }
        } else {
            self.strip_back();
            let m = self.chunks.len();
            let merge = m > 0 && match &self.chunks[m - 1].item {
                Some(held) => *held == item,
                None => false,
            };
            if merge {
                let ghost head = self.chunks@.drop_last();
                let last = self.chunks.pop_back().unwrap();
                assert(self.chunks@ =~= head);
                proof {
                    assert(expand(rest) == expand(head) + last.slots());
                    lemma_items_len(before);
                }
                let longer = Chunk { item: last.item, repeat: last.repeat + 1 };
                self.chunks.push_back(longer);
                proof {
                    assert(self.chunks@.drop_last() =~= head);
                    assert(self@ =~= slots_after_put(before, last.item->0));
                    if vstd::laws_eq::obeys_concrete_eq::<T>() {
                        reveal(vstd::laws_eq::obeys_concrete_eq);
                    }
                }
            } else {
                let ghost head = self.chunks@;
                let entry = Chunk::item(item);
                self.chunks.push_back(entry);
                proof {
                    assert(self.chunks@.drop_last() =~= head);
                    assert(self@ =~= slots_after_put(before, item));
                }
            }
        }
        proof {
            lemma_put_appends(before, self@.last()->0);
            assert(self@ =~= slots_after_put(before, self@.last()->0));
            lemma_items_len(self@);
        }
        self.item_count += 1;
        Ok(())
    }

    /// Appends one free slot at the back.
    fn push_back_space(&mut self)
        requires
            old(self)@.len() < usize::MAX,
        ensures
            final(self).capacity == old(self).capacity,
            final(self).item_count == old(self).item_count,
            final(self)@ == old(self)@.push(None),
    {
        let n = self.chunks.len();
        if n > 0 && self.chunks[n - 1].is_space() {
            let ghost head = self.chunks@.drop_last();
            let back = self.chunks.pop_back().unwrap();
            assert(self.chunks@ =~= head);
            let longer = Chunk::spaces(back.repeat + 1);
            self.chunks.push_back(longer);
            proof {
                assert(self.chunks@.drop_last() =~= head);
                assert(self@ =~= old(self)@.push(None));
            }
        } else {
            let ghost head = self.chunks@;
            let free = Chunk::space();
            self.chunks.push_back(free);
            proof {
                assert(self.chunks@.drop_last() =~= head);
                assert(self@ =~= old(self)@.push(None));
            }
        }
    }

    /// Advances the belt one slot: the first free slot is closed up by the
    /// items behind it, and a free slot opens at the back. Returns the number
    /// of slots from that first free slot to the back, itself included, or
    /// `None` if the belt has no free slot.
    pub fn advance(&mut self) -> (r: Option<usize>)
        requires
            old(self).wf(),
        ensures
            final(self).wf(),
            final(self)@ == slots_after_advance(old(self)@),
            items(final(self)@) == items(old(self)@),
            r is None <==> items(old(self)@).len() == old(self)@.len(),
            match r {
                Some(pos) => first_space(old(self)@) < old(self)@.len() && pos == old(self)@.len()
                    - first_space(old(self)@),
                None => first_space(old(self)@) == old(self)@.len(),
            },
    {
        let ghost before = self@;
        let mut pos = self.capacity;
        let n = self.chunks.len();
        let mut i: usize = 0;
        while i < n
            invariant
                self == old(self),
                self.wf(),
                before == self@,
                n == self.chunks@.len(),
                0 <= i <= n,
                expand(self.chunks@.take(i as int)).len() == self.capacity - pos,
                0 <= pos <= self.capacity,
                forall|j: int| 0 <= j < self.capacity - pos ==> before[j] is Some,
            decreases n - i,
        {
            proof {
                lemma_expand_at(self.chunks@, i as int);
            }
            if self.chunks[i].is_space() && self.chunks[i].repeat > 0 {
                let ghost p = self.capacity - pos;
                let ghost head = self.chunks@.take(i as int);
                let ghost tail = self.chunks@.skip(i + 1);
                proof {
                    assert(before[p] == self.chunks@[i as int].slots()[0]);
                    lemma_first_space(before, p);
                    lemma_advance_keeps_items(before);
                    lemma_items_short(before, p);
                }
                let run = self.chunks.remove(i).unwrap();
                let shorter = Chunk::spaces(run.repeat - 1);
                self.chunks.insert(i, shorter);
                proof {
                    assert(self.chunks@ =~= head + seq![shorter] + tail);
                    lemma_expand_at(self.chunks@, i as int);
                    assert(self.chunks@.take(i as int) =~= head);
                    assert(self.chunks@.skip(i + 1) =~= tail);
                    assert(self@ =~= before.remove(p));
                }
                self.push_back_space();
                return Some(pos);
            }
            proof {
                let run = self.chunks@[i as int];
                assert forall|j: int| 0 <= j < self.capacity - pos + run.repeat implies before[j] is Some by {
                    if j >= self.capacity - pos {
                        assert(before[j] == run.slots()[j - (self.capacity - pos)]);
                    }
                }
            }
            pos -= self.chunks[i].repeat;
            i += 1;
        }
        proof {
            assert(self.chunks@.take(n as int) =~= self.chunks@);
            lemma_first_space(before, before.len() as int);
            lemma_items_packed(before);
        }
        None
    }

    /// Clears the belt: every slot becomes free.
    pub fn clear(&mut self)
        requires
            old(self).wf(),
        ensures
            final(self).wf(),
            final(self)@ == free_slots::<T>(old(self)@.len()),
            items(final(self)@) == Seq::<T>::empty(),
    {
        self.chunks.clear();
        self.init();
    }
}

} // verus!
