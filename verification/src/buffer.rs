use vstd::prelude::*;
use crate::capacity::{is_valid_capacity, valid_capacity};
use crate::cursor::{
    is_empty, is_full, lemma_occupancy, lemma_producer_snapshot_holds, lemma_read_advance,
    lemma_slots_distinct, lemma_wrap_once, lemma_write_advance, occupied, plan_read, plan_write,
    slot_of, successor,
};
use crate::fifo::{accepts, dequeue, enqueue, front};

verus! {

/// A fixed-capacity first-in, first-out queue laid out on a ring of `SIZE`
/// slots, of which `SIZE - 1` can be occupied at a time.
///
/// The slots are allocated once, when the buffer is built. Two cursors walk
/// the ring: an element goes in at the write cursor and comes out at the read
/// cursor, and the elements in between are the queue.
pub struct RingBuffer<T, const SIZE: usize> {
    slots: Vec<T>,
    write_cursor: u32,
    read_cursor: u32,
}

impl<T, const SIZE: usize> View for RingBuffer<T, SIZE> {
    type V = Seq<T>;

    /// The elements in the queue, oldest first: what lies in the slots from
    /// the read cursor up to the write cursor.
    open spec fn view(&self) -> Seq<T> {
        Seq::new(
            occupied(self.write_position(), self.read_position(), SIZE as int) as nat,
            |i: int| self.slots()[slot_of(self.read_position(), i, SIZE as int)],
        )
    }
}

impl<T, const SIZE: usize> RingBuffer<T, SIZE> {
    /// What each slot of the ring holds, live or not.
    pub closed spec fn slots(&self) -> Seq<T> {
        self.slots@
    }

    /// The slot that the next element taken goes to.
    pub closed spec fn write_position(&self) -> int {
        self.write_cursor as int
    }

    /// The slot that the next element handed out comes from.
    pub closed spec fn read_position(&self) -> int {
        self.read_cursor as int
    }

    /// The slot count is one a buffer can be built with, every slot exists,
    /// and both cursors point at a slot.
    pub open spec fn wf(&self) -> bool {
        &&& valid_capacity(SIZE)
        &&& self.slots().len() == SIZE
        &&& 0 <= self.write_position() < SIZE
        &&& 0 <= self.read_position() < SIZE
    }

    /// The number of elements in a well-formed buffer is the distance from
    /// the read cursor to the write cursor around the ring. It is zero when
    /// the cursors meet, and it stops one short of the slot count, when the
    /// write cursor stands right behind the read cursor.
    pub proof fn lemma_cursors_count_elements(&self)
        requires
            self.wf(),
        ensures
            self@.len() == occupied(self.write_position(), self.read_position(), SIZE as int),
            self@.len() <= SIZE - 1,
            self@.len() == 0 <==> is_empty(self.write_position(), self.read_position()),
            self@.len() == SIZE - 1 <==> is_full(
                self.write_position(),
                self.read_position(),
                SIZE as int,
            ),
    {
        lemma_occupancy(self.write_position(), self.read_position(), SIZE as int);
    }

    /// Appends `item` unless the buffer is full, and says whether it was
    /// taken. An element that is taken is stored in the slot at the write
    /// cursor, which then moves on. A refused element is dropped and the
    /// buffer is left as it was.
    pub fn try_write(&mut self, item: T) -> (accepted: bool)
        requires
            old(self).wf(),
        ensures
            final(self).wf(),
            accepted == accepts(old(self)@, SIZE as int),
            final(self)@ == enqueue(old(self)@, item, SIZE as int),
            accepted ==> {
                &&& final(self).slots() == old(self).slots().update(
                    old(self).write_position(),
                    item,
                )
                &&& final(self).write_position() == successor(
                    old(self).write_position(),
                    SIZE as int,
                )
                &&& final(self).read_position() == old(self).read_position()
            },
            !accepted ==> *final(self) == *old(self),
    {
        let curr_write: u32 = self.write_cursor;
        let curr_read: u32 = self.read_cursor;
        proof {
            lemma_occupancy(curr_write as int, curr_read as int, SIZE as int);
        }
        match plan_write(curr_write, curr_read, SIZE) {
            None => false,
            Some(next_write) => {
                self.slots.set(curr_write as usize, item);
                self.write_cursor = next_write;
                proof {
                    lemma_write_advance(curr_write as int, curr_read as int, SIZE as int);
                    lemma_producer_snapshot_holds(
                        curr_write as int,
                        curr_read as int,
                        curr_read as int,
                        SIZE as int,
                    );
                    assert(self@ =~= old(self)@.push(item));
                }
                true
            },
        }
    }
}

impl<T: Default, const SIZE: usize> RingBuffer<T, SIZE> {
    /// Builds an empty buffer of `SIZE` slots, each holding a default value,
    /// with both cursors at the first slot. The slots are allocated here,
    /// once; nothing is allocated afterwards.
    pub fn new() -> (buffer: Self)
        requires
            valid_capacity(SIZE),
        ensures
            buffer.wf(),
            buffer@ == Seq::<T>::empty(),
            buffer.write_position() == 0,
            buffer.read_position() == 0,
            forall|i: int|
                0 <= i < SIZE ==> call_ensures(T::default, (), #[trigger] buffer.slots()[i]),
    {
        let mut slots: Vec<T> = Vec::with_capacity(SIZE);
        let mut filled: usize = 0;
        while filled < SIZE
            invariant
                filled <= SIZE,
                slots@.len() == filled,
                forall|i: int| 0 <= i < filled ==> call_ensures(T::default, (), #[trigger] slots@[i]),
            decreases SIZE - filled,
        {
            slots.push(T::default());
            filled = filled + 1;
        }
        let buffer = RingBuffer { slots, write_cursor: 0, read_cursor: 0 };
        proof {
            lemma_wrap_once(0, SIZE as int);
            assert(buffer@ =~= Seq::<T>::empty());
        }
        buffer
    }

    /// Builds an empty buffer if `SIZE` is a slot count that a buffer can
    /// have, and nothing otherwise.
    pub fn try_new() -> (built: Option<Self>)
        ensures
            built.is_some() == valid_capacity(SIZE),
            built matches Some(buffer) ==> {
                &&& buffer.wf()
                &&& buffer@ == Seq::<T>::empty()
                &&& buffer.write_position() == 0
                &&& buffer.read_position() == 0
                &&& forall|i: int|
                    0 <= i < SIZE ==> call_ensures(T::default, (), #[trigger] buffer.slots()[i])
            },
    {
        if is_valid_capacity(SIZE) {
            Some(Self::new())
        } else {
            None
        }
    }

    /// Takes the oldest element out of the buffer, if there is one. The
    /// element comes from the slot at the read cursor, which then moves on;
    /// the slot is left holding a default value. An empty buffer is left as
    /// it was.
    pub fn try_read(&mut self) -> (item: Option<T>)
        requires
            old(self).wf(),
        ensures
            final(self).wf(),
            item == front(old(self)@),
            final(self)@ == dequeue(old(self)@),
            item matches Some(element) ==> {
                &&& element == old(self).slots()[old(self).read_position()]
                &&& final(self).slots() == old(self).slots().update(
                    old(self).read_position(),
                    final(self).slots()[old(self).read_position()],
                )
                &&& call_ensures(T::default, (), final(self).slots()[old(self).read_position()])
                &&& final(self).read_position() == successor(
                    old(self).read_position(),
                    SIZE as int,
                )
                &&& final(self).write_position() == old(self).write_position()
            },
            item.is_none() ==> *final(self) == *old(self),
    {
        let curr_read: u32 = self.read_cursor;
        let curr_write: u32 = self.write_cursor;
        proof {
            lemma_occupancy(curr_write as int, curr_read as int, SIZE as int);
            lemma_wrap_once(curr_read as int, SIZE as int);
        }
        match plan_read(curr_read, curr_write, SIZE) {
            None => None,
            Some(next_read) => {
                let mut item: T = T::default();
                self.slots.set_and_swap(curr_read as usize, &mut item);
                self.read_cursor = next_read;
                proof {
                    lemma_read_advance(curr_write as int, curr_read as int, SIZE as int);
                    let count = old(self)@.len() as int;
                    assert forall|i: int| 0 <= i < count - 1 implies #[trigger] slot_of(
                        curr_read as int,
                        i + 1,
                        SIZE as int,
                    ) != curr_read by {
                        lemma_slots_distinct(curr_read as int, i + 1, 0, SIZE as int);
                    }
                    assert(self@ =~= old(self)@.drop_first());
                    assert(self.slots() =~= old(self).slots().update(
                        curr_read as int,
                        self.slots()[curr_read as int],
                    ));
                }
                Some(item)
            },
        }
    }
}

} // verus!
