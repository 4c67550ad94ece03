use vstd::prelude::*;

verus! {

/// Whether a queue that holds `resident` on a ring of `capacity` slots takes
/// one more element. One slot of the ring always stays free.
pub open spec fn accepts<T>(resident: Seq<T>, capacity: int) -> bool {
    resident.len() + 1 < capacity
}

/// The queue after an attempt to append `item`: refused, the queue stays as
/// it was.
pub open spec fn enqueue<T>(resident: Seq<T>, item: T, capacity: int) -> Seq<T> {
    if accepts(resident, capacity) {
        resident.push(item)
    } else {
        resident
    }
}

/// The element that the next read hands out, if there is one.
pub open spec fn front<T>(resident: Seq<T>) -> Option<T> {
    if resident.len() > 0 {
        Some(resident[0])
    } else {
        None
    }
}

/// The queue after an attempt to read: the oldest element is gone, and an
/// empty queue stays empty.
pub open spec fn dequeue<T>(resident: Seq<T>) -> Seq<T> {
    if resident.len() > 0 {
        resident.drop_first()
    } else {
        resident
    }
}

/// The queue after one write attempt for each of `items`, in order.
pub open spec fn enqueue_all<T>(resident: Seq<T>, items: Seq<T>, capacity: int) -> Seq<T>
    decreases items.len(),
{
    if items.len() == 0 {
        resident
    } else {
        enqueue(enqueue_all(resident, items.drop_last(), capacity), items.last(), capacity)
    }
}

/// The queue after `reads` read attempts.
pub open spec fn dequeue_many<T>(resident: Seq<T>, reads: nat) -> Seq<T>
    decreases reads,
{
    if reads == 0 {
        resident
    } else {
        dequeue(dequeue_many(resident, (reads - 1) as nat))
    }
}

/// How many of `offered` elements a queue that holds `held` still takes.
pub open spec fn room(held: nat, offered: nat, capacity: int) -> nat {
    let free = capacity - 1 - held;
    if free <= 0 {
        0
    } else if offered <= free {
        offered
    } else {
        free as nat
    }
}

/// Writes made one after another are taken in order until the queue is full;
/// from then on all are refused.
pub proof fn lemma_enqueue_all<T>(resident: Seq<T>, items: Seq<T>, capacity: int)
    ensures
        enqueue_all(resident, items, capacity) == resident + items.take(
            room(resident.len(), items.len(), capacity) as int,
        ),
    decreases items.len(),
{
    let taken = room(resident.len(), items.len(), capacity) as int;
    if items.len() == 0 {
        assert(resident + items.take(taken) =~= resident);
    } else {
        let before = items.drop_last();
        lemma_enqueue_all(resident, before, capacity);
        let taken_before = room(resident.len(), before.len(), capacity) as int;
        let queue = resident + before.take(taken_before);
        if accepts(queue, capacity) {
            assert(queue.push(items.last()) =~= resident + items.take(taken));
        } else {
            assert(queue =~= resident + items.take(taken));
        }
    }
}

/// Reads made one after another hand out the elements from the front, and
/// leave the rest in place.
pub proof fn lemma_dequeue_many<T>(resident: Seq<T>, reads: nat)
    ensures
        dequeue_many(resident, reads) == if reads <= resident.len() {
            resident.skip(reads as int)
        } else {
            Seq::<T>::empty()
        },
        front(dequeue_many(resident, reads)) == if reads < resident.len() {
            Some(resident[reads as int])
        } else {
            None::<T>
        },
    decreases reads,
{
    if reads == 0 {
        assert(resident.skip(0) =~= resident);
    } else {
        let before = (reads - 1) as nat;
        lemma_dequeue_many(resident, before);
        if reads <= resident.len() {
            assert(resident.skip(before as int).drop_first() =~= resident.skip(reads as int));
        }
    }
}

/// First in, first out: after any run of writes into an empty queue, reads
/// hand out the elements that were taken, in the order in which they were
/// written, and then nothing.
pub proof fn lemma_reads_follow_write_order<T>(items: Seq<T>, capacity: int, reads: nat)
    ensures
        ({
            let taken = items.take(room(0, items.len(), capacity) as int);
            let queue = enqueue_all(Seq::<T>::empty(), items, capacity);
            &&& queue == taken
            &&& front(dequeue_many(queue, reads)) == if reads < taken.len() {
                Some(items[reads as int])
            } else {
                None::<T>
            }
        }),
{
    let taken = items.take(room(0, items.len(), capacity) as int);
    let queue = enqueue_all(Seq::<T>::empty(), items, capacity);
    lemma_enqueue_all(Seq::<T>::empty(), items, capacity);
    assert(Seq::<T>::empty() + taken =~= taken);
    lemma_dequeue_many(queue, reads);
}

/// A ring of `capacity` slots takes `capacity - 1` elements and refuses the
/// next; one read then makes room for exactly one more.
pub proof fn lemma_capacity_bound<T>(items: Seq<T>, capacity: int, one_more: T, another: T)
    requires
        capacity >= 1,
        items.len() == capacity - 1,
    ensures
        forall|n: int|
            0 <= n < items.len() ==> accepts(
                #[trigger] enqueue_all(Seq::<T>::empty(), items.take(n), capacity),
                capacity,
            ),
        ({
            let full = enqueue_all(Seq::<T>::empty(), items, capacity);
            &&& full == items
            &&& !accepts(full, capacity)
            &&& enqueue(full, one_more, capacity) == full
            &&& capacity >= 2 ==> {
                &&& accepts(dequeue(full), capacity)
                &&& !accepts(enqueue(dequeue(full), one_more, capacity), capacity)
                &&& enqueue(enqueue(dequeue(full), one_more, capacity), another, capacity)
                    == items.drop_first().push(one_more)
            }
        }),
{
    assert forall|n: int| 0 <= n < items.len() implies accepts(
        #[trigger] enqueue_all(Seq::<T>::empty(), items.take(n), capacity),
        capacity,
    ) by {
        lemma_enqueue_all(Seq::<T>::empty(), items.take(n), capacity);
    }
    lemma_enqueue_all(Seq::<T>::empty(), items, capacity);
    assert(Seq::<T>::empty() + items.take(items.len() as int) =~= items);
}

/// Once every element has been read, further reads hand out nothing and leave
/// the queue empty, until a write is taken: its element is then the next to
/// be handed out.
pub proof fn lemma_empty_after_drain<T>(resident: Seq<T>, reads: nat, item: T, capacity: int)
    requires
        reads >= resident.len(),
    ensures
        dequeue_many(resident, reads) == Seq::<T>::empty(),
        front(dequeue_many(resident, reads)) == None::<T>,
        front(enqueue(dequeue_many(resident, reads), item, capacity)) == if capacity >= 2 {
            Some(item)
        } else {
            None::<T>
        },
{
    lemma_dequeue_many(resident, reads);
    if reads == resident.len() {
        assert(resident.skip(reads as int) =~= Seq::<T>::empty());
    }
}

/// One attempt on the queue.
pub enum Attempt<T> {
    /// An attempt to append the element.
    Write(T),
    /// An attempt to take the oldest element out.
    Read,
}

/// What a run of attempts has done.
pub struct Outcome<T> {
    /// The elements left in the queue, oldest first.
    pub resident: Seq<T>,
    /// The elements whose writes were taken, in the order of the writes.
    pub taken: Seq<T>,
    /// The elements that reads handed out, in the order of the reads.
    pub handed_out: Seq<T>,
}

/// Makes `attempts` one after another on a queue that holds `resident`.
pub open spec fn replay<T>(resident: Seq<T>, attempts: Seq<Attempt<T>>, capacity: int) -> Outcome<T>
    decreases attempts.len(),
{
    if attempts.len() == 0 {
        Outcome { resident, taken: Seq::empty(), handed_out: Seq::empty() }
    } else {
        let before = replay(resident, attempts.drop_last(), capacity);
        match attempts.last() {
            Attempt::Write(item) => Outcome {
                resident: enqueue(before.resident, item, capacity),
                taken: if accepts(before.resident, capacity) {
                    before.taken.push(item)
                } else {
                    before.taken
                },
                handed_out: before.handed_out,
            },
            Attempt::Read => Outcome {
                resident: dequeue(before.resident),
                taken: before.taken,
                handed_out: match front(before.resident) {
                    Some(item) => before.handed_out.push(item),
                    None => before.handed_out,
                },
            },
        }
    }
}

/// Nothing is lost and nothing comes twice: whatever the order of writes and
/// reads, the elements handed out, followed by those still in the queue, are
/// the elements that were there at the start, followed by those taken since.
/// The queue never holds more than `capacity - 1` elements.
pub proof fn lemma_replay_keeps_elements<T>(
    resident: Seq<T>,
    attempts: Seq<Attempt<T>>,
    capacity: int,
)
    requires
        resident.len() <= capacity - 1,
    ensures
        ({
            let outcome = replay(resident, attempts, capacity);
            &&& outcome.handed_out + outcome.resident == resident + outcome.taken
            &&& outcome.resident.len() <= capacity - 1
        }),
    decreases attempts.len(),
{
    let outcome = replay(resident, attempts, capacity);
    if attempts.len() == 0 {
        assert(outcome.handed_out + outcome.resident =~= resident + outcome.taken);
    } else {
        lemma_replay_keeps_elements(resident, attempts.drop_last(), capacity);
        let before = replay(resident, attempts.drop_last(), capacity);
        assert(before.handed_out + before.resident == resident + before.taken);
        match attempts.last() {
            Attempt::Write(item) => {
                if accepts(before.resident, capacity) {
                    assert(outcome.handed_out + outcome.resident =~= (before.handed_out
                        + before.resident).push(item));
                    assert(resident + outcome.taken =~= (resident + before.taken).push(item));
                }
            },
            Attempt::Read => {
                if before.resident.len() > 0 {
                    assert(outcome.handed_out + outcome.resident =~= before.handed_out
                        + before.resident);
                }
            },
        }
    }
}

} // verus!
