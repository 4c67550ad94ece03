use vstd::prelude::*;
use vstd::arithmetic::power2::{lemma2_to64, pow2};
use vstd::bits::lemma_u32_low_bits_mask_is_mod;
use crate::capacity::{lemma_valid_capacities, valid_capacity};

verus! {

/// The cursor that comes after `cursor` on a ring of `capacity` slots.
pub open spec fn successor(cursor: int, capacity: int) -> int {
    (cursor + 1) % capacity
}

/// How many slots are occupied when the cursors stand at `write` and `read`.
pub open spec fn occupied(write: int, read: int, capacity: int) -> int {
    (write - read) % capacity
}

/// The ring is full when advancing the write cursor would run into the read
/// cursor: one slot always stays free, so that full and empty differ.
pub open spec fn is_full(write: int, read: int, capacity: int) -> bool {
    successor(write, capacity) == read
}

/// The ring is empty when the two cursors meet.
pub open spec fn is_empty(write: int, read: int) -> bool {
    write == read
}

/// The slot that holds the `i`-th oldest element when the read cursor stands
/// at `read`.
pub open spec fn slot_of(read: int, i: int, capacity: int) -> int {
    (read + i) % capacity
}

/// A value less than twice the capacity above zero, or at most the capacity
/// below it, wraps around the ring at most once.
pub proof fn lemma_wrap_once(x: int, capacity: int)
    requires
        capacity > 0,
        -capacity <= x < 2 * capacity,
    ensures
        x % capacity == if x < 0 {
            x + capacity
        } else if x < capacity {
            x
        } else {
            x - capacity
        },
{
    if x < 0 {
        assert(x % capacity == x + capacity) by (nonlinear_arith)
            requires
                capacity > 0,
                -capacity <= x < 0,
        ;
    } else if x < capacity {
        assert(x % capacity == x) by (nonlinear_arith)
            requires
                0 <= x < capacity,
        ;
    } else {
        assert(x % capacity == x - capacity) by (nonlinear_arith)
            requires
                capacity <= x < 2 * capacity,
        ;
    }
}

/// Masking with `capacity - 1` gives the remainder by `capacity`.
pub proof fn lemma_mask_is_remainder(x: u32, capacity: usize)
    requires
        valid_capacity(capacity),
    ensures
        x & ((capacity - 1) as u32) == x as int % capacity as int,
{
    lemma_valid_capacities(capacity);
    let k = choose|k: nat| k <= 32 && capacity == pow2(k);
    lemma2_to64();
    if k == 32 {
        assert(x & 0xffff_ffffu32 == x) by (bit_vector);
        lemma_wrap_once(x as int, capacity as int);
    } else {
        lemma_u32_low_bits_mask_is_mod(x, k);
    }
}

/// Where the cursors stand, and what the occupancy says about them.
pub proof fn lemma_occupancy(write: int, read: int, capacity: int)
    requires
        0 <= write < capacity,
        0 <= read < capacity,
    ensures
        0 <= occupied(write, read, capacity) < capacity,
        occupied(write, read, capacity) == 0 <==> is_empty(write, read),
        occupied(write, read, capacity) == capacity - 1 <==> is_full(write, read, capacity),
        slot_of(read, occupied(write, read, capacity), capacity) == write,
{
    lemma_wrap_once(write - read, capacity);
    lemma_wrap_once(write + 1, capacity);
    lemma_wrap_once(read + occupied(write, read, capacity), capacity);
}

/// Advancing the write cursor of a ring that is not full adds one occupied
/// slot.
pub proof fn lemma_write_advance(write: int, read: int, capacity: int)
    requires
        0 <= write < capacity,
        0 <= read < capacity,
        !is_full(write, read, capacity),
    ensures
        0 <= successor(write, capacity) < capacity,
        occupied(successor(write, capacity), read, capacity) == occupied(write, read, capacity) + 1,
{
    lemma_wrap_once(write - read, capacity);
    lemma_wrap_once(write + 1, capacity);
    lemma_wrap_once(successor(write, capacity) - read, capacity);
}

/// Advancing the read cursor of a ring that is not empty frees one slot, and
/// every element that stays moves one place towards the front.
pub proof fn lemma_read_advance(write: int, read: int, capacity: int)
    requires
        0 <= write < capacity,
        0 <= read < capacity,
        !is_empty(write, read),
    ensures
        0 <= successor(read, capacity) < capacity,
        occupied(write, successor(read, capacity), capacity) == occupied(write, read, capacity) - 1,
        forall|i: int|
            0 <= i < capacity - 1 ==> #[trigger] slot_of(successor(read, capacity), i, capacity)
                == slot_of(read, i + 1, capacity),
{
    lemma_wrap_once(write - read, capacity);
    lemma_wrap_once(read + 1, capacity);
    lemma_wrap_once(write - successor(read, capacity), capacity);
    assert forall|i: int| 0 <= i < capacity - 1 implies #[trigger] slot_of(
        successor(read, capacity),
        i,
        capacity,
    ) == slot_of(read, i + 1, capacity) by {
        lemma_wrap_once(successor(read, capacity) + i, capacity);
        lemma_wrap_once(read + i + 1, capacity);
    }
}

/// Elements at different places of the queue lie in different slots.
pub proof fn lemma_slots_distinct(read: int, i: int, j: int, capacity: int)
    requires
        0 <= read < capacity,
        0 <= i < capacity,
        0 <= j < capacity,
        i != j,
    ensures
        0 <= slot_of(read, i, capacity) < capacity,
        slot_of(read, i, capacity) != slot_of(read, j, capacity),
{
    lemma_wrap_once(read + i, capacity);
    lemma_wrap_once(read + j, capacity);
}

/// A producer may act on a read cursor that it loaded some time ago. The
/// consumer only ever frees slots, so a ring that was not full then is not
/// full now, and the slot at the write cursor is none of those that still
/// hold an element.
pub proof fn lemma_producer_snapshot_holds(
    write: int,
    read_seen: int,
    read_now: int,
    capacity: int,
)
    requires
        0 <= write < capacity,
        0 <= read_seen < capacity,
        0 <= read_now < capacity,
        occupied(write, read_now, capacity) <= occupied(write, read_seen, capacity),
        !is_full(write, read_seen, capacity),
    ensures
        !is_full(write, read_now, capacity),
        forall|i: int|
            0 <= i < occupied(write, read_now, capacity) ==> #[trigger] slot_of(
                read_now,
                i,
                capacity,
            ) != write,
{
    lemma_occupancy(write, read_seen, capacity);
    lemma_occupancy(write, read_now, capacity);
    assert forall|i: int| 0 <= i < occupied(write, read_now, capacity) implies #[trigger] slot_of(
        read_now,
        i,
        capacity,
    ) != write by {
        lemma_slots_distinct(read_now, i, occupied(write, read_now, capacity), capacity);
    }
}

/// A consumer may act on a write cursor that it loaded some time ago. The
/// producer only ever fills slots, so a ring that was not empty then is not
/// empty now, and the slot at the read cursor is not the one that the
/// producer fills next.
pub proof fn lemma_consumer_snapshot_holds(
    read: int,
    write_seen: int,
    write_now: int,
    capacity: int,
)
    requires
        0 <= read < capacity,
        0 <= write_seen < capacity,
        0 <= write_now < capacity,
        occupied(write_seen, read, capacity) <= occupied(write_now, read, capacity),
        !is_empty(write_seen, read),
    ensures
        !is_empty(write_now, read),
        slot_of(read, 0, capacity) == read,
        read != write_now,
{
    lemma_occupancy(write_seen, read, capacity);
    lemma_occupancy(write_now, read, capacity);
    lemma_wrap_once(read, capacity);
}

/// The bitmask that folds a cursor back onto the ring.
pub fn mask(capacity: usize) -> (m: u32)
    requires
        valid_capacity(capacity),
    ensures
        m == capacity - 1,
{
    proof {
        lemma_valid_capacities(capacity);
    }
    (capacity - 1) as u32
}

/// Moves a cursor one slot forward, wrapping at the end of the ring.
pub fn advance(cursor: u32, capacity: usize) -> (next: u32)
    requires
        valid_capacity(capacity),
        cursor < capacity,
    ensures
        next == successor(cursor as int, capacity as int),
        next < capacity,
{
    let m: u32 = mask(capacity);
    let bumped: u32 = cursor.wrapping_add(1);
    proof {
        lemma_mask_is_remainder(bumped, capacity);
        lemma_wrap_once(cursor + 1, capacity as int);
        lemma_wrap_once(bumped as int, capacity as int);
    }
    bumped & m
}

/// What a producer may do that saw the cursors at `write` and `read`: nothing
/// when the ring is full, else claim the slot at `write` by moving the write
/// cursor to the value returned.
pub fn plan_write(write: u32, read: u32, capacity: usize) -> (next: Option<u32>)
    requires
        valid_capacity(capacity),
        write < capacity,
        read < capacity,
    ensures
        match next {
            None => is_full(write as int, read as int, capacity as int),
            Some(cursor) => {
                &&& !is_full(write as int, read as int, capacity as int)
                &&& cursor == successor(write as int, capacity as int)
            },
        },
{
    let next_write: u32 = advance(write, capacity);
    if next_write == read {
        None
    } else {
        Some(next_write)
    }
}

/// What a consumer may do that saw the cursors at `read` and `write`: nothing
/// when the ring is empty, else claim the slot at `read` by moving the read
/// cursor to the value returned.
pub fn plan_read(read: u32, write: u32, capacity: usize) -> (next: Option<u32>)
    requires
        valid_capacity(capacity),
        write < capacity,
        read < capacity,
    ensures
        match next {
            None => is_empty(write as int, read as int),
            Some(cursor) => {
                &&& !is_empty(write as int, read as int)
                &&& cursor == successor(read as int, capacity as int)
            },
        },
{
    if read == write {
        None
    } else {
        Some(advance(read, capacity))
    }
}

} // verus!
