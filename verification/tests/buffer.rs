use ring_buffer::RingBuffer;

#[test]
fn single_threaded_write_read() {
    let mut buffer: RingBuffer<i32, 4> = RingBuffer::new();
    assert!(buffer.try_write(1));
    assert!(buffer.try_write(2));
    assert_eq!(buffer.try_read(), Some(1));
    assert_eq!(buffer.try_read(), Some(2));
    assert_eq!(buffer.try_read(), None);
}

#[test]
fn buffer_full() {
    let mut buffer: RingBuffer<i32, 4> = RingBuffer::new();
    assert!(buffer.try_write(1));
    assert!(buffer.try_write(2));
    assert!(buffer.try_write(3));
    assert!(!buffer.try_write(4)); // Buffer should be full
    assert_eq!(buffer.try_read(), Some(1));
    assert!(buffer.try_write(3)); // Should succeed after reading
    assert_eq!(buffer.try_read(), Some(2));
    assert_eq!(buffer.try_read(), Some(3));
}

#[test]
fn four_slots_hold_three_elements() {
    let mut buffer: RingBuffer<i32, 4> = RingBuffer::new();
    assert!(buffer.try_write(1));
    assert!(buffer.try_write(2));
    assert!(buffer.try_write(3));
    assert!(!buffer.try_write(4));
    assert_eq!(buffer.try_read(), Some(1));
    assert!(buffer.try_write(4));
    assert_eq!(buffer.try_read(), Some(2));
    assert_eq!(buffer.try_read(), Some(3));
    assert_eq!(buffer.try_read(), Some(4));
    assert_eq!(buffer.try_read(), None);
}

#[test]
fn reads_come_in_write_order() {
    let mut buffer: RingBuffer<u64, 16> = RingBuffer::new();
    let items: Vec<u64> = vec![31, 4, 15, 9, 26, 5, 35, 8, 97, 93, 23, 84, 62, 64, 33];
    for item in items.iter() {
        assert!(buffer.try_write(*item));
    }
    let mut seen: Vec<u64> = Vec::new();
    while let Some(item) = buffer.try_read() {
        seen.push(item);
    }
    assert_eq!(seen, items);
}

#[test]
fn writes_past_the_bound_are_refused_in_order() {
    let mut buffer: RingBuffer<u8, 4> = RingBuffer::new();
    let taken: Vec<bool> = (10u8..16).map(|item| buffer.try_write(item)).collect();
    assert_eq!(taken, vec![true, true, true, false, false, false]);
    assert_eq!(buffer.try_read(), Some(10));
    assert_eq!(buffer.try_read(), Some(11));
    assert_eq!(buffer.try_read(), Some(12));
    assert_eq!(buffer.try_read(), None);
}

#[test]
fn eight_slots_take_seven_then_one_per_read() {
    let mut buffer: RingBuffer<u32, 8> = RingBuffer::new();
    for item in 0u32..7 {
        assert!(buffer.try_write(item));
    }
    assert!(!buffer.try_write(7));
    assert!(!buffer.try_write(7));
    assert_eq!(buffer.try_read(), Some(0));
    assert!(buffer.try_write(7));
    assert!(!buffer.try_write(8));
    assert_eq!(buffer.try_read(), Some(1));
    assert!(buffer.try_write(8));
    assert!(!buffer.try_write(9));
    for item in 2u32..9 {
        assert_eq!(buffer.try_read(), Some(item));
    }
    assert_eq!(buffer.try_read(), None);
}

#[test]
fn drained_buffer_stays_empty_until_a_write() {
    let mut buffer: RingBuffer<i64, 4> = RingBuffer::new();
    assert!(buffer.try_write(-1));
    assert!(buffer.try_write(-2));
    assert_eq!(buffer.try_read(), Some(-1));
    assert_eq!(buffer.try_read(), Some(-2));
    assert_eq!(buffer.try_read(), None);
    assert_eq!(buffer.try_read(), None);
    assert_eq!(buffer.try_read(), None);
    assert!(buffer.try_write(-3));
    assert_eq!(buffer.try_read(), Some(-3));
    assert_eq!(buffer.try_read(), None);
}

#[test]
fn new_buffer_is_empty() {
    let mut buffer: RingBuffer<i32, 8> = RingBuffer::new();
    assert_eq!(buffer.try_read(), None);
    assert!(buffer.try_write(5));
    assert_eq!(buffer.try_read(), Some(5));
}

#[test]
fn powers_of_two_are_built() {
    assert!(RingBuffer::<u8, 1>::try_new().is_some());
    assert!(RingBuffer::<u8, 2>::try_new().is_some());
    assert!(RingBuffer::<u8, 4>::try_new().is_some());
    assert!(RingBuffer::<u8, 64>::try_new().is_some());
    assert!(RingBuffer::<u8, 65536>::try_new().is_some());
}

#[test]
fn other_slot_counts_are_never_built() {
    for _ in 0..3 {
        assert!(RingBuffer::<u8, 0>::try_new().is_none());
        assert!(RingBuffer::<u8, 3>::try_new().is_none());
        assert!(RingBuffer::<u8, 5>::try_new().is_none());
        assert!(RingBuffer::<u8, 6>::try_new().is_none());
        assert!(RingBuffer::<u8, 12>::try_new().is_none());
        assert!(RingBuffer::<u8, 1000>::try_new().is_none());
        assert!(RingBuffer::<u8, 65535>::try_new().is_none());
    }
}

#[test]
fn checked_construction_starts_empty() {
    let mut buffer: RingBuffer<u16, 4> = match RingBuffer::try_new() {
        Some(buffer) => buffer,
        None => panic!("four slots are a power of two"),
    };
    assert_eq!(buffer.try_read(), None);
    assert!(buffer.try_write(1));
    assert!(buffer.try_write(2));
    assert!(buffer.try_write(3));
    assert!(!buffer.try_write(4));
}

#[test]
fn one_slot_holds_nothing() {
    let mut buffer: RingBuffer<i32, 1> = RingBuffer::new();
    assert!(!buffer.try_write(1));
    assert_eq!(buffer.try_read(), None);
    assert!(!buffer.try_write(2));
    assert_eq!(buffer.try_read(), None);
}

#[test]
fn two_slots_hold_one_element() {
    let mut buffer: RingBuffer<i32, 2> = RingBuffer::new();
    assert!(buffer.try_write(1));
    assert!(!buffer.try_write(2));
    assert_eq!(buffer.try_read(), Some(1));
    assert_eq!(buffer.try_read(), None);
    assert!(buffer.try_write(3));
    assert!(!buffer.try_write(4));
    assert_eq!(buffer.try_read(), Some(3));
}

#[test]
fn order_survives_many_trips_round_the_ring() {
    let mut buffer: RingBuffer<u32, 4> = RingBuffer::new();
    let mut next_in: u32 = 0;
    let mut next_out: u32 = 0;
    for round in 0u32..500 {
        let burst = 1 + round % 3;
        for _ in 0..burst {
            assert!(buffer.try_write(next_in));
            next_in += 1;
        }
        for _ in 0..burst {
            assert_eq!(buffer.try_read(), Some(next_out));
            next_out += 1;
        }
        assert_eq!(buffer.try_read(), None);
    }
    assert_eq!(next_in, next_out);
}

#[test]
fn refused_write_changes_nothing() {
    let mut buffer: RingBuffer<i32, 4> = RingBuffer::new();
    assert!(buffer.try_write(7));
    assert!(buffer.try_write(8));
    assert!(buffer.try_write(9));
    assert!(!buffer.try_write(100));
    assert!(!buffer.try_write(101));
    assert_eq!(buffer.try_read(), Some(7));
    assert_eq!(buffer.try_read(), Some(8));
    assert_eq!(buffer.try_read(), Some(9));
    assert_eq!(buffer.try_read(), None);
}

#[test]
fn owned_values_move_through() {
    let mut buffer: RingBuffer<String, 4> = RingBuffer::new();
    assert!(buffer.try_write(String::from("first")));
    assert!(buffer.try_write(String::from("second")));
    assert_eq!(buffer.try_read(), Some(String::from("first")));
    assert!(buffer.try_write(String::from("third")));
    assert!(buffer.try_write(String::from("fourth")));
    assert!(!buffer.try_write(String::from("fifth")));
    assert_eq!(buffer.try_read(), Some(String::from("second")));
    assert_eq!(buffer.try_read(), Some(String::from("third")));
    assert_eq!(buffer.try_read(), Some(String::from("fourth")));
    assert_eq!(buffer.try_read(), None);
}

#[test]
fn mixed_writes_and_reads_lose_and_repeat_nothing() {
    let mut buffer: RingBuffer<u32, 8> = RingBuffer::new();
    let mut taken: Vec<u32> = Vec::new();
    let mut handed_out: Vec<u32> = Vec::new();
    let mut resident: usize = 0;
    let mut state: u32 = 12345;
    for step in 0u32..2000 {
        state = state.wrapping_mul(1103515245).wrapping_add(12345);
        if (state >> 16) % 3 != 0 {
            let accepted = buffer.try_write(step);
            assert_eq!(accepted, resident < 7);
            if accepted {
                taken.push(step);
                resident += 1;
            }
        } else {
            let item = buffer.try_read();
            assert_eq!(item.is_some(), resident > 0);
            if let Some(item) = item {
                handed_out.push(item);
                resident -= 1;
            }
        }
        assert!(resident <= 7);
    }
    while let Some(item) = buffer.try_read() {
        handed_out.push(item);
    }
    assert_eq!(handed_out, taken);
}
