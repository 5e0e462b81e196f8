use sling::RingBuffer;

#[test]
fn test_nightly() {
    let nightly = false;
    if nightly {
        println!("nightly")
    }
}

#[test]
fn test_new_buffer() {
    let _ = RingBuffer::<u32, 32>::new();
}

#[test]
fn test_write() {
    let buffer = RingBuffer::<_, 32>::new();

    let mut writer = buffer.try_lock().unwrap();

    for i in 0..32 {
        writer.push_back(i)
    }

    println!("buffer: {buffer:?}");
}

#[test]
fn test_empty_queue() {
    let buffer = RingBuffer::<u8, 32>::new();

    let reader = buffer.reader();

    assert!(reader.pop_front().is_none());
}

#[test]
fn test_lock() {
    let buffer = RingBuffer::<(), 32>::new();

    let _writer = buffer.try_lock().unwrap();

    assert!(buffer.try_lock().is_err());
}

#[test]
fn test_read() {
    let buffer = RingBuffer::<_, 32>::new();

    let mut writer = buffer.try_lock().unwrap();

    for i in 0..32 {
        writer.push_back(i)
    }

    let reader = buffer.reader();

    while let Some(i) = reader.pop_front() {
        println!("val: {i}");
    }
}

#[test]
fn reader_made_after_a_wrap_finds_nothing() {
    let buffer = RingBuffer::<u32, 4>::new();
    let mut writer = buffer.try_lock().unwrap();
    for value in [1, 2, 3, 4, 5] {
        writer.push_back(value);
    }

    let reader = buffer.reader();
    assert_eq!(reader.pop_front(), None);
    assert_eq!(reader.pop_front(), None);
}

#[test]
fn reader_made_first_gets_every_value_in_order() {
    let buffer = RingBuffer::<u32, 128>::new();
    let reader = buffer.reader();
    let mut writer = buffer.try_lock().unwrap();
    for value in 0..100 {
        writer.push_back(value);
    }

    for expected in 0..100 {
        assert_eq!(reader.pop_front(), Some(expected));
    }
    assert_eq!(reader.pop_front(), None);
    assert_eq!(reader.pop_front(), None);
}

#[test]
fn overrun_reader_skips_what_was_lost() {
    let buffer = RingBuffer::<u32, 32>::new();
    let early = buffer.reader();
    let mut writer = buffer.try_lock().unwrap();
    assert!(buffer.try_lock().is_err());
    for value in 0..100 {
        writer.push_back(value);
    }
    let late = buffer.reader();

    let mut seen = vec![];
    while let Some(value) = early.pop_front() {
        seen.push(value);
    }
    assert_eq!(seen, vec![96, 97, 98, 99]);
    assert!(seen.iter().all(|value| *value >= 68));
    assert_eq!(late.pop_front(), None);

    for value in 100..128 {
        writer.push_back(value);
    }
    let mut rest = vec![];
    while let Some(value) = early.pop_front() {
        rest.push(value);
    }
    assert_eq!(rest, (100..128).collect::<Vec<u32>>());
    assert_eq!(late.pop_front(), None);

    writer.push_back(128);
    assert_eq!(early.pop_front(), Some(128));
    assert_eq!(late.pop_front(), Some(128));
}

#[test]
fn dropping_the_guard_lets_the_next_writer_in() {
    let buffer = RingBuffer::<u8, 2>::new();
    {
        let mut first = buffer.try_lock().unwrap();
        first.push_back(7);
        assert!(buffer.try_lock().is_err());
        assert!(buffer.try_lock().is_err());
    }
    let mut second = buffer.try_lock().unwrap();
    second.push_back(8);
    assert!(buffer.try_lock().is_err());
    drop(second);
    assert!(buffer.try_lock().is_ok());
}

#[test]
fn second_writer_goes_on_where_the_first_stopped() {
    let buffer = RingBuffer::<u8, 4>::new();
    let reader = buffer.reader();
    {
        let mut first = buffer.try_lock().unwrap();
        first.push_back(1);
        first.push_back(2);
    }
    {
        let mut second = buffer.try_lock().unwrap();
        second.push_back(3);
    }
    assert_eq!(reader.pop_front(), Some(1));
    assert_eq!(reader.pop_front(), Some(2));
    assert_eq!(reader.pop_front(), Some(3));
    assert_eq!(reader.pop_front(), None);
}

#[test]
fn two_readers_each_get_the_whole_stream() {
    let buffer = RingBuffer::<[u8; 3], 8>::new();
    let left = buffer.reader();
    let right = buffer.reader();
    let mut writer = buffer.try_lock().unwrap();

    let mut from_left = vec![];
    let mut from_right = vec![];
    for round in 0..5u8 {
        for step in 0..4u8 {
            let n = round * 4 + step;
            writer.push_back([n, n, n]);
        }
        while let Some(value) = left.pop_front() {
            from_left.push(value);
        }
        if round % 2 == 1 {
            while let Some(value) = right.pop_front() {
                from_right.push(value);
            }
        }
    }
    while let Some(value) = right.pop_front() {
        from_right.push(value);
    }

    let all: Vec<[u8; 3]> = (0..20u8).map(|n| [n, n, n]).collect();
    assert_eq!(from_left, all);
    assert_eq!(from_right, all);
}

#[test]
fn interleaved_push_and_pop_wrap_around() {
    let buffer = RingBuffer::<u64, 3>::new();
    let reader = buffer.reader();
    let mut writer = buffer.try_lock().unwrap();
    for value in 0..20u64 {
        writer.push_back(value);
        assert_eq!(reader.pop_front(), Some(value));
        assert_eq!(reader.pop_front(), None);
    }
}

#[test]
fn reader_one_lap_behind_loses_nothing() {
    let buffer = RingBuffer::<u16, 4>::new();
    let reader = buffer.reader();
    let mut writer = buffer.try_lock().unwrap();
    for value in 0..4 {
        writer.push_back(value);
    }
    for expected in 0..4 {
        assert_eq!(reader.pop_front(), Some(expected));
    }
    assert_eq!(reader.pop_front(), None);
    for value in 4..8 {
        writer.push_back(value);
    }
    for expected in 4..8 {
        assert_eq!(reader.pop_front(), Some(expected));
    }
    assert_eq!(reader.pop_front(), None);
}

#[test]
fn lapped_reader_resumes_at_the_newest_lap() {
    let buffer = RingBuffer::<u16, 4>::new();
    let reader = buffer.reader();
    let mut writer = buffer.try_lock().unwrap();
    for value in 1..=5 {
        writer.push_back(value);
    }
    assert_eq!(reader.pop_front(), Some(5));
    assert_eq!(reader.pop_front(), None);
    writer.push_back(6);
    assert_eq!(reader.pop_front(), Some(6));
    assert_eq!(reader.pop_front(), None);
}

#[test]
fn reader_made_in_mid_lap_waits_for_the_next_lap() {
    let buffer = RingBuffer::<u16, 4>::new();
    let mut writer = buffer.try_lock().unwrap();
    writer.push_back(1);
    writer.push_back(2);
    let reader = buffer.reader();
    writer.push_back(3);
    writer.push_back(4);
    assert_eq!(reader.pop_front(), None);
    writer.push_back(5);
    writer.push_back(6);
    assert_eq!(reader.pop_front(), Some(5));
    assert_eq!(reader.pop_front(), Some(6));
    assert_eq!(reader.pop_front(), None);
}

#[test]
fn clone_moves_on_its_own() {
    let buffer = RingBuffer::<u32, 8>::new();
    let reader = buffer.reader();
    let mut writer = buffer.try_lock().unwrap();
    for value in 10..14 {
        writer.push_back(value);
    }
    assert_eq!(reader.pop_front(), Some(10));
    assert_eq!(reader.pop_front(), Some(11));

    let copy = reader.clone();
    assert_eq!(copy.pop_front(), Some(12));
    assert_eq!(copy.pop_front(), Some(13));
    assert_eq!(copy.pop_front(), None);

    assert_eq!(reader.pop_front(), Some(12));
    assert_eq!(reader.pop_front(), Some(13));
    assert_eq!(reader.pop_front(), None);
}

#[test]
fn calls_through_one_reader_split_the_stream() {
    let buffer = RingBuffer::<u32, 16>::new();
    let reader = buffer.reader();
    let mut writer = buffer.try_lock().unwrap();
    for value in 0..10 {
        writer.push_back(value);
    }

    let first = &reader;
    let second = &reader;
    let mut from_first = vec![];
    let mut from_second = vec![];
    loop {
        match first.pop_front() {
            Some(value) => from_first.push(value),
            None => break,
        }
        match second.pop_front() {
            Some(value) => from_second.push(value),
            None => break,
        }
    }
    assert_eq!(from_first, vec![0, 2, 4, 6, 8]);
    assert_eq!(from_second, vec![1, 3, 5, 7, 9]);
}

#[test]
fn reader_of_a_silent_writer_runs_dry() {
    let buffer = RingBuffer::<u8, 4>::new();
    let reader = buffer.reader();
    let mut writer = buffer.try_lock().unwrap();
    for value in 0..3 {
        writer.push_back(value);
    }
    drop(writer);

    let mut taken = 0;
    while reader.pop_front().is_some() {
        taken += 1;
        assert!(taken <= 4);
    }
    assert_eq!(taken, 3);
    for _ in 0..100 {
        assert_eq!(reader.pop_front(), None);
    }
}

#[test]
fn one_slot_buffer_keeps_the_newest_value() {
    let buffer = RingBuffer::<char, 1>::new();
    let reader = buffer.reader();
    let mut writer = buffer.try_lock().unwrap();
    assert_eq!(reader.pop_front(), None);
    writer.push_back('a');
    assert_eq!(reader.pop_front(), Some('a'));
    assert_eq!(reader.pop_front(), None);
    writer.push_back('b');
    writer.push_back('c');
    assert_eq!(reader.pop_front(), Some('c'));
    assert_eq!(reader.pop_front(), None);
}

#[test]
fn unit_payloads_are_counted() {
    let buffer = RingBuffer::<(), 32>::new();
    let reader = buffer.reader();
    let mut writer = buffer.try_lock().unwrap();
    for _ in 0..5 {
        writer.push_back(());
    }
    let mut taken = 0;
    while let Some(()) = reader.pop_front() {
        taken += 1;
    }
    assert_eq!(taken, 5);
}

#[test]
fn admitted_goes_by_the_flag_it_is_given() {
    let buffer = RingBuffer::<u8, 4>::new();
    assert!(buffer.admitted(true).is_err());
    let reader = buffer.reader();
    let mut writer = buffer.admitted(false).unwrap();
    writer.push_back(5);
    assert_eq!(reader.pop_front(), Some(5));
    drop(writer);
    assert!(buffer.try_lock().is_ok());
}
