use sling::padded::Padded;
use sling::sample::range;
use sling::sample::Message;
use sling::RingBuffer;

#[test]
fn each_message_has_its_own_bytes() {
    assert_eq!(range(Message::A), [0, 1, 2, 3]);
    assert_eq!(range(Message::B), [4, 5, 6, 7]);
    assert_eq!(range(Message::C), [8, 9, 10, 11]);
    assert_eq!(range(Message::D), [12, 13, 14, 15]);
}

#[test]
fn sample_payloads_come_out_whole() {
    let valid = [
        range(Message::A),
        range(Message::B),
        range(Message::C),
        range(Message::D),
    ];
    let buffer = RingBuffer::<[u8; 4], 255>::new();
    let reader = buffer.reader();
    let mut writer = buffer.try_lock().unwrap();
    let data = [Message::D, Message::A, Message::C, Message::C, Message::B];
    let mut popped = vec![];
    for round in 0..60 {
        for message in data {
            writer.push_back(range(message));
        }
        if round % 7 == 0 {
            while let Some(bytes) = reader.pop_front() {
                assert!(valid.contains(&bytes));
                popped.push(bytes);
            }
        }
    }
    while let Some(bytes) = reader.pop_front() {
        assert!(valid.contains(&bytes));
        popped.push(bytes);
    }
    assert_eq!(popped.len(), 300);
    for (at, bytes) in popped.iter().enumerate() {
        assert_eq!(*bytes, range(data[at % 5]));
    }
}

#[test]
fn padded_holds_its_value() {
    let padded = Padded::new(17u64);
    assert_eq!(padded.0, 17);
    assert_eq!(*padded, 17);

    let mut other: Padded<u8> = Padded::from(3);
    *other += 1;
    assert_eq!(other.0, 4);
}
