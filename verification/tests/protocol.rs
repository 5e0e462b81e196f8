use sling::protocol::check_version;
use sling::protocol::next_index;
use sling::protocol::published_version;

#[test]
fn slot_being_written_is_not_claimable() {
    assert_eq!(check_version(1, 0, 0), None);
    assert_eq!(check_version(3, 2, 5), None);
    assert_eq!(check_version(usize::MAX, 0, 1), None);
}

#[test]
fn first_slot_needs_a_newer_generation() {
    assert_eq!(check_version(0, 0, 0), None);
    assert_eq!(check_version(4, 4, 0), None);
    assert_eq!(check_version(2, 0, 0), Some(2));
    assert_eq!(check_version(6, 4, 0), Some(6));
}

#[test]
fn later_slots_may_share_the_generation() {
    assert_eq!(check_version(4, 4, 1), Some(4));
    assert_eq!(check_version(4, 4, 31), Some(4));
    assert_eq!(check_version(6, 4, 3), Some(6));
    assert_eq!(check_version(0, 0, 1), Some(0));
}

#[test]
fn older_generation_is_not_claimable() {
    assert_eq!(check_version(2, 4, 1), None);
    assert_eq!(check_version(0, 2, 1), None);
    assert_eq!(check_version(6, 8, 0), None);
}

#[test]
fn next_index_wraps_at_the_end() {
    assert_eq!(next_index(0, 4), 1);
    assert_eq!(next_index(2, 4), 3);
    assert_eq!(next_index(3, 4), 0);
    assert_eq!(next_index(0, 1), 0);
    assert_eq!(next_index(usize::MAX - 1, usize::MAX), 0);
}

#[test]
fn published_version_covers_the_coming_generation() {
    assert_eq!(published_version(0, 0), 2);
    assert_eq!(published_version(2, 0), 2);
    assert_eq!(published_version(2, 2), 4);
    assert_eq!(published_version(10, 2), 10);
    assert_eq!(published_version(4, 5), 6);
}

#[test]
fn published_version_stops_at_the_largest_word() {
    assert_eq!(published_version(0, usize::MAX), usize::MAX);
    assert_eq!(published_version(7, usize::MAX - 1), usize::MAX);
    assert_eq!(published_version(0, usize::MAX - 3), usize::MAX - 1);
}

#[test]
fn marks_never_fall() {
    let words = [0usize, 1, 2, 3, 4, 7, 8, 100, 101, usize::MAX - 1, usize::MAX];
    for ver in words {
        for seq in words {
            assert!(published_version(ver, seq) >= ver);
            for i in [0usize, 1, 5] {
                if let Some(generation) = check_version(seq, ver, i) {
                    assert!(generation >= ver);
                    assert_eq!(generation, seq);
                    assert_eq!(generation % 2, 0);
                }
            }
        }
    }
}
