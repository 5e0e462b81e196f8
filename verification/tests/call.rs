use sling::call::advance;
use sling::call::handed_back;
use sling::call::Brought;
use sling::call::Stage;
use sling::protocol::write_slot;

#[test]
fn call_begins_by_loading_the_cursor() {
    let next = advance(Stage::<u8>::Entered, 4, Brought::Word(3));
    assert!(matches!(next, Stage::AtCursor { i: 3 }));
}

#[test]
fn cursor_out_of_range_ends_the_call() {
    let next = advance(Stage::<u8>::AtCursor { i: 4 }, 4, Brought::Word(0));
    assert!(matches!(next, Stage::Done { handed: None }));
    let next = advance(Stage::<u8>::AtCursor { i: 3 }, 4, Brought::Word(6));
    assert!(matches!(next, Stage::AtMark { i: 3, ver: 6 }));
}

#[test]
fn sequence_word_decides_the_claim() {
    let next = advance(Stage::<u8>::AtMark { i: 0, ver: 2 }, 4, Brought::Word(4));
    assert!(matches!(next, Stage::Checked { i: 0, ver: 2, generation: 4 }));
    let next = advance(Stage::<u8>::AtMark { i: 0, ver: 4 }, 4, Brought::Word(4));
    assert!(matches!(next, Stage::Done { handed: None }));
    let next = advance(Stage::<u8>::AtMark { i: 1, ver: 4 }, 4, Brought::Word(4));
    assert!(matches!(next, Stage::Checked { i: 1, ver: 4, generation: 4 }));
    let next = advance(Stage::<u8>::AtMark { i: 1, ver: 4 }, 4, Brought::Word(5));
    assert!(matches!(next, Stage::Done { handed: None }));
    let next = advance(Stage::<u8>::AtMark { i: 1, ver: 4 }, 4, Brought::Word(2));
    assert!(matches!(next, Stage::Done { handed: None }));
}

#[test]
fn failed_raise_ends_the_call() {
    let checked = Stage::<u8>::Checked { i: 1, ver: 2, generation: 4 };
    let next = advance(checked, 4, Brought::Swapped(Ok(2)));
    assert!(matches!(next, Stage::Raised { i: 1, generation: 4 }));
    let checked = Stage::<u8>::Checked { i: 1, ver: 2, generation: 4 };
    let next = advance(checked, 4, Brought::Swapped(Err(6)));
    assert!(matches!(next, Stage::Done { handed: None }));
}

#[test]
fn failed_claim_starts_over_at_the_new_cursor() {
    let raised = Stage::<u8>::Raised { i: 1, generation: 4 };
    let next = advance(raised, 4, Brought::Swapped(Ok(1)));
    assert!(matches!(next, Stage::Claimed { i: 1, generation: 4 }));
    let raised = Stage::<u8>::Raised { i: 1, generation: 4 };
    let next = advance(raised, 4, Brought::Swapped(Err(3)));
    assert!(matches!(next, Stage::AtCursor { i: 3 }));
}

#[test]
fn copy_counts_only_if_the_word_has_not_moved() {
    let claimed = Stage::<u8>::Claimed { i: 2, generation: 4 };
    let copied = advance(claimed, 4, Brought::Message(Some(9)));
    assert!(matches!(copied, Stage::Copied { i: 2, generation: 4, message: Some(9) }));
    let done = advance(copied, 4, Brought::Word(4));
    assert!(matches!(done, Stage::Done { handed: Some(Some(9)) }));
    assert_eq!(handed_back(done), Some(9));

    let copied = Stage::<u8>::Copied { i: 2, generation: 4, message: Some(9) };
    let again = advance(copied, 4, Brought::Word(6));
    assert!(matches!(again, Stage::Entered));
    assert_eq!(handed_back(again), None);
}

#[test]
fn finished_call_stays_finished() {
    let done = Stage::<u8>::Done { handed: Some(Some(1)) };
    let still = advance(done, 4, Brought::Word(7));
    assert!(matches!(still, Stage::Done { handed: Some(Some(1)) }));
    assert_eq!(handed_back(Stage::<u8>::Done { handed: None }), None);
    assert_eq!(handed_back(Stage::<u8>::Done { handed: Some(None) }), None);
    assert_eq!(handed_back(Stage::<u8>::Claimed { i: 0, generation: 2 }), None);
}

#[test]
fn access_of_the_wrong_kind_changes_nothing() {
    let next = advance(Stage::<u8>::Entered, 4, Brought::Message(Some(1)));
    assert!(matches!(next, Stage::Entered));
    let next = advance(Stage::<u8>::Claimed { i: 1, generation: 2 }, 4, Brought::Word(2));
    assert!(matches!(next, Stage::Claimed { i: 1, generation: 2 }));
}

#[test]
fn write_slot_is_the_loaded_index_in_range() {
    assert_eq!(write_slot(0, 4), 0);
    assert_eq!(write_slot(3, 4), 3);
    assert_eq!(write_slot(4, 4), 0);
    assert_eq!(write_slot(usize::MAX, 4), 0);
    assert_eq!(write_slot(0, 1), 0);
}
