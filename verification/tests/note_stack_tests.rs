use velocity_mapper::note_stack::{MAX_VOICES, NoteStack};

#[test]
fn push_then_pop_returns_pushed_value() {
    let mut stack = NoteStack::new();
    stack.push_note_on(0, 60, 42);
    assert_eq!(stack.pop_note_on(0, 60), Some(42));
    // the cell is empty afterward
    assert_eq!(stack.pop_note_on(0, 60), None);
}

#[test]
fn lifo_order_two_pushes() {
    let mut stack = NoteStack::new();
    stack.push_note_on(3, 100, 10);
    stack.push_note_on(3, 100, 20);
    assert_eq!(stack.pop_note_on(3, 100), Some(20));
    assert_eq!(stack.pop_note_on(3, 100), Some(10));
    assert_eq!(stack.pop_note_on(3, 100), None);
}

#[test]
fn pop_empty_cell_no_match() {
    let mut stack = NoteStack::new();
    assert_eq!(stack.pop_note_on(5, 30), None);
}

#[test]
fn overflow_overwrites_last_slot() {
    let mut stack = NoteStack::new();
    for v in 1..=(MAX_VOICES as u8 + 1) {
        stack.push_note_on(0, 60, v);
    }
    // occupancy never exceeds MAX_VOICES: exactly MAX_VOICES pops succeed.
    // The overflowing push overwrote the newest slot (the tail).
    assert_eq!(stack.pop_note_on(0, 60), Some(MAX_VOICES as u8 + 1));
    for v in (1..MAX_VOICES as u8).rev() {
        assert_eq!(stack.pop_note_on(0, 60), Some(v));
    }
    assert_eq!(stack.pop_note_on(0, 60), None);
}

#[test]
fn cells_are_independent() {
    let mut stack = NoteStack::new();
    stack.push_note_on(0, 60, 40);
    stack.push_note_on(1, 60, 41);
    stack.push_note_on(0, 61, 42);
    assert_eq!(stack.pop_note_on(0, 60), Some(40));
    assert_eq!(stack.pop_note_on(1, 60), Some(41));
    assert_eq!(stack.pop_note_on(0, 61), Some(42));
}

#[test]
fn next_free_index_tracks_occupancy() {
    let mut stack = NoteStack::new();
    assert_eq!(stack.next_free_index(2, 70), Some(0));
    stack.push_note_on(2, 70, 50);
    assert_eq!(stack.next_free_index(2, 70), Some(1));
    stack.push_note_on(2, 70, 51);
    assert_eq!(stack.next_free_index(2, 70), Some(2));
}

#[test]
fn full_cell_has_no_free_index() {
    let mut stack = NoteStack::new();
    for v in 0..MAX_VOICES as u8 {
        stack.push_note_on(0, 0, v);
    }
    assert_eq!(stack.next_free_index(0, 0), None);
}

#[test]
fn out_of_range_channel_is_ignored() {
    let mut stack = NoteStack::new();
    stack.push_note_on(16, 60, 40);
    assert_eq!(stack.pop_note_on(16, 60), None);
}

#[test]
fn out_of_range_pitch_is_ignored() {
    let mut stack = NoteStack::new();
    stack.push_note_on(0, 128, 40);
    assert_eq!(stack.pop_note_on(0, 128), None);
}

#[test]
fn boundary_cells_work() {
    let mut stack = NoteStack::new();
    stack.push_note_on(15, 127, 99);
    assert_eq!(stack.pop_note_on(15, 127), Some(99));
    stack.push_note_on(0, 0, 1);
    assert_eq!(stack.pop_note_on(0, 0), Some(1));
}
