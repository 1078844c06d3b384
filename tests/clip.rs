use redaw::clip::{Clip, ClipNote};

fn note(id: usize) -> ClipNote {
    ClipNote::new(id, 60, 8, 100)
}

#[test]
fn notes_keep_position_then_insertion_order() {
    let mut c = Clip::new(1, 128);
    c.add_note(note(1), 10);
    c.add_note(note(2), 0);
    c.add_note(note(3), 10);
    c.add_note(note(4), 5);
    let got: Vec<(i64, usize)> = c.get_notes_range(0, 128).iter().map(|(p, n)| (*p, n.id)).collect();
    assert_eq!(got, vec![(0, 2), (5, 4), (10, 1), (10, 3)]);
    let at10: Vec<usize> = c.get_notes(10).iter().map(|n| n.id).collect();
    assert_eq!(at10, vec![1, 3]);
    assert!(c.get_notes(7).is_empty());
}

#[test]
fn window_includes_start_excludes_end() {
    let mut c = Clip::new(1, 128);
    c.add_note(note(1), 4);
    c.add_note(note(2), 8);
    let got: Vec<usize> = c.get_notes_range(4, 8).iter().map(|(_, n)| n.id).collect();
    assert_eq!(got, vec![1]);
    assert!(c.get_notes_range(5, 8).is_empty());
    assert!(c.get_notes_range(8, 8).is_empty());
}

#[test]
fn notes_past_duration_never_play() {
    let mut c = Clip::new(1, 16);
    c.add_note(note(1), 15);
    c.add_note(note(2), 16);
    c.add_note(note(3), 40);
    let got: Vec<usize> = c.get_notes_range(0, 100).iter().map(|(_, n)| n.id).collect();
    assert_eq!(got, vec![1]);
    c.set_duration(100);
    assert_eq!(c.get_notes_range(0, 100).len(), 3);
    c.set_all(10, 2);
    assert!(c.get_notes_range(0, 100).is_empty());
    c.set_offset(0);
    assert_eq!(c.id(), 1);
}

#[test]
fn remove_note_takes_the_first_match_only() {
    let mut c = Clip::new(1, 128);
    c.add_note(note(1), 4);
    c.add_note(note(2), 4);
    c.add_note(note(1), 4);
    c.add_note(note(1), 8);
    c.remove_note(note(1), 4);
    let got: Vec<(i64, usize)> = c.get_notes_range(0, 128).iter().map(|(p, n)| (*p, n.id)).collect();
    assert_eq!(got, vec![(4, 2), (4, 1), (8, 1)]);
    c.remove_note(note(3), 4);
    assert_eq!(c.get_notes_range(0, 128).len(), 3);
}

#[test]
fn removing_the_last_note_empties_the_position() {
    let mut c = Clip::new(1, 128);
    c.add_note(note(5), 12);
    c.remove_note(note(5), 12);
    assert!(c.get_notes(12).is_empty());
    assert!(c.get_notes_range(0, 128).is_empty());
    c.add_note(note(6), 12);
    assert_eq!(c.get_notes(12).len(), 1);
}
