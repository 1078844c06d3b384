use redaw::clip::{Clip, ClipNote};
use redaw::track::Track;

#[test]
fn active_clip_has_greatest_start_at_or_before() {
    let mut t = Track::new(3);
    t.add_clip(0, Clip::new(10, 128));
    t.add_clip(256, Clip::new(11, 128));
    t.add_clip(128, Clip::new(12, 128));
    assert_eq!(t.active_clip(0).unwrap().id(), 10);
    assert_eq!(t.active_clip(127).unwrap().id(), 10);
    assert_eq!(t.active_clip(128).unwrap().id(), 12);
    assert_eq!(t.active_clip(1000).unwrap().id(), 11);
    assert!(t.active_clip(-1).is_none());
}

#[test]
fn clip_at_same_start_is_replaced() {
    let mut t = Track::new(3);
    t.add_clip(64, Clip::new(1, 128));
    t.add_clip(64, Clip::new(2, 128));
    assert_eq!(t.active_clip(64).unwrap().id(), 2);
    assert!(t.active_clip(63).is_none());
}

#[test]
fn notes_to_fire_come_from_active_clip() {
    let mut t = Track::new(3);
    t.add_clip(0, Clip::new(7, 128));
    t.add_note(7, ClipNote::new(1, 60, 32, 90), 0);
    t.add_note(7, ClipNote::new(2, 62, 32, 90), 16);
    t.add_note(99, ClipNote::new(3, 64, 32, 90), 0);
    let got: Vec<usize> = t.notes_to_fire(0, 20).iter().map(|(_, n)| n.id).collect();
    assert_eq!(got, vec![1, 2]);
    assert!(Track::new(4).notes_to_fire(0, 100).is_empty());
}

#[test]
fn controls_are_replaced() {
    let mut t = Track::new(3);
    assert!(t.controls().is_empty());
    t.set_control(vec![4, 5]);
    assert_eq!(t.controls(), &vec![4, 5]);
    assert_eq!(t.id(), 3);
}
