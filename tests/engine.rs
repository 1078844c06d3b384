use redaw::clip::ClipNote;
use redaw::engine::Engine;
use redaw::message::{Message, ModuleKind, SetParam};
use redaw::queue::{Queue, Receiver};
use redaw::ring::timestamp_ring;

const MS: u128 = 1_000_000;

struct Rig {
    engine: Engine,
    to_worker: Receiver<Message>,
    ts: ringbuf::Producer<u128>,
}

fn rig() -> Rig {
    let (tx, to_worker) = Queue::new();
    let (_back_tx, back_rx) = Queue::new();
    let (ts, ts_rx) = timestamp_ring();
    let engine = Engine::new(48_000, back_rx, tx, ts_rx);
    Rig { engine, to_worker, ts }
}

fn messages(rx: &Receiver<Message>) -> Vec<Message> {
    let mut it = rx.recv();
    let mut out = Vec::new();
    while let Some(m) = it.next() {
        out.push(m);
    }
    out
}

#[test]
fn init_sends_empty_master() {
    let mut r = rig();
    r.engine.init();
    let msgs = messages(&r.to_worker);
    assert_eq!(msgs.len(), 1);
    match &msgs[0] {
        Message::Node(n) => {
            assert_eq!(n.id, 0);
            assert_eq!(n.module, ModuleKind::Sum);
            assert!(n.audio_in.is_empty());
            assert!(n.ctrl_in.is_empty());
        }
        _ => panic!("expected a node"),
    }
}

#[test]
fn master_after_remove_sums_the_survivor() {
    let mut r = rig();
    r.engine.init();
    let first = r.engine.add_track().unwrap();
    let second = r.engine.add_track().unwrap();
    assert_ne!(first, 0);
    assert_ne!(first, second);
    assert!(r.engine.remove_track(first));
    let msgs = messages(&r.to_worker);
    match msgs.last().unwrap() {
        Message::Node(n) => {
            assert_eq!(n.id, 0);
            assert_eq!(n.audio_in, vec![(second, 0)]);
        }
        _ => panic!("expected the master node"),
    }
    assert_eq!(r.engine.tracks().len(), 1);
    assert_eq!(r.engine.tracks()[0].id(), second);
    assert!(!r.engine.remove_track(first));
}

#[test]
fn add_track_sends_track_node_then_master() {
    let mut r = rig();
    let t = r.engine.add_track().unwrap();
    let msgs = messages(&r.to_worker);
    assert_eq!(msgs.len(), 2);
    match (&msgs[0], &msgs[1]) {
        (Message::Node(a), Message::Node(b)) => {
            assert_eq!(a.id, t);
            assert_eq!(a.module, ModuleKind::Sum);
            assert_eq!(b.id, 0);
            assert_eq!(b.audio_in, vec![(t, 0)]);
        }
        _ => panic!("expected two nodes"),
    }
}

#[test]
fn set_track_node_rewires_and_sets_controls() {
    let mut r = rig();
    let t = r.engine.add_track().unwrap();
    let osc = r.engine.create_node(ModuleKind::Saw, vec![], vec![]).unwrap();
    messages(&r.to_worker);
    assert!(r.engine.set_track_node(t, vec![(osc, 0)], vec![osc]));
    assert_eq!(r.engine.tracks()[0].controls(), &vec![osc]);
    let msgs = messages(&r.to_worker);
    assert_eq!(msgs.len(), 2);
    match &msgs[0] {
        Message::Node(n) => {
            assert_eq!(n.id, t);
            assert_eq!(n.audio_in, vec![(osc, 0)]);
        }
        _ => panic!("expected the track node"),
    }
    assert!(!r.engine.set_track_node(999, vec![], vec![]));
}

#[test]
fn immediate_notes_and_params() {
    let mut r = rig();
    r.engine.send_note_on(vec![3, 4], 60, 100);
    r.engine.send_note_off(vec![3, 4], 60);
    let p = SetParam { id: 99_999, param_ix: 0, value: 0, timestamp: 0 };
    r.engine.set_param(p);
    let msgs = messages(&r.to_worker);
    assert_eq!(msgs.len(), 3);
    match &msgs[0] {
        Message::Note(n) => {
            assert_eq!(n.ids, vec![3, 4]);
            assert!(n.on);
            assert_eq!(n.velocity, 100);
        }
        _ => panic!("expected a note"),
    }
    match &msgs[1] {
        Message::Note(n) => {
            assert!(!n.on);
            assert_eq!(n.velocity, 0);
        }
        _ => panic!("expected a note"),
    }
    match &msgs[2] {
        Message::SetParam(q) => assert_eq!(*q, p),
        _ => panic!("expected a parameter"),
    }
}

#[test]
fn no_timestamp_means_no_step() {
    let mut r = rig();
    assert_eq!(r.engine.run_step(), None);
}

#[test]
fn note_on_then_note_off_after_its_duration() {
    let mut r = rig();
    r.engine.init();
    let t = r.engine.add_track().unwrap();
    let clip = r.engine.add_clip_to_track(t, 0).unwrap();
    r.engine.add_note(t, clip, ClipNote::new(1, 69, 32, 100), 0);
    assert!(r.engine.set_track_node(t, vec![], vec![5, 6]));
    messages(&r.to_worker);
    r.engine.set_play();
    let mut ons = Vec::new();
    let mut offs = Vec::new();
    let mut now: u128 = 0;
    while now <= 700 * MS {
        assert!(r.ts.push(now).is_ok());
        assert_eq!(r.engine.run_step(), Some(now));
        for m in messages(&r.to_worker) {
            if let Message::Note(n) = m {
                assert_eq!(n.ids, vec![5, 6]);
                assert_eq!(n.midi, 69);
                if n.on {
                    ons.push((now, n.timestamp));
                } else {
                    offs.push((now, n.timestamp));
                }
            }
        }
        now += 10 * MS;
    }
    assert_eq!(ons.len(), 1);
    assert_eq!(offs.len(), 1);
    let (sent_at, on_ts) = ons[0];
    assert_eq!(sent_at, on_ts);
    assert!(on_ts > 0 && on_ts <= 50 * MS);
    let (off_sent_at, off_ts) = offs[0];
    assert_eq!(off_ts, on_ts + 500 * MS);
    assert!(off_sent_at >= off_ts);
    assert!(off_sent_at < off_ts + 10 * MS);
    assert!(off_sent_at >= 500 * MS);
    assert_eq!(r.engine.pending_count(), 0);
}

#[test]
fn paused_engine_sends_nothing() {
    let mut r = rig();
    let t = r.engine.add_track().unwrap();
    let clip = r.engine.add_clip_to_track(t, 0).unwrap();
    r.engine.add_note(t, clip, ClipNote::new(1, 69, 32, 100), 0);
    messages(&r.to_worker);
    let mut now: u128 = 0;
    while now <= 100 * MS {
        assert!(r.ts.push(now).is_ok());
        assert_eq!(r.engine.run_step(), Some(now));
        now += 10 * MS;
    }
    assert!(messages(&r.to_worker).is_empty());
    assert_eq!(r.engine.tempo().start_time, None);
}

#[test]
fn full_ring_keeps_the_waiting_timestamp() {
    let mut r = rig();
    assert!(r.ts.push(1).is_ok());
    assert_eq!(r.ts.push(2), Err(2));
    assert_eq!(r.engine.run_step(), Some(1));
    assert_eq!(r.engine.run_step(), None);
}

#[test]
fn set_loop_and_pause_reach_the_transport() {
    let mut r = rig();
    r.engine.set_loop(0, 64);
    r.engine.set_play();
    assert_eq!(r.engine.tempo().looping, Some((0, 64)));
    assert!(r.engine.tempo().playing);
    r.engine.set_pause();
    assert!(!r.engine.tempo().playing);
}

fn start_one_note(r: &mut Rig) {
    let t = r.engine.add_track().unwrap();
    let clip = r.engine.add_clip_to_track(t, 0).unwrap();
    r.engine.add_note(t, clip, ClipNote::new(1, 69, 32, 100), 0);
    r.engine.set_play();
    let mut now: u128 = 0;
    while r.engine.pending_count() == 0 {
        assert!(r.ts.push(now).is_ok());
        r.engine.run_step();
        now += 10 * MS;
    }
    messages(&r.to_worker);
    r.engine.set_pause();
}

#[test]
fn note_offs_fire_while_paused_by_default() {
    let mut r = rig();
    start_one_note(&mut r);
    assert!(r.ts.push(2_000 * MS).is_ok());
    r.engine.run_step();
    assert_eq!(r.engine.pending_count(), 0);
    let msgs = messages(&r.to_worker);
    assert_eq!(msgs.len(), 1);
    assert!(matches!(&msgs[0], Message::Note(n) if !n.on));
}

#[test]
fn note_offs_can_wait_for_playback() {
    let mut r = rig();
    start_one_note(&mut r);
    r.engine.set_offs_while_paused(false);
    assert!(r.ts.push(2_000 * MS).is_ok());
    r.engine.run_step();
    assert_eq!(r.engine.pending_count(), 1);
    assert!(messages(&r.to_worker).is_empty());
}

#[test]
fn play_after_pause_latches_a_new_start() {
    let mut r = rig();
    r.engine.set_play();
    assert!(r.ts.push(0).is_ok());
    r.engine.run_step();
    assert!(r.ts.push(500 * MS).is_ok());
    r.engine.run_step();
    assert_eq!(r.engine.tempo().current_position, 32);
    r.engine.set_pause();
    assert_eq!(r.engine.tempo().start_time, None);
    r.engine.set_play();
    assert!(r.ts.push(1_000 * MS).is_ok());
    r.engine.run_step();
    assert_eq!(r.engine.tempo().start_time, Some(1_000 * MS));
    assert_eq!(r.engine.tempo().current_position, 0);
}

#[test]
fn due_note_off_goes_out_even_when_position_stays() {
    let mut r = rig();
    start_one_note(&mut r);
    r.engine.set_play();
    let t = r.engine.tempo();
    assert_eq!(t.prev_position, Some(t.current_position));
    r.engine.step_at(5_000 * MS);
    assert_eq!(r.engine.pending_count(), 0);
    let msgs = messages(&r.to_worker);
    assert_eq!(msgs.len(), 1);
    assert!(matches!(&msgs[0], Message::Note(n) if !n.on));
}
