use redaw::graph::Graph;
use redaw::message::{Message, ModuleKind, Node, Note, SetParam};
use redaw::queue::Receiver;
use redaw::timesync::TimeSync;
use redaw::worker::{Control, Worker};

fn node(id: usize, audio_in: Vec<(usize, usize)>, ctrl_in: Vec<(usize, usize)>) -> Node {
    Node { id, module: ModuleKind::Sum, audio_in, ctrl_in }
}

fn count(rx: &Receiver<Message>) -> usize {
    let mut it = rx.recv();
    let mut n = 0;
    while it.next().is_some() {
        n += 1;
    }
    n
}

fn position(order: &[usize], id: usize) -> usize {
    order.iter().position(|x| *x == id).unwrap()
}

#[test]
fn empty_graph_has_nothing_to_evaluate() {
    let g = Graph::new(8);
    assert_eq!(g.len(), 8);
    assert!(!g.is_present(0));
    assert!(g.eval_order(0).is_empty());
}

#[test]
fn eval_order_puts_sources_first() {
    let (mut w, _tx, _rx, _ts) = Worker::create(16);
    w.handle_node(node(0, vec![(3, 0)], vec![]));
    w.handle_node(node(3, vec![(1, 0)], vec![(2, 0)]));
    w.handle_node(node(1, vec![], vec![(2, 0)]));
    w.handle_node(node(2, vec![], vec![]));
    w.handle_node(node(9, vec![], vec![]));
    let order = w.order();
    assert_eq!(order.len(), 4);
    assert!(position(&order, 2) < position(&order, 1));
    assert!(position(&order, 1) < position(&order, 3));
    assert!(position(&order, 3) < position(&order, 0));
    assert!(!order.contains(&9));
}

#[test]
fn dangling_inputs_are_not_waited_for() {
    let (mut w, _tx, _rx, _ts) = Worker::create(16);
    w.handle_node(node(0, vec![(7, 0), (500, 0)], vec![]));
    assert_eq!(w.order(), vec![0]);
    assert!(w.graph().node_sources(0) == vec![7, 500]);
}

#[test]
fn cycles_are_left_out() {
    let (mut w, _tx, _rx, _ts) = Worker::create(8);
    w.handle_node(node(0, vec![(1, 0)], vec![]));
    w.handle_node(node(1, vec![(2, 0)], vec![]));
    w.handle_node(node(2, vec![(1, 0)], vec![]));
    assert!(w.order().is_empty());
}

#[test]
fn replacing_a_node_returns_the_old_one() {
    let (mut w, tx, rx, _ts) = Worker::create(8);
    for _ in 0..10_000 {
        tx.send(Message::Node(node(1, vec![], vec![])));
    }
    let mut out = Vec::new();
    w.receive(&mut out);
    assert!(out.is_empty());
    assert_eq!(count(&rx), 9_999);
    assert!(w.graph().is_present(1));
}

#[test]
fn param_to_unknown_node_is_dropped() {
    let (mut w, tx, rx, _ts) = Worker::create(8);
    tx.send(Message::SetParam(SetParam { id: 99_999, param_ix: 0, value: 0, timestamp: 0 }));
    let mut out = Vec::new();
    w.receive(&mut out);
    assert!(out.is_empty());
    assert_eq!(count(&rx), 1);
}

#[test]
fn param_and_notes_reach_present_modules() {
    let (mut w, tx, rx, _ts) = Worker::create(8);
    w.handle_node(node(2, vec![], vec![]));
    w.handle_node(node(4, vec![], vec![]));
    let p = SetParam { id: 2, param_ix: 1, value: 7, timestamp: 3 };
    tx.send(Message::SetParam(p));
    tx.send(Message::Note(Note { ids: vec![4, 5, 2], midi: 60, velocity: 90, on: true, timestamp: 0 }));
    tx.send(Message::Timestamp(5));
    let mut out = Vec::new();
    w.receive(&mut out);
    assert_eq!(
        out,
        vec![
            Control::Param(p),
            Control::Note { id: 4, midi: 60, velocity: 90, on: true },
            Control::Note { id: 2, midi: 60, velocity: 90, on: true },
        ]
    );
    assert_eq!(count(&rx), 3);
}

#[test]
fn node_beyond_the_graph_goes_back() {
    let (mut w, tx, rx, _ts) = Worker::create(4);
    tx.send(Message::Node(node(4, vec![], vec![])));
    let mut out = Vec::new();
    w.receive(&mut out);
    assert_eq!(count(&rx), 1);
    assert!(!w.graph().is_present(4));
}

#[test]
fn timestamps_reach_the_engine_end() {
    let (mut w, _tx, _rx, mut ts) = Worker::create(4);
    w.send_ts(10);
    w.send_ts(20);
    assert_eq!(ts.pop(), Some(10));
    assert_eq!(ts.pop(), None);
}

#[test]
fn handle_message_reports_requests() {
    let (mut w, _tx, rx, _ts) = Worker::create(4);
    w.handle_node(node(1, vec![], vec![]));
    let mut out = Vec::new();
    w.handle_message(Message::Note(Note { ids: vec![1], midi: 1, velocity: 2, on: false, timestamp: 0 }), &mut out);
    assert_eq!(out, vec![Control::Note { id: 1, midi: 1, velocity: 2, on: false }]);
    assert_eq!(count(&rx), 1);
}

#[test]
fn timesync_reports_each_tick() {
    let (mut m, rx) = TimeSync::new(64);
    assert_eq!(m.n_bufs_out(), 1);
    m.process();
    m.process();
    assert_eq!(m.time(), 128);
    let mut it = rx.recv();
    assert_eq!(it.next(), Some(0));
    assert_eq!(it.next(), Some(64));
    assert_eq!(it.next(), None);
}

#[test]
fn handle_message_installs_and_returns_evicted_node() {
    let (mut w, _tx, rx, _ts) = Worker::create(4);
    let mut out = Vec::new();
    w.handle_message(Message::Node(node(2, vec![(1, 0)], vec![])), &mut out);
    assert!(w.graph().is_present(2));
    assert_eq!(count(&rx), 0);
    w.handle_message(Message::Node(node(2, vec![], vec![])), &mut out);
    assert!(w.graph().node_sources(2).is_empty());
    assert_eq!(count(&rx), 1);
    assert!(out.is_empty());
}

#[test]
fn rewired_mark_follows_installs() {
    let (mut w, tx, _rx, _ts) = Worker::create(4);
    assert!(w.take_rewired());
    assert!(!w.take_rewired());
    tx.send(Message::Timestamp(1));
    let mut out = Vec::new();
    w.receive(&mut out);
    assert!(!w.take_rewired());
    tx.send(Message::Node(node(1, vec![], vec![])));
    w.receive(&mut out);
    assert!(w.take_rewired());
}
