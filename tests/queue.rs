use redaw::queue::{Item, Queue, QueueItemIter, QueueMoveIter};

fn drain<T>(mut it: QueueMoveIter<T>) -> Vec<T> {
    let mut out = Vec::new();
    while let Some(v) = it.next() {
        out.push(v);
    }
    out
}

fn drain_items<T>(mut it: QueueItemIter<T>) -> Vec<Item<T>> {
    let mut out = Vec::new();
    while let Some(v) = it.next() {
        out.push(v);
    }
    out
}

#[test]
fn single_producer_is_fifo() {
    let (tx, rx) = Queue::new();
    for v in 1..=5u32 {
        tx.send(v);
    }
    assert_eq!(drain(rx.recv()), vec![1, 2, 3, 4, 5]);
    assert!(drain(rx.recv()).is_empty());
}

#[test]
fn each_producer_keeps_its_order() {
    let (tx, rx) = Queue::new();
    let tx2 = tx.clone();
    tx.send(10u32);
    tx2.send(20);
    tx.send(11);
    tx2.send(21);
    tx.send(12);
    let got = drain(rx.recv());
    assert_eq!(got, vec![10, 20, 11, 21, 12]);
    let a: Vec<u32> = got.iter().copied().filter(|v| *v < 20).collect();
    let b: Vec<u32> = got.iter().copied().filter(|v| *v >= 20).collect();
    assert_eq!(a, vec![10, 11, 12]);
    assert_eq!(b, vec![20, 21]);
}

#[test]
fn items_can_be_sent_back_unchanged() {
    let (tx, rx) = Queue::new();
    let (back_tx, back_rx) = Queue::new();
    tx.send(String::from("a"));
    tx.send(String::from("b"));
    for item in drain_items(rx.recv_items()) {
        back_tx.send_item(item);
    }
    assert_eq!(drain(back_rx.recv()), vec![String::from("a"), String::from("b")]);
}

#[test]
fn item_holds_and_replaces_its_value() {
    let mut item = Item::make_item(7u64);
    assert_eq!(*item.get(), 7);
    item.set(9);
    assert_eq!(*item.get(), 9);
    assert_eq!(item.into_inner(), 9);
}

#[test]
fn empty_queue_yields_nothing() {
    let (_tx, rx) = Queue::<u8>::new();
    assert!(drain_items(rx.recv_items()).is_empty());
}
