//! A multi-producer, single-consumer message queue for real-time audio.
//!
//! The queue is a stack of boxed nodes, as in a Treiber stack, but the head
//! is guarded by vstd's verified spin lock rather than swapped with a bare
//! compare-and-swap: this crate holds no `unsafe` code. Each critical section
//! is a few pointer moves, yet the receiving thread may briefly spin while a
//! sender holds the lock, so the queue is not lock-free.
//!
//! Storage is allocated only when a payload is wrapped into an `Item`;
//! pushing an item, taking the whole stack and walking it never allocate, so
//! a real-time consumer can receive items and hand their storage back over
//! another queue.

use std::sync::Arc;
use vstd::prelude::*;
use vstd::rwlock::{RwLock, RwLockPredicate};

verus! {

/// One cell of the stack: a payload and the cell below it.
pub struct Node<T> {
    payload: T,
    child: Option<Box<Node<T>>>,
}

/// The payloads of a chain of nodes, from its first node to its last.
pub closed spec fn chain_view<T>(p: Option<Box<Node<T>>>) -> Seq<T>
    decreases p,
{
    match p {
        None => Seq::empty(),
        Some(b) => seq![b.payload] + chain_view(b.child),
    }
}

/// Reverses a chain in place, reusing every node.
fn reverse_chain<T>(list: Option<Box<Node<T>>>) -> (r: Option<Box<Node<T>>>)
    ensures
        chain_view(r) == chain_view(list).reverse(),
{
    let ghost orig = chain_view(list);
    let mut p = list;
    let mut q: Option<Box<Node<T>>> = None;
    while p.is_some()
        invariant
            orig.reverse() == chain_view(p).reverse() + chain_view(q),
        decreases chain_view(p).len(),
    {
        let mut b = p.unwrap();
        let ghost x = b.payload;
        let ghost rest = chain_view(b.child);
        let ghost tail = chain_view(q);
        p = b.child.take();
        b.child = q;
        q = Some(b);
        assert((seq![x] + rest).reverse() =~= rest.reverse() + seq![x]);
        assert(chain_view(q) =~= seq![x] + tail);
        assert(rest.reverse() + (seq![x] + tail) =~= (rest.reverse() + seq![x]) + tail);
    }
    assert(chain_view(q) =~= orig.reverse());
    q
}

/// Pushing `sent` one by one onto a chain, newest first.
pub open spec fn pushed<T>(chain: Seq<T>, sent: Seq<T>) -> Seq<T>
    decreases sent.len(),
{
    if sent.len() == 0 {
        chain
    } else {
        pushed(seq![sent[0]] + chain, sent.drop_first())
    }
}

/// Draining the stack yields, in order, what was in it followed by every
/// value sent since: the queue is first-in first-out for each producer, and
/// the values of any one producer keep the order in which it sent them.
pub proof fn lemma_drain_in_send_order<T>(chain: Seq<T>, sent: Seq<T>)
    ensures
        pushed(chain, sent).reverse() == chain.reverse() + sent,
    decreases sent.len(),
{
    if sent.len() == 0 {
        assert(chain.reverse() + sent =~= chain.reverse());
    } else {
        let c2 = seq![sent[0]] + chain;
        lemma_drain_in_send_order(c2, sent.drop_first());
        assert(c2.reverse() =~= chain.reverse() + seq![sent[0]]);
        assert(chain.reverse() + seq![sent[0]] + sent.drop_first() =~= chain.reverse() + sent);
    }
}

/// Owned storage for one value that can be pushed onto a queue without
/// allocating. It acts like a `Box`.
pub struct Item<T> {
    node: Box<Node<T>>,
}

impl<T> Item<T> {
    /// The value held.
    pub closed spec fn value(&self) -> T {
        self.node.payload
    }

    /// Wraps a value into an item. This allocates.
    pub fn make_item(payload: T) -> (r: Item<T>)
        ensures
            r.value() == payload,
    {
        Item { node: Box::new(Node { payload, child: None }) }
    }

    /// Borrows the value held.
    pub fn get(&self) -> (r: &T)
        ensures
            *r == self.value(),
    {
        &self.node.payload
    }

    /// Replaces the value held, keeping the storage.
    pub fn set(&mut self, payload: T)
        ensures
            final(self).value() == payload,
    {
        self.node.payload = payload;
    }

    /// Takes the value out, releasing the storage.
    pub fn into_inner(self) -> (r: T)
        ensures
            r == self.value(),
    {
        let Item { node } = self;
        let Node { payload, child: _ } = *node;
        payload
    }
}

/// The stack behind a queue: a chain of nodes, newest first.
pub struct Stack<T> {
    head: Option<Box<Node<T>>>,
}

impl<T> View for Stack<T> {
    type V = Seq<T>;

    /// The values on the stack, newest first.
    closed spec fn view(&self) -> Seq<T> {
        chain_view(self.head)
    }
}

impl<T> Stack<T> {
    /// An empty stack.
    pub fn new() -> (r: Stack<T>)
        ensures
            r@ == Seq::<T>::empty(),
    {
        Stack { head: None }
    }

    /// Pushes an item's storage on top; nothing is allocated.
    pub fn push_item(&mut self, item: Item<T>)
        ensures
            final(self)@ == seq![item.value()] + old(self)@,
    {
        let mut node = item.node;
        node.child = self.head.take();
        self.head = Some(node);
    }

    /// Takes every node off the stack, oldest first; nothing is allocated.
    pub fn drain(&mut self) -> (r: QueueItemIter<T>)
        ensures
            final(self)@ == Seq::<T>::empty(),
            r@ == old(self)@.reverse(),
    {
        let chain = self.head.take();
        QueueItemIter(reverse_chain(chain))
    }
}

/// The invariant a queue's lock keeps: any stack is allowed.
pub struct AnyStack;

impl<T> RwLockPredicate<Stack<T>> for AnyStack {
    open spec fn inv(self, v: Stack<T>) -> bool {
        true
    }
}

/// A lock-protected stack shared by the endpoints of one queue.
///
/// Producers push single nodes; the one consumer takes the whole stack at
/// once and reverses it, which restores the order of sending. What the
/// stack holds is shared between threads, so the endpoints' contracts say
/// nothing of it; `Stack` states the order that one lock holder sees.
pub struct Queue<T> {
    stack: RwLock<Stack<T>, AnyStack>,
}

/// The sending endpoint of a queue. It may be cloned for more producers.
pub struct Sender<T> {
    queue: Arc<Queue<T>>,
}

/// The receiving endpoint of a queue.
pub struct Receiver<T> {
    queue: Arc<Queue<T>>,
}

impl<T> Clone for Sender<T> {
    /// Another sender on the same queue.
    fn clone(&self) -> (r: Sender<T>)
        ensures
            r.shared() == self.shared(),
    {
        Sender { queue: Arc::clone(&self.queue) }
    }
}

impl<T> Sender<T> {
    /// The queue this endpoint sends on.
    pub closed spec fn shared(&self) -> Queue<T> {
        *self.queue
    }

    /// Sends a value. This allocates its storage.
    pub fn send(&self, payload: T) {
        self.queue.send(payload);
    }

    /// Sends the value held in an item. This does not allocate.
    pub fn send_item(&self, item: Item<T>) {
        self.queue.send_item(item);
    }
}

impl<T> Receiver<T> {
    /// The queue this endpoint receives from.
    pub closed spec fn shared(&self) -> Queue<T> {
        *self.queue
    }

    /// Takes every value waiting, in the order each producer sent them;
    /// walking the result releases their storage.
    pub fn recv(&self) -> QueueMoveIter<T> {
        self.queue.recv()
    }

    /// Takes every value waiting, in the order each producer sent them, as
    /// items whose storage can be sent on. Nothing is allocated.
    pub fn recv_items(&self) -> QueueItemIter<T> {
        self.queue.recv_items()
    }
}

impl<T> Queue<T> {
    /// Creates a queue and returns its two endpoints, which share it.
    pub fn new() -> (r: (Sender<T>, Receiver<T>))
        ensures
            r.0.shared() == r.1.shared(),
    {
        let stack: Stack<T> = Stack::new();
        let queue = Arc::new(Queue { stack: RwLock::new(stack, Ghost(AnyStack)) });
        let sender = Sender { queue: Arc::clone(&queue) };
        (sender, Receiver { queue })
    }

    fn send(&self, payload: T) {
        self.send_item(Item::make_item(payload));
    }

    fn send_item(&self, item: Item<T>) {
        let (mut stack, handle) = self.stack.acquire_write();
        stack.push_item(item);
        handle.release_write(stack);
    }

    fn pop_all(&self) -> (r: QueueItemIter<T>) {
        let (mut stack, handle) = self.stack.acquire_write();
        let items = stack.drain();
        handle.release_write(stack);
        items
    }

    fn recv(&self) -> QueueMoveIter<T> {
        let QueueItemIter(chain) = self.pop_all();
        QueueMoveIter(chain)
    }

    fn recv_items(&self) -> QueueItemIter<T> {
        self.pop_all()
    }
}

/// The items taken off a queue by one `recv_items` call, oldest first.
pub struct QueueItemIter<T>(Option<Box<Node<T>>>);

impl<T> View for QueueItemIter<T> {
    type V = Seq<T>;

    closed spec fn view(&self) -> Seq<T> {
        chain_view(self.0)
    }
}

impl<T> QueueItemIter<T> {
    /// The next item, or `None` once all have been handed out.
    pub fn next(&mut self) -> (r: Option<Item<T>>)
        ensures
            old(self)@.len() == 0 ==> r is None && final(self)@ == old(self)@,
            old(self)@.len() > 0 ==> r is Some && r->0.value() == old(self)@[0] && final(self)@
                == old(self)@.drop_first(),
    {
        match self.0.take() {
            None => None,
            Some(mut node) => {
                self.0 = node.child.take();
                proof {
                    assert(old(self)@.drop_first() =~= chain_view(self.0));
                }
                Some(Item { node })
            },
        }
    }
}

/// The values taken off a queue by one `recv` call, oldest first.
pub struct QueueMoveIter<T>(Option<Box<Node<T>>>);

impl<T> View for QueueMoveIter<T> {
    type V = Seq<T>;

    closed spec fn view(&self) -> Seq<T> {
        chain_view(self.0)
    }
}

impl<T> QueueMoveIter<T> {
    /// The next value, or `None` once all have been handed out.
    pub fn next(&mut self) -> (r: Option<T>)
        ensures
            old(self)@.len() == 0 ==> r is None && final(self)@ == old(self)@,
            old(self)@.len() > 0 ==> r == Some(old(self)@[0]) && final(self)@
                == old(self)@.drop_first(),
    {
        match self.0.take() {
            None => None,
            Some(node) => {
                let Node { payload, child } = *node;
                self.0 = child;
                proof {
                    assert(old(self)@.drop_first() =~= chain_view(self.0));
                }
                Some(payload)
            },
        }
    }
}

} // verus!
