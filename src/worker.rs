//! The real-time side: applies the messages that arrive from the engine to
//! the graph, hands every message's storage back without freeing it, and
//! publishes timestamps.

use crate::graph::{node_of, Graph};
use crate::message::{Message, Node, SetParam};
use crate::queue::{Item, Queue, Receiver, Sender};
use crate::ring::timestamp_ring;
use vstd::prelude::*;

verus! {

/// What a message asks of one module that is in the graph.
#[derive(Clone, Copy, Debug, PartialEq, Eq, Structural)]
pub enum Control {
    /// Set a parameter.
    Param(SetParam),
    /// A note on or off for module `id`; the pitch is an `f32` bit pattern.
    Note { id: usize, midi: u32, velocity: u8, on: bool },
}

/// The module requests that message `m` makes of graph `g`: a parameter
/// change for a node in the graph; a note for each listed node in the graph,
/// in order. Messages to nodes not in the graph are dropped.
pub open spec fn controls_for(g: Graph, m: Message) -> Seq<Control> {
    match m {
        Message::SetParam(p) => if g.present(p.id as int) {
            seq![Control::Param(p)]
        } else {
            Seq::empty()
        },
        Message::Note(n) => n.ids@.filter(|id: usize| g.present(id as int)).map_values(
            |id: usize| Control::Note { id, midi: n.midi, velocity: n.velocity, on: n.on },
        ),
        _ => Seq::empty(),
    }
}

/// The audio worker: owns the graph and the real-time ends of the queues.
pub struct Worker {
    to_worker: Receiver<Message>,
    from_worker: Sender<Message>,
    ts_sender: ringbuf::Producer<u128>,
    graph: Graph,
    root: usize,
    /// Whether a node was installed since the last call of `take_rewired`.
    rewired: bool,
    /// Every message whose storage went back to the engine, oldest first.
    returned: Ghost<Seq<Message>>,
}

impl Worker {
    pub closed spec fn spec_graph(&self) -> Graph {
        self.graph
    }

    pub closed spec fn returned_log(&self) -> Seq<Message> {
        self.returned@
    }

    pub closed spec fn spec_root(&self) -> usize {
        self.root
    }

    /// The queue the worker receives messages from.
    pub closed spec fn inbound(&self) -> Queue<Message> {
        self.to_worker.shared()
    }

    /// The queue the worker sends storage back on.
    pub closed spec fn outbound(&self) -> Queue<Message> {
        self.from_worker.shared()
    }

    pub closed spec fn spec_rewired(&self) -> bool {
        self.rewired
    }

    pub open spec fn wf(&self) -> bool {
        self.spec_graph().wf()
    }

    /// Whether `new`, with module requests `out1`, is what applying message
    /// `m` makes of `old` with requests `out0`: the requests `m` makes are
    /// appended; a node within the graph's slots is installed and the storage
    /// it evicts goes back; any other message goes back itself.
    pub open spec fn applied(old: Worker, new: Worker, out0: Seq<Control>, out1: Seq<Control>, m: Message) -> bool {
        &&& new.wf()
        &&& new.spec_root() == old.spec_root()
        &&& new.spec_graph().size() == old.spec_graph().size()
        &&& out1 == out0 + controls_for(old.spec_graph(), m)
        &&& match node_of(m) {
            Some(n) if n.id < old.spec_graph().size() => {
                &&& new.spec_graph().node(n.id as int) == Some(n)
                &&& forall|j: int|
                    0 <= j < old.spec_graph().size() && j != n.id ==> new.spec_graph().slot(j)
                        == old.spec_graph().slot(j)
                &&& new.returned_log() == match old.spec_graph().slot(n.id as int) {
                    Some(o) => old.returned_log().push(o.value()),
                    None => old.returned_log(),
                }
            },
            _ => {
                &&& new.spec_graph() == old.spec_graph()
                &&& new.returned_log() == old.returned_log().push(m)
            },
        }
    }

    /// Whether `new`, with requests `out1`, is what applying some sequence of
    /// messages, one after another, makes of `old` with requests `out0`.
    pub open spec fn applied_all(old: Worker, new: Worker, out0: Seq<Control>, out1: Seq<Control>) -> bool {
        exists|ws: Seq<Worker>, outs: Seq<Seq<Control>>, ms: Seq<Message>|
            {
                &&& ws.len() == ms.len() + 1
                &&& outs.len() == ms.len() + 1
                &&& ws[0] == old
                &&& outs[0] == out0
                &&& ws.last() == new
                &&& outs.last() == out1
                &&& forall|i: int|
                    0 <= i < ms.len() ==> #[trigger] Worker::applied(ws[i], ws[i + 1], outs[i], outs[i + 1], ms[i])
            }
    }

    /// A worker whose graph has `max_size` empty slots and whose root is the
    /// master node 0, with the engine's ends of its queues and of its
    /// timestamp ring.
    pub fn create(max_size: usize) -> (r: (Worker, Sender<Message>, Receiver<Message>, ringbuf::Consumer<u128>))
        ensures
            r.0.wf(),
            r.0.spec_graph().size() == max_size,
            forall|id: int| 0 <= id < max_size ==> !r.0.spec_graph().present(id),
            r.0.spec_root() == 0,
            r.0.spec_rewired(),
            r.0.returned_log() == Seq::<Message>::empty(),
            r.1.shared() == r.0.inbound(),
            r.2.shared() == r.0.outbound(),
    {
        let (tx, to_worker) = Queue::new();
        let (from_worker, rx) = Queue::new();
        let (ts_sender, ts_receiver) = timestamp_ring();
        let graph = Graph::new(max_size);
        let worker = Worker { to_worker, from_worker, ts_sender, graph, root: 0, rewired: true, returned: Ghost(Seq::empty()) };
        (worker, tx, rx, ts_receiver)
    }

    /// The graph.
    pub fn graph(&self) -> (r: &Graph)
        ensures
            *r == self.spec_graph(),
    {
        &self.graph
    }

    /// Sends an item's storage back to the engine.
    fn give_back(&mut self, item: Item<Message>)
        ensures
            final(self).returned_log() == old(self).returned_log().push(item.value()),
            final(self).spec_graph() == old(self).spec_graph(),
            final(self).spec_root() == old(self).spec_root(),
            final(self).spec_rewired() == old(self).spec_rewired(),
    {
        let ghost v = item.value();
        self.from_worker.send_item(item);
        self.returned = Ghost(self.returned@.push(v));
    }

    /// Applies one message. A node is installed in its slot and the storage
    /// it evicts goes back to the engine; every other message, and a node
    /// beyond the graph's slots, goes back itself after the module requests
    /// it makes are appended to `out`.
    pub fn handle_item(&mut self, item: Item<Message>, out: &mut Vec<Control>)
        requires
            old(self).wf(),
        ensures
            final(self).wf(),
            final(self).spec_root() == old(self).spec_root(),
            final(self).spec_graph().size() == old(self).spec_graph().size(),
            final(out)@ == old(out)@ + controls_for(old(self).spec_graph(), item.value()),
            match node_of(item.value()) {
                Some(n) if n.id < old(self).spec_graph().size() => {
                    &&& final(self).spec_graph().slot(n.id as int) == Some(item)
                    &&& forall|j: int|
                        0 <= j < old(self).spec_graph().size() && j != n.id ==> final(self).spec_graph().slot(j)
                            == old(self).spec_graph().slot(j)
                    &&& final(self).returned_log() == match old(self).spec_graph().slot(n.id as int) {
                        Some(o) => old(self).returned_log().push(o.value()),
                        None => old(self).returned_log(),
                    }
                },
                _ => {
                    &&& final(self).spec_graph() == old(self).spec_graph()
                    &&& final(self).returned_log() == old(self).returned_log().push(item.value())
                },
            },
            Worker::applied(*old(self), *final(self), old(out)@, final(out)@, item.value()),
            final(self).spec_rewired() == (old(self).spec_rewired() || (node_of(item.value()) matches Some(n)
                && n.id < old(self).spec_graph().size())),
    {
        let mut install: Option<usize> = None;
        match item.get() {
            Message::Node(n) => {
                install = Some(n.id);
            },
            Message::SetParam(p) => {
                if self.graph.is_present(p.id) {
                    out.push(Control::Param(*p));
                }
            },
            Message::Note(n) => {
                let ghost base = out@;
                let ghost pred = |id: usize| self.graph.present(id as int);
                let ghost f = |id: usize| Control::Note { id, midi: n.midi, velocity: n.velocity, on: n.on };
                let mut i: usize = 0;
                while i < n.ids.len()
                    invariant
                        self.graph.wf(),
                        i <= n.ids@.len(),
                        pred == (|id: usize| self.graph.present(id as int)),
                        f == (|id: usize| Control::Note { id, midi: n.midi, velocity: n.velocity, on: n.on }),
                        out@ == base + n.ids@.take(i as int).filter(pred).map_values(f),
                    decreases n.ids@.len() - i,
                {
                    let id = n.ids[i];
                    proof {
                        assert(n.ids@.take(i + 1) =~= n.ids@.take(i as int).push(id));
                        n.ids@.take(i as int).lemma_filter_push(id, pred);
                    }
                    if self.graph.is_present(id) {
                        out.push(Control::Note { id, midi: n.midi, velocity: n.velocity, on: n.on });
                        proof {
                            let fl = n.ids@.take(i as int).filter(pred);
                            assert(pred(id));
                            assert(n.ids@.take(i + 1).filter(pred) == fl.push(id));
                            assert(fl.push(id).map_values(f) =~= fl.map_values(f).push(f(id)));
                            assert(f(id) == Control::Note { id, midi: n.midi, velocity: n.velocity, on: n.on });
                            assert((base + fl.map_values(f)).push(f(id)) =~= base + fl.map_values(f).push(f(id)));
                            assert(out@ =~= base + n.ids@.take(i + 1).filter(pred).map_values(f));
                        }
                    } else {
                        proof {
                            assert(!pred(id));
                            assert(out@ =~= base + n.ids@.take(i + 1).filter(pred).map_values(f));
                        }
                    }
                    i += 1;
                }
                proof {
                    assert(n.ids@.take(n.ids@.len() as int) =~= n.ids@);
                }
            },
            Message::Timestamp(_) => {},
        }
        proof {
            if !(item.value() is Note) && !(item.value() is SetParam && self.graph.present(item.value()->SetParam_0.id as int)) {
                assert(out@ =~= old(out)@ + controls_for(old(self).spec_graph(), item.value()));
            }
            if item.value() is SetParam && self.graph.present(item.value()->SetParam_0.id as int) {
                assert(out@ =~= old(out)@ + controls_for(old(self).spec_graph(), item.value()));
            }
        }
        match install {
            Some(id) => {
                if id < self.graph.len() {
                    let evicted = self.graph.replace(id, Some(item));
                    self.rewired = true;
                    match evicted {
                        Some(o) => self.give_back(o),
                        None => {},
                    }
                } else {
                    self.give_back(item);
                }
            },
            None => self.give_back(item),
        }
    }

    /// Applies a message before any work starts. This allocates.
    pub fn handle_message(&mut self, msg: Message, out: &mut Vec<Control>)
        requires
            old(self).wf(),
        ensures
            Worker::applied(*old(self), *final(self), old(out)@, final(out)@, msg),
    {
        self.handle_item(Item::make_item(msg), out);
    }

    /// Installs a node before any work starts. This allocates.
    pub fn handle_node(&mut self, node: Node)
        requires
            old(self).wf(),
            node.id < old(self).spec_graph().size(),
        ensures
            final(self).wf(),
            final(self).spec_root() == old(self).spec_root(),
            final(self).spec_graph().size() == old(self).spec_graph().size(),
            final(self).spec_graph().node(node.id as int) == Some(node),
            forall|j: int|
                0 <= j < old(self).spec_graph().size() && j != node.id ==> final(self).spec_graph().slot(j)
                    == old(self).spec_graph().slot(j),
            final(self).returned_log() == match old(self).spec_graph().slot(node.id as int) {
                Some(o) => old(self).returned_log().push(o.value()),
                None => old(self).returned_log(),
            },
    {
        let mut out: Vec<Control> = Vec::new();
        self.handle_item(Item::make_item(Message::Node(node)), &mut out);
    }

    /// Applies every message waiting, in the order each producer sent them,
    /// appending the module requests they make to `out`. Nothing is freed:
    /// all storage is kept in the graph or sent back.
    pub fn receive(&mut self, out: &mut Vec<Control>)
        requires
            old(self).wf(),
        ensures
            final(self).wf(),
            final(self).spec_root() == old(self).spec_root(),
            final(self).spec_graph().size() == old(self).spec_graph().size(),
            final(out)@.len() >= old(out)@.len(),
            final(out)@.take(old(out)@.len() as int) == old(out)@,
            Worker::applied_all(*old(self), *final(self), old(out)@, final(out)@),
    {
        let mut items = self.to_worker.recv_items();
        let ghost mut ws: Seq<Worker> = seq![*self];
        let ghost mut outs: Seq<Seq<Control>> = seq![out@];
        let ghost mut ms: Seq<Message> = Seq::empty();
        loop
            invariant
                self.wf(),
                self.root == old(self).root,
                self.graph.size() == old(self).graph.size(),
                out@.len() >= old(out)@.len(),
                out@.take(old(out)@.len() as int) == old(out)@,
                ws.len() == ms.len() + 1,
                outs.len() == ms.len() + 1,
                ws[0] == *old(self),
                outs[0] == old(out)@,
                ws.last() == *self,
                outs.last() == out@,
                forall|i: int|
                    0 <= i < ms.len() ==> #[trigger] Worker::applied(ws[i], ws[i + 1], outs[i], outs[i + 1], ms[i]),
            decreases items@.len(),
        {
            let ghost before = out@;
            match items.next() {
                Some(item) => {
                    let ghost w0 = *self;
                    let ghost m = item.value();
                    self.handle_item(item, out);
                    proof {
                        assert(out@.take(old(out)@.len() as int) =~= before.take(old(out)@.len() as int));
                        let ws2 = ws.push(*self);
                        let outs2 = outs.push(out@);
                        let ms2 = ms.push(m);
                        assert forall|i: int| 0 <= i < ms2.len() implies #[trigger] Worker::applied(
                            ws2[i],
                            ws2[i + 1],
                            outs2[i],
                            outs2[i + 1],
                            ms2[i],
                        ) by {
                            if i < ms.len() {
                                assert(ws2[i] == ws[i] && ws2[i + 1] == ws[i + 1]);
                                assert(outs2[i] == outs[i] && outs2[i + 1] == outs[i + 1]);
                                assert(Worker::applied(ws[i], ws[i + 1], outs[i], outs[i + 1], ms[i]));
                            } else {
                                assert(ws2[i] == w0);
                            }
                        }
                        ws = ws2;
                        outs = outs2;
                        ms = ms2;
                    }
                },
                None => break,
            }
        }
        proof {
            assert(Worker::applied_all(*old(self), *self, old(out)@, out@)) by {
                assert(ws[0] == *old(self));
            }
        }
    }

    /// Whether a node was installed since the last call; clears the mark.
    /// The evaluation order needs computing again only then.
    pub fn take_rewired(&mut self) -> (r: bool)
        ensures
            r == old(self).spec_rewired(),
            !final(self).spec_rewired(),
            final(self).spec_graph() == old(self).spec_graph(),
            final(self).spec_root() == old(self).spec_root(),
            final(self).returned_log() == old(self).returned_log(),
    {
        let r = self.rewired;
        self.rewired = false;
        r
    }

    /// The order in which to evaluate the graph from its root.
    pub fn order(&self) -> (r: Vec<usize>)
        requires
            self.wf(),
        ensures
            self.spec_graph().is_eval_order(r@),
            self.spec_graph().covers(r@, self.spec_root() as int),
    {
        self.graph.eval_order(self.root)
    }

    /// Publishes the wall-clock time of the chunk about to be produced. When
    /// the engine has not read the previous one yet, this one is dropped.
    pub fn send_ts(&mut self, ts: u128)
        ensures
            final(self).spec_graph() == old(self).spec_graph(),
            final(self).returned_log() == old(self).returned_log(),
    {
        let _ = self.ts_sender.push(ts);
    }
}

} // verus!
