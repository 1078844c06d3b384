//! The worker's graph: node storage indexed by identifier, and the order in
//! which the nodes feeding a root are evaluated.

use crate::message::{Message, Node};
use crate::queue::Item;
use vstd::prelude::*;

verus! {

/// The node held by a message, if it holds one.
pub open spec fn node_of(m: Message) -> Option<Node> {
    match m {
        Message::Node(n) => Some(n),
        _ => None,
    }
}

/// The nodes that feed `n`: the sources of its audio inputs, then those of
/// its control inputs.
pub open spec fn sources(n: Node) -> Seq<usize> {
    n.audio_in@.map_values(|p: (usize, usize)| p.0) + n.ctrl_in@.map_values(|p: (usize, usize)| p.0)
}

/// The number of marks that are set.
pub open spec fn count_true(s: Seq<bool>) -> nat
    decreases s.len(),
{
    if s.len() == 0 {
        0
    } else {
        count_true(s.drop_last()) + if s.last() { 1nat } else { 0nat }
    }
}

/// Setting an unset mark adds one to the count.
proof fn lemma_count_set(s: Seq<bool>, i: int)
    requires
        0 <= i < s.len(),
        !s[i],
    ensures
        count_true(s.update(i, true)) == count_true(s) + 1,
    decreases s.len(),
{
    let t = s.update(i, true);
    if i == s.len() - 1 {
        assert(t.drop_last() =~= s.drop_last());
    } else {
        lemma_count_set(s.drop_last(), i);
        assert(t.drop_last() =~= s.drop_last().update(i, true));
    }
}

/// No more marks are set than there are marks.
proof fn lemma_count_le(s: Seq<bool>)
    ensures
        count_true(s) <= s.len(),
    decreases s.len(),
{
    if s.len() > 0 {
        lemma_count_le(s.drop_last());
    }
}

/// A fixed number of slots, each empty or holding the storage of the node
/// whose identifier is the slot's index.
pub struct Graph {
    slots: Vec<Option<Item<Message>>>,
}

impl Graph {
    /// The number of slots.
    pub closed spec fn size(&self) -> nat {
        self.slots@.len()
    }

    /// The storage in slot `id`.
    pub closed spec fn slot(&self, id: int) -> Option<Item<Message>> {
        self.slots@[id]
    }

    /// The node in slot `id`, if any.
    pub open spec fn node(&self, id: int) -> Option<Node> {
        match self.slot(id) {
            Some(item) => node_of(item.value()),
            None => None,
        }
    }

    /// Whether slot `id` exists and holds a node.
    pub open spec fn present(&self, id: int) -> bool {
        0 <= id < self.size() && self.node(id) is Some
    }

    /// Every occupied slot holds a node whose identifier is the slot's index.
    pub open spec fn wf(&self) -> bool {
        forall|id: int|
            0 <= id < self.size() && (#[trigger] self.slot(id)) is Some ==> (self.node(id) matches Some(n)
                && n.id == id)
    }

    /// Whether every present node that feeds the node at position `p` of
    /// `order` comes earlier in `order`.
    pub open spec fn fed_before(&self, order: Seq<usize>, p: int) -> bool {
        let src = sources(self.node(order[p] as int)->0);
        forall|k: int|
            0 <= k < src.len() && self.present(#[trigger] src[k] as int) ==> exists|q: int|
                0 <= q < p && #[trigger] order[q] == src[k]
    }

    /// Whether `order` is an evaluation order: distinct present nodes, each
    /// after every present node that feeds it.
    pub open spec fn is_eval_order(&self, order: Seq<usize>) -> bool {
        &&& forall|p: int| 0 <= p < order.len() ==> self.present(#[trigger] order[p] as int)
        &&& forall|p: int, q: int| 0 <= p < q < order.len() ==> order[p] != order[q]
        &&& forall|p: int| 0 <= p < order.len() ==> #[trigger] self.fed_before(order, p)
    }

    /// The nodes that feed node `x`.
    pub open spec fn srcs_of(&self, x: int) -> Seq<usize> {
        sources(self.node(x)->0)
    }

    /// Whether every present node that feeds `x` is marked in `marks`.
    pub open spec fn fed_in(&self, marks: Seq<bool>, x: int) -> bool {
        forall|k: int|
            0 <= k < self.srcs_of(x).len() && self.present(#[trigger] self.srcs_of(x)[k] as int) ==> marks[self.srcs_of(
                x,
            )[k] as int]
    }

    /// Whether, when `x` is a marked node, every present node that feeds it
    /// is marked too.
    pub open spec fn fed_in_if_marked(&self, marks: Seq<bool>, x: int) -> bool {
        marks[x] && self.present(x) ==> self.fed_in(marks, x)
    }

    /// Whether the marks are closed under inputs: every present node that
    /// feeds a marked node is marked.
    pub open spec fn closed_under_inputs(&self, marks: Seq<bool>) -> bool {
        forall|x: int| 0 <= x < marks.len() ==> #[trigger] self.fed_in_if_marked(marks, x)
    }

    /// Whether every present node that feeds `x` is in `order`.
    pub open spec fn fed_by_order(&self, order: Seq<usize>, x: int) -> bool {
        forall|k: int|
            0 <= k < self.srcs_of(x).len() && self.present(#[trigger] self.srcs_of(x)[k] as int) ==> order.contains(
                self.srcs_of(x)[k],
            )
    }

    /// Whether node `x` cannot be added to the evaluation: it is not reached,
    /// already emitted, absent, or waits for an input not yet emitted.
    pub open spec fn settled(&self, reach: Seq<bool>, emitted: Seq<bool>, x: int) -> bool {
        !(reach[x] && !emitted[x] && self.present(x) && self.fed_in(emitted, x))
    }

    /// Whether `order` covers what `root` depends on, as seen through the
    /// marks `reach`: they hold `root` when present and are closed under
    /// inputs, the order stays within them, and every marked present node
    /// whose present inputs are all in the order is in it.
    pub open spec fn covers_with(&self, order: Seq<usize>, root: int, reach: Seq<bool>) -> bool {
        &&& reach.len() == self.size()
        &&& self.present(root) ==> reach[root]
        &&& self.closed_under_inputs(reach)
        &&& forall|p: int| 0 <= p < order.len() ==> reach[#[trigger] order[p] as int]
        &&& forall|x: int|
            0 <= x < self.size() && reach[x] && self.present(x) && self.fed_by_order(order, x) ==> order.contains(
                x as usize,
            )
    }

    /// Whether `order` covers what `root` depends on, for some closed set of
    /// marks that holds `root`.
    pub open spec fn covers(&self, order: Seq<usize>, root: int) -> bool {
        exists|reach: Seq<bool>| self.covers_with(order, root, reach)
    }

    /// A graph of `max_size` empty slots.
    pub fn new(max_size: usize) -> (r: Graph)
        ensures
            r.wf(),
            r.size() == max_size,
            forall|id: int| 0 <= id < max_size ==> r.slot(id) is None,
    {
        let mut slots: Vec<Option<Item<Message>>> = Vec::new();
        let mut i: usize = 0;
        while i < max_size
            invariant
                i <= max_size,
                slots@.len() == i,
                forall|id: int| 0 <= id < i ==> slots@[id] is None,
            decreases max_size - i,
        {
            slots.push(None);
            i += 1;
        }
        Graph { slots }
    }

    /// The number of slots.
    pub fn len(&self) -> (r: usize)
        ensures
            r == self.size(),
    {
        self.slots.len()
    }

    /// Whether slot `id` exists and holds a node.
    pub fn is_present(&self, id: usize) -> (r: bool)
        requires
            self.wf(),
        ensures
            r == self.present(id as int),
    {
        if id >= self.slots.len() {
            return false;
        }
        match &self.slots[id] {
            None => false,
            Some(item) => match item.get() {
                Message::Node(_) => true,
                _ => false,
            },
        }
    }

    /// Puts `item` in slot `id` and returns what the slot held.
    pub fn replace(&mut self, id: usize, item: Option<Item<Message>>) -> (r: Option<Item<Message>>)
        requires
            old(self).wf(),
            id < old(self).size(),
            item matches Some(it) ==> (node_of(it.value()) matches Some(n) && n.id == id),
        ensures
            final(self).wf(),
            final(self).size() == old(self).size(),
            r == old(self).slot(id as int),
            final(self).slot(id as int) == item,
            forall|j: int| 0 <= j < old(self).size() && j != id ==> final(self).slot(j) == old(self).slot(j),
    {
        self.slots.push(None);
        let old_item = self.slots.swap_remove(id);
        self.slots.set(id, item);
        proof {
            assert forall|j: int| 0 <= j < self.slots@.len() && (#[trigger] self.slot(j)) is Some implies (self.node(
                j,
            ) matches Some(n) && n.id == j) by {
                if j != id {
                    assert(self.slot(j) == old(self).slot(j));
                }
            }
        }
        old_item
    }

    /// The node in slot `id`, if the slot exists and holds one.
    pub fn get_node(&self, id: usize) -> (r: Option<&Node>)
        requires
            self.wf(),
        ensures
            r is None <==> !self.present(id as int),
            r matches Some(n) ==> self.node(id as int) == Some(*n),
    {
        if id >= self.slots.len() {
            return None;
        }
        match &self.slots[id] {
            None => None,
            Some(item) => match item.get() {
                Message::Node(n) => Some(n),
                _ => None,
            },
        }
    }

    /// The nodes that feed node `id`.
    pub fn node_sources(&self, id: usize) -> (r: Vec<usize>)
        requires
            self.present(id as int),
        ensures
            r@ == sources(self.node(id as int)->0),
    {
        let mut out: Vec<usize> = Vec::new();
        match &self.slots[id] {
            None => {},
            Some(item) => match item.get() {
                Message::Node(n) => {
                    let mut i: usize = 0;
                    while i < n.audio_in.len()
                        invariant
                            i <= n.audio_in@.len(),
                            out@ == n.audio_in@.take(i as int).map_values(|p: (usize, usize)| p.0),
                        decreases n.audio_in@.len() - i,
                    {
                        out.push(n.audio_in[i].0);
                        proof {
                            assert(n.audio_in@.take(i + 1) =~= n.audio_in@.take(i as int).push(n.audio_in@[i as int]));
                            assert(out@ =~= n.audio_in@.take(i + 1).map_values(|p: (usize, usize)| p.0));
                        }
                        i += 1;
                    }
                    assert(n.audio_in@.take(n.audio_in@.len() as int) =~= n.audio_in@);
                    let ghost a = out@;
                    let mut j: usize = 0;
                    while j < n.ctrl_in.len()
                        invariant
                            j <= n.ctrl_in@.len(),
                            out@ == a + n.ctrl_in@.take(j as int).map_values(|p: (usize, usize)| p.0),
                        decreases n.ctrl_in@.len() - j,
                    {
                        out.push(n.ctrl_in[j].0);
                        proof {
                            assert(n.ctrl_in@.take(j + 1) =~= n.ctrl_in@.take(j as int).push(n.ctrl_in@[j as int]));
                            assert(out@ =~= a + n.ctrl_in@.take(j + 1).map_values(|p: (usize, usize)| p.0));
                        }
                        j += 1;
                    }
                    assert(n.ctrl_in@.take(n.ctrl_in@.len() as int) =~= n.ctrl_in@);
                },
                _ => {},
            },
        }
        out
    }

    /// Whether every present node that feeds `id` is marked in `done`.
    fn all_fed(&self, id: usize, done: &Vec<bool>) -> (r: bool)
        requires
            self.wf(),
            self.present(id as int),
            done@.len() == self.size(),
        ensures
            r == self.fed_in(done@, id as int),
    {
        let srcs = self.node_sources(id);
        let mut k: usize = 0;
        while k < srcs.len()
            invariant
                self.wf(),
                srcs@ == self.srcs_of(id as int),
                done@.len() == self.size(),
                k <= srcs@.len(),
                forall|i: int| 0 <= i < k && self.present(srcs@[i] as int) ==> done@[srcs@[i] as int],
            decreases srcs@.len() - k,
        {
            let s = srcs[k];
            if self.is_present(s) && !done[s] {
                return false;
            }
            k += 1;
        }
        true
    }

    /// Marks, one per slot, all false.
    fn no_marks(n: usize) -> (r: Vec<bool>)
        ensures
            r@.len() == n,
            forall|x: int| 0 <= x < n ==> !r@[x],
            count_true(r@) == 0,
    {
        let mut marks: Vec<bool> = Vec::new();
        let mut i: usize = 0;
        while i < n
            invariant
                i <= n,
                marks@.len() == i,
                forall|x: int| 0 <= x < i ==> !marks@[x],
                count_true(marks@) == 0,
            decreases n - i,
        {
            let ghost before = marks@;
            marks.push(false);
            proof {
                assert(marks@.drop_last() =~= before);
            }
            i += 1;
        }
        marks
    }

    /// The nodes reachable from `root` through inputs, as marks by identifier.
    fn reachable(&self, root: usize) -> (r: Vec<bool>)
        requires
            self.wf(),
        ensures
            r@.len() == self.size(),
            self.present(root as int) ==> r@[root as int],
            forall|x: int| 0 <= x < r@.len() && r@[x] ==> self.present(x),
            self.closed_under_inputs(r@),
    {
        let n = self.slots.len();
        let mut reach = Graph::no_marks(n);
        if !self.is_present(root) {
            return reach;
        }
        proof {
            lemma_count_set(reach@, root as int);
        }
        reach.set(root, true);
        let mut changed = true;
        while changed
            invariant
                self.wf(),
                n == self.size(),
                reach@.len() == n,
                root < n,
                reach@[root as int],
                forall|x: int| 0 <= x < n && reach@[x] ==> self.present(x),
                count_true(reach@) <= n,
                !changed ==> self.closed_under_inputs(reach@),
            decreases n - count_true(reach@) + if changed { 1int } else { 0int },
        {
            let ghost c0 = count_true(reach@);
            changed = false;
            let mut x: usize = 0;
            while x < n
                invariant
                    self.wf(),
                    n == self.size(),
                    reach@.len() == n,
                    root < n,
                    reach@[root as int],
                    forall|y: int| 0 <= y < n && reach@[y] ==> self.present(y),
                    x <= n,
                    count_true(reach@) <= n,
                    changed ==> count_true(reach@) > c0,
                    !changed ==> count_true(reach@) == c0,
                    !changed ==> forall|y: int| 0 <= y < x ==> self.fed_in_if_marked(reach@, y),
                decreases n - x,
            {
                if reach[x] && self.is_present(x) {
                    let srcs = self.node_sources(x);
                    let mut k: usize = 0;
                    while k < srcs.len()
                        invariant
                            self.wf(),
                            n == self.size(),
                            reach@.len() == n,
                            root < n,
                            reach@[root as int],
                            reach@[x as int],
                            x < n,
                            forall|y: int| 0 <= y < n && reach@[y] ==> self.present(y),
                            srcs@ == self.srcs_of(x as int),
                            k <= srcs@.len(),
                            count_true(reach@) <= n,
                            changed ==> count_true(reach@) > c0,
                            !changed ==> count_true(reach@) == c0,
                            !changed ==> forall|y: int| 0 <= y < x ==> self.fed_in_if_marked(reach@, y),
                            !changed ==> forall|i: int|
                                0 <= i < k && self.present(srcs@[i] as int) ==> reach@[srcs@[i] as int],
                        decreases srcs@.len() - k,
                    {
                        let s = srcs[k];
                        if s < n && !reach[s] && self.is_present(s) {
                            proof {
                                lemma_count_set(reach@, s as int);
                                lemma_count_le(reach@.update(s as int, true));
                            }
                            reach.set(s, true);
                            changed = true;
                        }
                        k += 1;
                    }
                }
                proof {
                    if !changed {
                        assert(self.fed_in_if_marked(reach@, x as int));
                    }
                }
                x += 1;
            }
        }
        reach
    }

    /// An order in which to evaluate the nodes that `root` depends on, and
    /// `root` itself: each node comes after every present node that feeds
    /// it, and every reached node whose present inputs are all in the order
    /// is in it. Nodes on a cycle, and the nodes they feed, are left out; an
    /// input from an empty slot is not waited for.
    pub fn eval_order(&self, root: usize) -> (r: Vec<usize>)
        requires
            self.wf(),
        ensures
            self.is_eval_order(r@),
            self.covers(r@, root as int),
    {
        let n = self.slots.len();
        let reach = self.reachable(root);
        let mut emitted = Graph::no_marks(n);
        let mut order: Vec<usize> = Vec::new();
        let mut changed = true;
        while changed
            invariant
                self.wf(),
                n == self.size(),
                reach@.len() == n,
                emitted@.len() == n,
                self.present(root as int) ==> reach@[root as int],
                self.closed_under_inputs(reach@),
                self.is_eval_order(order@),
                count_true(emitted@) == order@.len(),
                count_true(emitted@) <= n,
                forall|p: int| 0 <= p < order@.len() ==> (#[trigger] order@[p]) < n && emitted@[order@[p] as int]
                    && reach@[order@[p] as int],
                forall|x: int| 0 <= x < n && #[trigger] emitted@[x] ==> order@.contains(x as usize),
                !changed ==> forall|x: int| 0 <= x < n ==> #[trigger] self.settled(reach@, emitted@, x),
            decreases n - count_true(emitted@) + if changed { 1int } else { 0int },
        {
            let ghost c0 = count_true(emitted@);
            changed = false;
            let mut x: usize = 0;
            while x < n
                invariant
                    self.wf(),
                    n == self.size(),
                    reach@.len() == n,
                    emitted@.len() == n,
                    x <= n,
                    self.is_eval_order(order@),
                    count_true(emitted@) == order@.len(),
                    count_true(emitted@) <= n,
                    changed ==> count_true(emitted@) > c0,
                    !changed ==> count_true(emitted@) == c0,
                    forall|p: int| 0 <= p < order@.len() ==> (#[trigger] order@[p]) < n && emitted@[order@[p] as int]
                        && reach@[order@[p] as int],
                    forall|y: int| 0 <= y < n && #[trigger] emitted@[y] ==> order@.contains(y as usize),
                    !changed ==> forall|y: int| 0 <= y < x ==> #[trigger] self.settled(reach@, emitted@, y),
                decreases n - x,
            {
                if reach[x] && !emitted[x] && self.is_present(x) && self.all_fed(x, &emitted) {
                    let ghost old_order = order@;
                    let ghost old_emitted = emitted@;
                    proof {
                        lemma_count_set(emitted@, x as int);
                        lemma_count_le(emitted@.update(x as int, true));
                    }
                    order.push(x);
                    emitted.set(x, true);
                    changed = true;
                    proof {
                        let o = order@;
                        assert(o == old_order.push(x));
                        assert forall|p: int, q: int| 0 <= p < q < o.len() implies o[p] != o[q] by {
                            if q == old_order.len() {
                                assert(old_emitted[o[p] as int]);
                            }
                        }
                        assert forall|p: int| 0 <= p < o.len() implies #[trigger] self.fed_before(o, p) by {
                            let src = sources(self.node(o[p] as int)->0);
                            if p < old_order.len() {
                                assert(self.fed_before(old_order, p));
                                assert forall|k: int| 0 <= k < src.len() && self.present(#[trigger] src[k] as int)
                                    implies exists|q: int| 0 <= q < p && #[trigger] o[q] == src[k] by {
                                    let q = choose|q: int| 0 <= q < p && #[trigger] old_order[q] == src[k];
                                    assert(o[q] == src[k]);
                                }
                            } else {
                                assert forall|k: int| 0 <= k < src.len() && self.present(#[trigger] src[k] as int)
                                    implies exists|q: int| 0 <= q < p && #[trigger] o[q] == src[k] by {
                                    assert(self.srcs_of(x as int) == src);
                                    assert(self.present(self.srcs_of(x as int)[k] as int));
                                    assert(old_emitted[src[k] as int]);
                                    assert(old_order.contains(src[k]));
                                    let q = choose|q: int| 0 <= q < old_order.len() && old_order[q] == src[k];
                                    assert(o[q] == src[k]);
                                }
                            }
                        }
                        assert forall|y: int| 0 <= y < n && #[trigger] emitted@[y] implies o.contains(y as usize) by {
                            if y == x {
                                assert(o[old_order.len() as int] == y);
                            } else {
                                assert(old_emitted[y]);
                                assert(old_order.contains(y as usize));
                                let q = choose|q: int| 0 <= q < old_order.len() && old_order[q] == y;
                                assert(o[q] == y);
                            }
                        }
                    }
                } else {
                    proof {
                        if !changed {
                            assert(self.settled(reach@, emitted@, x as int));
                        }
                    }
                }
                x += 1;
            }
        }
        proof {
            assert forall|x: int|
                0 <= x < n && reach@[x] && self.present(x) && self.fed_by_order(order@, x) implies order@.contains(
                x as usize,
            ) by {
                assert(self.settled(reach@, emitted@, x));
                if !emitted@[x] {
                    assert forall|k: int|
                        0 <= k < self.srcs_of(x).len() && self.present(self.srcs_of(x)[k] as int) implies emitted@[self.srcs_of(
                        x,
                    )[k] as int] by {
                        let s = self.srcs_of(x)[k];
                        assert(order@.contains(s));
                        let q = choose|q: int| 0 <= q < order@.len() && order@[q] == s;
                        assert(emitted@[order@[q] as int]);
                    }
                    assert(self.fed_in(emitted@, x));
                }
            }
            assert(self.covers_with(order@, root as int, reach@));
        }
        order
    }
}

/// Every node reached from the root whose inputs are ranked below it is in
/// a covering order.
proof fn lemma_reached_evaluated(
    g: Graph,
    order: Seq<usize>,
    root: int,
    reach: Seq<bool>,
    rank: spec_fn(int) -> nat,
    x: int,
)
    requires
        g.covers_with(order, root, reach),
        0 <= x < g.size(),
        reach[x],
        g.present(x),
        forall|y: int, k: int|
            g.present(y) && 0 <= k < g.srcs_of(y).len() && g.present(#[trigger] g.srcs_of(y)[k] as int) ==> rank(
                g.srcs_of(y)[k] as int,
            ) < rank(y),
    ensures
        order.contains(x as usize),
    decreases rank(x),
{
    assert(g.fed_in_if_marked(reach, x));
    assert forall|k: int| 0 <= k < g.srcs_of(x).len() && g.present(#[trigger] g.srcs_of(x)[k] as int) implies order.contains(
        g.srcs_of(x)[k],
    ) by {
        let s = g.srcs_of(x)[k] as int;
        assert(reach[s]);
        lemma_reached_evaluated(g, order, root, reach, rank, s);
    }
    assert(g.fed_by_order(order, x));
}

/// On a graph without cycles the evaluation reaches the root: when a
/// ranking gives every present node that feeds a present node a smaller
/// rank than the node it feeds, an order that covers a present root holds
/// it, and with it everything the root depends on.
pub proof fn lemma_acyclic_root_evaluated(g: Graph, order: Seq<usize>, root: int, rank: spec_fn(int) -> nat)
    requires
        g.covers(order, root),
        g.present(root),
        forall|y: int, k: int|
            g.present(y) && 0 <= k < g.srcs_of(y).len() && g.present(#[trigger] g.srcs_of(y)[k] as int) ==> rank(
                g.srcs_of(y)[k] as int,
            ) < rank(y),
    ensures
        order.contains(root as usize),
{
    let reach = choose|r: Seq<bool>| g.covers_with(order, root, r);
    lemma_reached_evaluated(g, order, root, reach, rank, root);
}

} // verus!
