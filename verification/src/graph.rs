//! A directed graph whose nodes decide for themselves whether they take
//! incoming or outgoing edges, and how many.

use vstd::prelude::*;

verus! {

/// What a node must tell the graph about its connection slots.
///
/// A node admits at most `input_capacity()` incoming edges and keeps a count
/// of those it currently has. The graph is the only writer of that count.
pub trait Connected: Sized {
    /// The number of incoming edges the node admits.
    spec fn input_capacity(&self) -> nat;

    /// Whether the node may feed other nodes.
    spec fn accepts_outputs(&self) -> bool;

    /// The number of incoming edges the node believes it has.
    spec fn active_inputs(&self) -> nat;

    /// The same node with its count of incoming edges set to `count`.
    spec fn with_active_inputs(&self, count: usize) -> Self;

    /// Setting the count changes the count and nothing else the graph reads,
    /// only the last of two settings matters, and setting the count to what
    /// it is changes nothing. The capacity is a machine integer.
    proof fn active_inputs_laws(&self, a: usize, b: usize)
        ensures
            self.with_active_inputs(a).active_inputs() == a,
            self.with_active_inputs(a).input_capacity() == self.input_capacity(),
            self.with_active_inputs(a).accepts_outputs() == self.accepts_outputs(),
            self.with_active_inputs(a).with_active_inputs(b) == self.with_active_inputs(b),
            self.active_inputs() == a ==> self.with_active_inputs(a) == *self,
            self.input_capacity() <= usize::MAX,
    ;

    /// Whether the node admits any incoming edge.
    fn has_inputs(&self) -> (b: bool)
        ensures
            b == (self.input_capacity() > 0),
    ;

    /// Whether the node may feed other nodes.
    fn has_outputs(&self) -> (b: bool)
        ensures
            b == self.accepts_outputs(),
    ;

    /// How many more incoming edges the node admits.
    fn get_number_of_available_inputs(&self) -> (free: usize)
        requires
            self.active_inputs() <= self.input_capacity(),
        ensures
            free == self.input_capacity() - self.active_inputs(),
    ;

    /// Sets the count of incoming edges.
    fn update_active_inputs_count(&mut self, count: usize)
        ensures
            *final(self) == old(self).with_active_inputs(count),
    ;

    /// Counts one more incoming edge.
    fn on_connect(&mut self)
        requires
            old(self).active_inputs() < usize::MAX,
        ensures
            *final(self) == old(self).with_active_inputs((old(self).active_inputs() + 1) as usize),
    ;

    /// Counts one incoming edge less.
    fn on_disconnect(&mut self)
        requires
            0 < old(self).active_inputs() <= usize::MAX,
        ensures
            *final(self) == old(self).with_active_inputs((old(self).active_inputs() - 1) as usize),
    ;
}

/// `list` without the entries equal to `x`, the others in their order.
pub open spec fn without(list: Seq<usize>, x: usize) -> Seq<usize> {
    list.filter(|y: usize| y != x)
}

/// `list` with each entry equal to `from` replaced by `to`.
pub open spec fn retargeted(list: Seq<usize>, from: usize, to: usize) -> Seq<usize> {
    list.map_values(|y: usize| if y == from { to } else { y })
}

/// What becomes of an edge list when node `removed` leaves the graph and
/// node `moved` takes its index.
pub open spec fn pruned(list: Seq<usize>, removed: usize, moved: usize) -> Seq<usize> {
    retargeted(without(list, removed), moved, removed)
}

/// `without` keeps exactly the entries that differ from `x`.
pub proof fn lemma_without(list: Seq<usize>, x: usize)
    ensures
        without(list, x).len() <= list.len(),
        forall|y: usize| #[trigger] without(list, x).contains(y) <==> (list.contains(y) && y != x),
        !list.contains(x) ==> without(list, x) == list,
        list.contains(x) ==> without(list, x).len() < list.len(),
    decreases list.len(),
{
    reveal(Seq::filter);
    let out = without(list, x);
    if list.len() > 0 {
        let rest = list.drop_last();
        lemma_without(rest, x);
        let sub = without(rest, x);
        assert forall|y: usize| #[trigger] out.contains(y) <==> (list.contains(y) && y != x) by {
            if out.contains(y) {
                let k = choose|k: int| 0 <= k < out.len() && out[k] == y;
                if list.last() != x && k == out.len() - 1 {
                    assert(list[list.len() - 1] == y);
                } else {
                    assert(sub[k] == y);
                    assert(sub.contains(y));
                    let j = choose|j: int| 0 <= j < rest.len() && rest[j] == y;
                    assert(list[j] == y);
                }
            }
            if list.contains(y) && y != x {
                let j = choose|j: int| 0 <= j < list.len() && list[j] == y;
                if j == list.len() - 1 {
                    assert(out[out.len() - 1] == y);
                } else {
                    assert(rest[j] == y);
                    assert(sub.contains(y));
                    let k = choose|k: int| 0 <= k < sub.len() && sub[k] == y;
                    assert(out[k] == y);
                }
            }
        }
        if !list.contains(x) {
            assert(list.last() == list[list.len() - 1]);
            assert(!rest.contains(x)) by {
                if rest.contains(x) {
                    let j = choose|j: int| 0 <= j < rest.len() && rest[j] == x;
                    assert(list[j] == x);
                }
            }
            assert(out =~= list);
        }
        if list.contains(x) && list.last() != x {
            let j = choose|j: int| 0 <= j < list.len() && list[j] == x;
            assert(rest[j] == x);
        }
    }
}

/// What an edge list holds after node `removed` has left a graph of `n`
/// nodes and the last node, `n - 1`, has taken its index: an index `y` below
/// the new count is listed exactly when the node that now has that index was
/// listed before, and nothing at or above the new count is listed.
pub proof fn lemma_pruned(list: Seq<usize>, removed: usize, n: int)
    requires
        removed < n <= usize::MAX,
        forall|k: int| 0 <= k < list.len() ==> list[k] < n,
    ensures
        pruned(list, removed, (n - 1) as usize).len() == without(list, removed).len(),
        pruned(list, removed, (n - 1) as usize).len() <= list.len(),
        forall|k: int|
            0 <= k < pruned(list, removed, (n - 1) as usize).len() ==> (#[trigger] pruned(
                list,
                removed,
                (n - 1) as usize,
            )[k]) < n - 1,
        forall|y: usize|
            y < n - 1 ==> (#[trigger] pruned(list, removed, (n - 1) as usize).contains(y)
                <==> list.contains(
                if y == removed {
                    (n - 1) as usize
                } else {
                    y
                },
            )),
{
    let moved = (n - 1) as usize;
    let kept = without(list, removed);
    let out = pruned(list, removed, moved);
    lemma_without(list, removed);
    assert forall|k: int| 0 <= k < out.len() implies (#[trigger] out[k]) < n - 1 by {
        assert(kept.contains(kept[k]));
        let j = choose|j: int| 0 <= j < list.len() && list[j] == kept[k];
        assert(list[j] < n);
    }
    assert forall|y: usize| y < n - 1 implies (#[trigger] out.contains(y) <==> list.contains(
        if y == removed {
            moved
        } else {
            y
        },
    )) by {
        let from = if y == removed {
            moved
        } else {
            y
        };
        if out.contains(y) {
            let k = choose|k: int| 0 <= k < out.len() && out[k] == y;
            assert(kept.contains(kept[k]));
            assert(kept[k] == from);
        }
        if list.contains(from) {
            assert(kept.contains(from));
            let k = choose|k: int| 0 <= k < kept.len() && kept[k] == from;
            assert(out[k] == y);
        }
    }
}

/// What a list contains after one more entry is pushed.
pub proof fn lemma_push_contains(list: Seq<usize>, x: usize, y: usize)
    ensures
        list.push(x).contains(y) <==> (list.contains(y) || y == x),
{
    let longer = list.push(x);
    if longer.contains(y) {
        let k = choose|k: int| 0 <= k < longer.len() && longer[k] == y;
        if k < list.len() {
            assert(list[k] == y);
        }
    }
    if list.contains(y) {
        let k = choose|k: int| 0 <= k < list.len() && list[k] == y;
        assert(longer[k] == y);
    }
    if y == x {
        assert(longer[list.len() as int] == y);
    }
}

/// Whether `list` has an entry equal to `x`.
pub(crate) fn holds(list: &Vec<usize>, x: usize) -> (found: bool)
    ensures
        found == list@.contains(x),
{
    let mut i: usize = 0;
    while i < list.len()
        invariant
            i <= list@.len(),
            forall|k: int| 0 <= k < i ==> list@[k] != x,
        decreases list@.len() - i,
    {
        if list[i] == x {
            return true;
        }
        i += 1;
    }
    false
}

/// Removes from `list` every entry equal to `x`.
fn remove_all(list: &mut Vec<usize>, x: usize)
    ensures
        final(list)@ == without(old(list)@, x),
{
    let mut kept: Vec<usize> = Vec::new();
    let mut i: usize = 0;
    while i < list.len()
        invariant
            i <= list@.len(),
            list@ == old(list)@,
            kept@ == without(list@.subrange(0, i as int), x),
        decreases list@.len() - i,
    {
        proof {
            reveal(Seq::filter);
            assert(list@.subrange(0, i + 1).drop_last() =~= list@.subrange(0, i as int));
        }
        if list[i] != x {
            kept.push(list[i]);
        }
        i += 1;
    }
    proof {
        assert(list@.subrange(0, i as int) =~= list@);
    }
    *list = kept;
}

/// Replaces in `list` every entry equal to `from` by `to`.
fn retarget(list: &mut Vec<usize>, from: usize, to: usize)
    ensures
        final(list)@ == retargeted(old(list)@, from, to),
{
    let mut i: usize = 0;
    while i < list.len()
        invariant
            i <= list@.len(),
            list@.len() == old(list)@.len(),
            forall|k: int| 0 <= k < i ==> list@[k] == retargeted(old(list)@, from, to)[k],
            forall|k: int| i <= k < list@.len() ==> list@[k] == old(list)@[k],
        decreases list@.len() - i,
    {
        if list[i] == from {
            list[i] = to;
        }
        i += 1;
    }
    proof {
        assert(list@ =~= retargeted(old(list)@, from, to));
    }
}

/// One node of the graph: the caller's data, owned by the graph.
#[derive(Copy, Clone, PartialEq, Eq)]
pub struct Node<T: Connected> {
    pub data: T,
}

impl<T: Connected> Node<T> {
    /// A node that owns `data`.
    pub fn new(data: T) -> (node: Node<T>)
        ensures
            node.data == data,
    {
        Node { data }
    }
}

/// The edges at one node, as two ordered lists of node indices.
#[derive(Clone, PartialEq, Eq)]
pub struct Edges<T> {
    /// The nodes that feed this one, oldest connection first.
    pub inputs: Vec<usize>,
    /// The nodes that this one feeds, oldest connection first.
    pub outputs: Vec<usize>,
    /// The caller's data for this node's edges.
    pub data: T,
}

impl<T> Edges<T> {
    /// Two empty edge lists with `data`.
    pub fn new(data: T) -> (edges: Edges<T>)
        ensures
            edges.inputs@ == Seq::<usize>::empty(),
            edges.outputs@ == Seq::<usize>::empty(),
            edges.data == data,
    {
        Edges { inputs: Vec::new(), outputs: Vec::new(), data }
    }
}

/// The graph: `nodes[i]` and `edges[i]` describe the same node.
pub struct Graph<N: Connected, E> {
    pub nodes: Vec<Node<N>>,
    pub edges: Vec<Edges<E>>,
}

impl<N: Connected, E> Graph<N, E> {
    /// The number of nodes.
    pub open spec fn count(&self) -> int {
        self.nodes@.len() as int
    }

    /// The nodes that feed node `i`, oldest connection first.
    pub open spec fn inputs(&self, i: int) -> Seq<usize> {
        self.edges@[i].inputs@
    }

    /// The nodes that node `i` feeds, oldest connection first.
    pub open spec fn outputs(&self, i: int) -> Seq<usize> {
        self.edges@[i].outputs@
    }

    /// Every entry of every edge list names a node of the graph other than
    /// the one the list belongs to.
    pub open spec fn lists_in_range(&self) -> bool {
        &&& forall|i: int, k: int|
            0 <= i < self.count() && 0 <= k < self.inputs(i).len() ==> (
            #[trigger] self.inputs(i)[k]) < self.count() && self.inputs(i)[k] != i
        &&& forall|i: int, k: int|
            0 <= i < self.count() && 0 <= k < self.outputs(i).len() ==> (
            #[trigger] self.outputs(i)[k]) < self.count() && self.outputs(i)[k] != i
    }

    /// Node `a` lists `b` among its outputs exactly when `b` lists `a` among
    /// its inputs.
    pub open spec fn mirrored(&self) -> bool {
        forall|a: usize, b: usize|
            #![trigger self.outputs(a as int).contains(b)]
            #![trigger self.inputs(b as int).contains(a)]
            a < self.count() && b < self.count() ==> (self.outputs(a as int).contains(b)
                <==> self.inputs(b as int).contains(a))
    }

    /// No node has more inputs than it admits, every node's count of inputs
    /// is the length of its input list, and a node that may not feed others
    /// has no outputs.
    pub open spec fn within_capacity(&self) -> bool {
        forall|i: int|
            0 <= i < self.count() ==> {
                &&& self.inputs(i).len() <= (#[trigger] self.nodes@[i]).data.input_capacity()
                &&& self.nodes@[i].data.active_inputs() == self.inputs(i).len()
                &&& (!self.nodes@[i].data.accepts_outputs() ==> self.outputs(i).len() == 0)
            }
    }

    /// The invariant of the graph. `new` establishes it, and `add_node`,
    /// `add_edge`, `remove_edge` and `remove_node` preserve it.
    pub open spec fn well_formed(&self) -> bool {
        &&& self.nodes@.len() == self.edges@.len()
        &&& self.lists_in_range()
        &&& self.mirrored()
        &&& self.within_capacity()
    }

    /// In a well-formed graph no node has more inputs than it admits, and
    /// every node counts the inputs it has.
    pub proof fn lemma_capacity_kept(&self, node: int)
        requires
            self.well_formed(),
            0 <= node < self.count(),
        ensures
            self.inputs(node).len() <= self.nodes@[node].data.input_capacity(),
            self.nodes@[node].data.active_inputs() == self.inputs(node).len(),
    {
    }

    /// In a well-formed graph `b` is an output of `a` exactly when `a` is an
    /// input of `b`, and no node is connected to itself.
    pub proof fn lemma_edges_mirrored(&self, a: usize, b: usize)
        requires
            self.well_formed(),
            a < self.count(),
            b < self.count(),
        ensures
            self.outputs(a as int).contains(b) <==> self.inputs(b as int).contains(a),
            !self.outputs(a as int).contains(a),
            !self.inputs(a as int).contains(a),
    {
        if self.outputs(a as int).contains(a) {
            let k = choose|k: int|
                0 <= k < self.outputs(a as int).len() && self.outputs(a as int)[k] == a;
            assert(self.outputs(a as int)[k] != a);
        }
        if self.inputs(a as int).contains(a) {
            let k = choose|k: int|
                0 <= k < self.inputs(a as int).len() && self.inputs(a as int)[k] == a;
            assert(self.inputs(a as int)[k] != a);
        }
    }

    /// A graph reads of its nodes only their capacity, their count of
    /// inputs and whether they give outputs: with the same edge lists and
    /// nodes that agree in these, it is well formed as the other graph is.
    pub proof fn lemma_same_connectivity(&self, other: Self)
        requires
            other.well_formed(),
            self.edges == other.edges,
            self.nodes@.len() == other.nodes@.len(),
            forall|i: int|
                #![trigger self.nodes@[i]]
                0 <= i < self.count() ==> {
                    &&& self.nodes@[i].data.input_capacity() == other.nodes@[i].data.input_capacity()
                    &&& self.nodes@[i].data.active_inputs() == other.nodes@[i].data.active_inputs()
                    &&& self.nodes@[i].data.accepts_outputs()
                        == other.nodes@[i].data.accepts_outputs()
                },
        ensures
            self.well_formed(),
    {
        assert forall|i: int| 0 <= i < self.count() implies self.inputs(i) == other.inputs(i)
            && self.outputs(i) == other.outputs(i) by {}
        assert(self.within_capacity()) by {
            assert forall|i: int| 0 <= i < self.count() implies {
                &&& self.inputs(i).len() <= (#[trigger] self.nodes@[i]).data.input_capacity()
                &&& self.nodes@[i].data.active_inputs() == self.inputs(i).len()
                &&& (!self.nodes@[i].data.accepts_outputs() ==> self.outputs(i).len() == 0)
            } by {
            }
        }
    }

    /// A graph without nodes.
    pub fn new() -> (graph: Graph<N, E>)
        ensures
            graph.nodes@.len() == 0,
            graph.edges@.len() == 0,
            graph.well_formed(),
    {
        Graph { nodes: Vec::new(), edges: Vec::new() }
    }

    /// The node at `index`, if there is one.
    pub fn get_node(&self, index: usize) -> (node: Option<&Node<N>>)
        ensures
            index < self.nodes@.len() ==> node == Some(&self.nodes@[index as int]),
            index >= self.nodes@.len() ==> node is None,
    {
        if index < self.nodes.len() {
            Some(&self.nodes[index])
        } else {
            None
        }
    }

    /// Mutable access to the node at `index`, if there is one. What the
    /// caller writes through it becomes that node; nothing else changes.
    pub fn get_node_mut(&mut self, index: usize) -> (node: Option<&mut Node<N>>)
        ensures
            index >= old(self).nodes@.len() ==> node is None && *final(self) == *old(self),
            index < old(self).nodes@.len() ==> node is Some && *node->0 == old(self).nodes@[index as int]
                && final(self).nodes@ == old(self).nodes@.update(index as int, *final(node->0))
                && final(self).edges == old(self).edges,
    {
        if index < self.nodes.len() {
            Some(&mut self.nodes[index])
        } else {
            None
        }
    }

    /// The list of nodes.
    pub fn get_nodes(&self) -> (nodes: &Vec<Node<N>>)
        ensures
            *nodes == self.nodes,
    {
        &self.nodes
    }

    /// Mutable access to the list of nodes.
    pub fn get_nodes_mut(&mut self) -> (nodes: &mut Vec<Node<N>>)
        ensures
            *nodes == old(self).nodes,
            final(self).nodes == *final(nodes),
            final(self).edges == old(self).edges,
    {
        &mut self.nodes
    }

    /// The list of edge lists, one entry for each node.
    pub fn get_edges(&self) -> (edges: &Vec<Edges<E>>)
        ensures
            *edges == self.edges,
    {
        &self.edges
    }

    /// Mutable access to the list of edge lists.
    pub fn get_edges_mut(&mut self) -> (edges: &mut Vec<Edges<E>>)
        ensures
            *edges == old(self).edges,
            final(self).edges == *final(edges),
            final(self).nodes == old(self).nodes,
    {
        &mut self.edges
    }

    /// Whether there is an edge from `src` to `dst`.
    pub fn has_edge(&self, src: usize, dst: usize) -> (found: bool)
        requires
            src < self.edges@.len(),
        ensures
            found == self.outputs(src as int).contains(dst),
    {
        holds(&self.edges[src].outputs, dst)
    }

    /// Appends a node that owns `data_n`, with no edges and with `data_e` as
    /// the data of its edge lists.
    pub fn add_node(&mut self, data_n: N, data_e: E)
        ensures
            final(self).nodes@ == old(self).nodes@.push(Node { data: data_n }),
            final(self).edges@.len() == old(self).edges@.len() + 1,
            final(self).edges@.drop_last() == old(self).edges@,
            final(self).edges@.last().inputs@ == Seq::<usize>::empty(),
            final(self).edges@.last().outputs@ == Seq::<usize>::empty(),
            final(self).edges@.last().data == data_e,
            old(self).well_formed() && data_n.active_inputs() == 0 ==> final(self).well_formed(),
    {
        self.nodes.push(Node::new(data_n));
        self.edges.push(Edges::new(data_e));
        proof {
            assert(self.edges@.drop_last() =~= old(self).edges@);
            if old(self).well_formed() && data_n.active_inputs() == 0 {
                let n = old(self).count();
                assert forall|i: int| 0 <= i < n implies self.inputs(i) == old(self).inputs(i)
                    && self.outputs(i) == old(self).outputs(i) && self.nodes@[i] == old(
                    self,
                ).nodes@[i] by {}
                assert(self.mirrored()) by {
                    assert forall|a: usize, b: usize|
                        a < self.count() && b < self.count() implies (self.outputs(
                        a as int,
                    ).contains(b) <==> self.inputs(b as int).contains(a)) by {
                        if a < n && b < n {
                        } else if a == n {
                            if self.inputs(b as int).contains(a) {
                                let k = choose|k: int|
                                    0 <= k < self.inputs(b as int).len() && self.inputs(
                                        b as int,
                                    )[k] == a;
                                assert(old(self).inputs(b as int)[k] < n);
                            }
                        } else {
                            if self.outputs(a as int).contains(b) {
                                let k = choose|k: int|
                                    0 <= k < self.outputs(a as int).len() && self.outputs(
                                        a as int,
                                    )[k] == b;
                                assert(old(self).outputs(a as int)[k] < n);
                            }
                        }
                    }
                }
            }
        }
    }

    /// Whether the edge lists of `self` are those of `before` without the
    /// edges from `src` to `dst`: the outputs of `src` have lost `dst` and
    /// the inputs of `dst` have lost `src`.
    pub open spec fn links_cut(&self, before: Self, src: usize, dst: usize) -> bool {
        &&& self.edges@.len() == before.edges@.len()
        &&& forall|i: int|
            #![trigger self.edges@[i]]
            0 <= i < before.edges@.len() ==> {
                &&& self.inputs(i) == if i == dst {
                    without(before.inputs(i), src)
                } else {
                    before.inputs(i)
                }
                &&& self.outputs(i) == if i == src {
                    without(before.outputs(i), dst)
                } else {
                    before.outputs(i)
                }
                &&& self.edges@[i].data == before.edges@[i].data
            }
    }

    /// Whether the nodes of `self` are those of `before`, but that `node`
    /// counts the inputs it has in `self`.
    pub open spec fn recounted(&self, before: Self, node: usize) -> bool {
        &&& self.nodes@.len() == before.nodes@.len()
        &&& forall|i: int|
            #![trigger self.nodes@[i]]
            0 <= i < before.nodes@.len() ==> self.nodes@[i].data == if i == node {
                before.nodes@[i].data.with_active_inputs(self.inputs(i).len() as usize)
            } else {
                before.nodes@[i].data
            }
    }

    /// Whether `self` is `before` without the edges from `src` to `dst`.
    pub open spec fn is_disconnection_of(&self, before: Self, src: usize, dst: usize) -> bool {
        self.links_cut(before, src, dst) && self.recounted(before, dst)
    }

    /// Removes the edge from `src` to `dst`, every copy of it. Where there
    /// is no such edge, nothing changes.
    pub fn remove_edge(&mut self, src: usize, dst: usize)
        requires
            old(self).well_formed(),
            src < old(self).count(),
            dst < old(self).count(),
        ensures
            final(self).well_formed(),
            final(self).is_disconnection_of(*old(self), src, dst),
            !old(self).inputs(dst as int).contains(src) ==> final(self).nodes@ == old(self).nodes@
                && forall|i: int|
                #![trigger final(self).edges@[i]]
                0 <= i < old(self).count() ==> final(self).inputs(i) == old(self).inputs(i)
                    && final(self).outputs(i) == old(self).outputs(i),
    {
        remove_all(&mut self.edges[src].outputs, dst);
        remove_all(&mut self.edges[dst].inputs, src);
        let count = self.edges[dst].inputs.len();
        self.nodes[dst].data.update_active_inputs_count(count);
        proof {
            let n = old(self).count();
            lemma_without(old(self).outputs(src as int), dst);
            lemma_without(old(self).inputs(dst as int), src);
            old(self).nodes@[dst as int].data.active_inputs_laws(count, count);
            assert forall|i: int| 0 <= i < n implies {
                &&& self.inputs(i) == if i == dst {
                    without(old(self).inputs(i), src)
                } else {
                    old(self).inputs(i)
                }
                &&& self.outputs(i) == if i == src {
                    without(old(self).outputs(i), dst)
                } else {
                    old(self).outputs(i)
                }
            } by {}
            assert(self.lists_in_range()) by {
                assert forall|i: int, k: int|
                    0 <= i < n && 0 <= k < self.inputs(i).len() implies (#[trigger] self.inputs(
                    i,
                )[k]) < n && self.inputs(i)[k] != i by {
                    let y = self.inputs(i)[k];
                    assert(self.inputs(i).contains(y));
                    assert(old(self).inputs(i).contains(y));
                    let j = choose|j: int|
                        0 <= j < old(self).inputs(i).len() && old(self).inputs(i)[j] == y;
                    assert(old(self).inputs(i)[j] < n);
                }
                assert forall|i: int, k: int|
                    0 <= i < n && 0 <= k < self.outputs(i).len() implies (
                #[trigger] self.outputs(i)[k]) < n && self.outputs(i)[k] != i by {
                    let y = self.outputs(i)[k];
                    assert(self.outputs(i).contains(y));
                    assert(old(self).outputs(i).contains(y));
                    let j = choose|j: int|
                        0 <= j < old(self).outputs(i).len() && old(self).outputs(i)[j] == y;
                    assert(old(self).outputs(i)[j] < n);
                }
            }
            assert(self.mirrored()) by {
                assert forall|a: usize, b: usize| a < n && b < n implies (self.outputs(
                    a as int,
                ).contains(b) <==> self.inputs(b as int).contains(a)) by {
                    assert(old(self).outputs(a as int).contains(b) <==> old(self).inputs(
                        b as int,
                    ).contains(a));
                }
            }
            if !old(self).inputs(dst as int).contains(src) {
                assert(!old(self).outputs(src as int).contains(dst));
                assert(self.nodes@ =~= old(self).nodes@);
            }
        }
    }

    /// Whether an edge from `src` to `dst` is admitted: the two differ, `src`
    /// may feed other nodes and `dst` takes inputs.
    pub open spec fn can_connect(&self, src: int, dst: int) -> bool {
        &&& src != dst
        &&& self.nodes@[src].data.accepts_outputs()
        &&& self.nodes@[dst].data.input_capacity() > 0
    }

    /// Whether node `i` has as many inputs as it admits.
    pub open spec fn is_full(&self, i: int) -> bool {
        self.inputs(i).len() >= self.nodes@[i].data.input_capacity()
    }

    /// Whether a new edge into `dst` drives out the edges from `i` to `dst`:
    /// `dst` is full and `i` is its oldest input.
    pub open spec fn evicts(&self, dst: int, i: int) -> bool {
        self.is_full(dst) && self.inputs(dst).len() > 0 && self.inputs(dst)[0] == i
    }

    /// The inputs of `dst` that stay when an edge into it is added: all of
    /// them while there is room, else all but its oldest input.
    pub open spec fn inputs_kept(&self, dst: int) -> Seq<usize> {
        if self.is_full(dst) && self.inputs(dst).len() > 0 {
            without(self.inputs(dst), self.inputs(dst)[0])
        } else {
            self.inputs(dst)
        }
    }

    /// Whether the edge lists of `self` are those of `before` with one more
    /// edge, from `src` to `dst`: `src` is the newest input of `dst` and
    /// `dst` the newest output of `src`. Where `dst` was full, the edges from
    /// its oldest input have gone.
    pub open spec fn links_joined(&self, before: Self, src: usize, dst: usize) -> bool {
        &&& self.edges@.len() == before.edges@.len()
        &&& forall|i: int|
            #![trigger self.edges@[i]]
            0 <= i < before.edges@.len() ==> {
                &&& self.inputs(i) == if i == dst {
                    before.inputs_kept(i).push(src)
                } else {
                    before.inputs(i)
                }
                &&& self.outputs(i) == {
                    let stay = if before.evicts(dst as int, i) {
                        without(before.outputs(i), dst)
                    } else {
                        before.outputs(i)
                    };
                    if i == src {
                        stay.push(dst)
                    } else {
                        stay
                    }
                }
                &&& self.edges@[i].data == before.edges@[i].data
            }
    }

    /// Whether `self` is `before` with one more edge, from `src` to `dst`.
    pub open spec fn is_connection_of(&self, before: Self, src: usize, dst: usize) -> bool {
        self.links_joined(before, src, dst) && self.recounted(before, dst)
    }

    /// Connects `src` to `dst` and says whether it did. The edge is refused,
    /// and nothing changes, unless `can_connect` holds. Where `dst` is full,
    /// its oldest input is disconnected first to make room.
    pub fn add_edge(&mut self, src: usize, dst: usize) -> (connected: bool)
        requires
            old(self).well_formed(),
            src < old(self).count(),
            dst < old(self).count(),
        ensures
            final(self).well_formed(),
            connected == old(self).can_connect(src as int, dst as int),
            !connected ==> *final(self) == *old(self),
            connected ==> final(self).is_connection_of(*old(self), src, dst),
    {
        if src != dst && self.nodes[src].data.has_outputs() && self.nodes[dst].data.has_inputs() {
            let ghost n = self.count();
            proof {
                self.nodes@[dst as int].data.active_inputs_laws(0, 0);
            }
            if self.nodes[dst].data.get_number_of_available_inputs() == 0 {
                let oldest = self.edges[dst].inputs[0];
                proof {
                    lemma_without(self.inputs(dst as int), oldest);
                    assert(self.inputs(dst as int).contains(oldest));
                }
                self.remove_edge(oldest, dst);
            }
            let ghost mid = *self;
            proof {
                mid.nodes@[dst as int].data.active_inputs_laws(
                    (mid.inputs(dst as int).len() + 1) as usize,
                    0,
                );
                old(self).nodes@[dst as int].data.active_inputs_laws(
                    mid.inputs(dst as int).len() as usize,
                    (mid.inputs(dst as int).len() + 1) as usize,
                );
                assert(mid.inputs(dst as int) == old(self).inputs_kept(dst as int));
                assert(mid.inputs(dst as int).len() < mid.nodes@[dst as int].data.input_capacity());
            }
            self.nodes[dst].data.on_connect();
            self.edges[src].outputs.push(dst);
            self.edges[dst].inputs.push(src);
            proof {
                assert forall|i: int| 0 <= i < n implies {
                    &&& self.inputs(i) == if i == dst {
                        mid.inputs(i).push(src)
                    } else {
                        mid.inputs(i)
                    }
                    &&& self.outputs(i) == if i == src {
                        mid.outputs(i).push(dst)
                    } else {
                        mid.outputs(i)
                    }
                } by {}
                assert(self.lists_in_range()) by {
                    assert forall|i: int, k: int|
                        0 <= i < n && 0 <= k < self.inputs(i).len() implies (
                    #[trigger] self.inputs(i)[k]) < n && self.inputs(i)[k] != i by {
                        if k < mid.inputs(i).len() {
                            assert(self.inputs(i)[k] == mid.inputs(i)[k]);
                        }
                    }
                    assert forall|i: int, k: int|
                        0 <= i < n && 0 <= k < self.outputs(i).len() implies (
                    #[trigger] self.outputs(i)[k]) < n && self.outputs(i)[k] != i by {
                        if k < mid.outputs(i).len() {
                            assert(self.outputs(i)[k] == mid.outputs(i)[k]);
                        }
                    }
                }
                assert(self.within_capacity()) by {
                    assert forall|i: int| 0 <= i < n implies {
                        &&& self.inputs(i).len() <= (#[trigger] self.nodes@[i]).data.input_capacity()
                        &&& self.nodes@[i].data.active_inputs() == self.inputs(i).len()
                        &&& (!self.nodes@[i].data.accepts_outputs() ==> self.outputs(i).len()
                            == 0)
                    } by {
                        if i != dst {
                            assert(self.nodes@[i] == mid.nodes@[i]);
                        }
                    }
                }
                assert(self.mirrored()) by {
                    assert forall|a: usize, b: usize| a < n && b < n implies (self.outputs(
                        a as int,
                    ).contains(b) <==> self.inputs(b as int).contains(a)) by {
                        assert(mid.outputs(a as int).contains(b) <==> mid.inputs(
                            b as int,
                        ).contains(a));
                        lemma_push_contains(mid.outputs(a as int), dst, b);
                        lemma_push_contains(mid.inputs(b as int), src, a);
                    }
                }
            }
            true
        } else {
            false
        }
    }

    /// Whether `self` is `before` without its node `index`: the last node of
    /// `before` has taken that index, every other node has kept its own, and
    /// each edge list has lost its entries for the removed node and names
    /// the moved node by its new index.
    pub open spec fn is_removal_of(&self, before: Self, index: usize) -> bool {
        let last = (before.count() - 1) as usize;
        &&& self.nodes@.len() == before.count() - 1
        &&& self.edges@.len() == before.count() - 1
        &&& forall|i: int|
            #![trigger self.edges@[i]]
            #![trigger self.nodes@[i]]
            0 <= i < self.count() ==> {
                let from = if i == index {
                    last as int
                } else {
                    i
                };
                &&& self.inputs(i) == pruned(before.inputs(from), index, last)
                &&& self.outputs(i) == pruned(before.outputs(from), index, last)
                &&& self.edges@[i].data == before.edges@[from].data
                &&& self.nodes@[i].data == before.nodes@[from].data.with_active_inputs(
                    self.inputs(i).len() as usize,
                )
            }
    }

    /// Removing a node keeps the graph well formed.
    pub proof fn lemma_removal_well_formed(&self, before: Self, index: usize)
        requires
            before.well_formed(),
            index < before.count(),
            self.is_removal_of(before, index),
        ensures
            self.well_formed(),
    {
        let n = before.count();
        assert(before.nodes.len() == n);
        let last = (n - 1) as usize;
        assert forall|i: int| #![trigger self.edges@[i]] 0 <= i < self.count() implies {
            let from = if i == index {
                last as int
            } else {
                i
            };
            &&& self.inputs(i) == pruned(before.inputs(from), index, last)
            &&& self.outputs(i) == pruned(before.outputs(from), index, last)
            &&& self.nodes@[i].data == before.nodes@[from].data.with_active_inputs(
                self.inputs(i).len() as usize,
            )
        } by {
        }
        assert forall|i: int| #![trigger before.edges@[i]] 0 <= i < n implies (forall|k: int|
            0 <= k < before.inputs(i).len() ==> before.inputs(i)[k] < n) && (forall|k: int|
            0 <= k < before.outputs(i).len() ==> before.outputs(i)[k] < n) by {}
        assert(self.lists_in_range()) by {
            assert forall|i: int, k: int|
                0 <= i < self.count() && 0 <= k < self.inputs(i).len() implies (
            #[trigger] self.inputs(i)[k]) < self.count() && self.inputs(i)[k] != i by {
                let from = if i == index {
                    last as int
                } else {
                    i
                };
                lemma_pruned(before.inputs(from), index, n);
                let y = self.inputs(i)[k];
                assert(self.inputs(i).contains(y));
                if y == i {
                    let j = choose|j: int|
                        0 <= j < before.inputs(from).len() && before.inputs(from)[j] == from;
                    assert(before.inputs(from)[j] != from);
                }
            }
            assert forall|i: int, k: int|
                0 <= i < self.count() && 0 <= k < self.outputs(i).len() implies (
            #[trigger] self.outputs(i)[k]) < self.count() && self.outputs(i)[k] != i by {
                let from = if i == index {
                    last as int
                } else {
                    i
                };
                lemma_pruned(before.outputs(from), index, n);
                let y = self.outputs(i)[k];
                assert(self.outputs(i).contains(y));
                if y == i {
                    let j = choose|j: int|
                        0 <= j < before.outputs(from).len() && before.outputs(from)[j] == from;
                    assert(before.outputs(from)[j] != from);
                }
            }
        }
        assert(self.mirrored()) by {
            assert forall|a: usize, b: usize|
                a < self.count() && b < self.count() implies (self.outputs(a as int).contains(b)
                <==> self.inputs(b as int).contains(a)) by {
                let from_a = if a == index {
                    last
                } else {
                    a
                };
                let from_b = if b == index {
                    last
                } else {
                    b
                };
                lemma_pruned(before.outputs(from_a as int), index, n);
                lemma_pruned(before.inputs(from_b as int), index, n);
                assert(before.outputs(from_a as int).contains(from_b) <==> before.inputs(
                    from_b as int,
                ).contains(from_a));
            }
        }
        assert(self.within_capacity()) by {
            assert forall|i: int| 0 <= i < self.count() implies {
                &&& self.inputs(i).len() <= (#[trigger] self.nodes@[i]).data.input_capacity()
                &&& self.nodes@[i].data.active_inputs() == self.inputs(i).len()
                &&& (!self.nodes@[i].data.accepts_outputs() ==> self.outputs(i).len() == 0)
            } by {
                let from = if i == index {
                    last as int
                } else {
                    i
                };
                lemma_pruned(before.inputs(from), index, n);
                lemma_pruned(before.outputs(from), index, n);
                before.nodes@[from].data.active_inputs_laws(self.inputs(i).len() as usize, 0);
                assert(before.inputs(from).len() <= before.nodes@[from].data.input_capacity());
            }
        }
    }

    /// After node `index` has been removed, every other node but the last is
    /// found at the index it had, the node that was last is found at `index`,
    /// and no edge list names an index at or beyond the new count.
    pub proof fn lemma_removal_keeps_indices(&self, before: Self, index: usize)
        requires
            before.well_formed(),
            index < before.count(),
            self.is_removal_of(before, index),
        ensures
            forall|i: int|
                #![trigger self.nodes@[i]]
                0 <= i < self.count() && i != index ==> self.nodes@[i].data
                    == before.nodes@[i].data.with_active_inputs(self.inputs(i).len() as usize),
            index < self.count() ==> self.nodes@[index as int].data == before.nodes@[before.count()
                - 1].data.with_active_inputs(self.inputs(index as int).len() as usize),
            forall|i: int, k: int|
                0 <= i < self.count() && 0 <= k < self.inputs(i).len() ==> (
                #[trigger] self.inputs(i)[k]) < self.count(),
            forall|i: int, k: int|
                0 <= i < self.count() && 0 <= k < self.outputs(i).len() ==> (
                #[trigger] self.outputs(i)[k]) < self.count(),
    {
        assert(before.nodes.len() == before.count());
        self.lemma_removal_well_formed(before, index);
    }

    /// Removes the node at `index`. The last node takes its place and its
    /// index; every other node keeps its index. Edges to and from the removed
    /// node are deleted, and edges to and from the moved node follow it.
    pub fn remove_node(&mut self, index: usize)
        requires
            old(self).well_formed(),
            index < old(self).count(),
        ensures
            final(self).is_removal_of(*old(self), index),
            final(self).well_formed(),
    {
        let swapped_index = self.nodes.len() - 1;
        let _removed_node = self.nodes.swap_remove(index);
        let _removed_edges = self.edges.swap_remove(index);
        let ghost mid = *self;
        let mut i: usize = 0;
        while i < self.edges.len()
            invariant
                i <= self.edges@.len(),
                self.edges@.len() == mid.edges@.len(),
                self.nodes@.len() == mid.nodes@.len(),
                mid.nodes@.len() == mid.edges@.len(),
                forall|j: int|
                    #![trigger self.edges@[j]]
                    #![trigger self.nodes@[j]]
                    0 <= j < i ==> {
                        &&& self.inputs(j) == pruned(mid.inputs(j), index, swapped_index)
                        &&& self.outputs(j) == pruned(mid.outputs(j), index, swapped_index)
                        &&& self.edges@[j].data == mid.edges@[j].data
                        &&& self.nodes@[j].data == mid.nodes@[j].data.with_active_inputs(
                            self.inputs(j).len() as usize,
                        )
                    },
                forall|j: int|
                    #![trigger self.edges@[j]]
                    #![trigger self.nodes@[j]]
                    i <= j < self.edges@.len() ==> self.edges@[j] == mid.edges@[j]
                        && self.nodes@[j] == mid.nodes@[j],
            decreases self.edges@.len() - i,
        {
            remove_all(&mut self.edges[i].inputs, index);
            let count = self.edges[i].inputs.len();
            self.nodes[i].data.update_active_inputs_count(count);
            remove_all(&mut self.edges[i].outputs, index);
            retarget(&mut self.edges[i].inputs, swapped_index, index);
            retarget(&mut self.edges[i].outputs, swapped_index, index);
            i += 1;
        }
        proof {
            assert forall|i: int| #![trigger mid.edges@[i]] 0 <= i < self.count() implies {
                let from = if i == index {
                    swapped_index as int
                } else {
                    i
                };
                &&& mid.edges@[i] == old(self).edges@[from]
                &&& mid.nodes@[i] == old(self).nodes@[from]
            } by {}
            assert(self.is_removal_of(*old(self), index));
            self.lemma_removal_well_formed(*old(self), index);
        }
    }
}

} // verus!
