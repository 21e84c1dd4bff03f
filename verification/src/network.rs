//! The network of operators: the graph, the operator that is selected, the
//! render operator that the shader is built from, and whether the shader has
//! to be built again.

use crate::graph::{Connected, Graph};
use crate::interaction::InteractionState;
use crate::operator::{lemma_op_name_serial, op_name, Op, OpFamily, PrimitiveType};
use vstd::prelude::*;

verus! {

/// The family of the operator that the shader is built from.
pub open spec fn render_family() -> OpFamily {
    OpFamily::Primitive(PrimitiveType::Render)
}

/// Whether an attempt to connect `src` to `dst` deselects operator `i`: it
/// does so for both ends, unless they are the same operator.
pub open spec fn deselects(src: usize, dst: usize, i: int) -> bool {
    src != dst && (i == src || i == dst)
}

/// Deselects the operators at `a` and `b`.
fn deselect_both(graph: &mut Graph<Op, usize>, a: usize, b: usize)
    requires
        a < old(graph).nodes@.len(),
        b < old(graph).nodes@.len(),
    ensures
        final(graph).edges == old(graph).edges,
        final(graph).nodes@.len() == old(graph).nodes@.len(),
        forall|i: int|
            #![trigger final(graph).nodes@[i]]
            0 <= i < old(graph).nodes@.len() ==> final(graph).nodes@[i].data == (Op {
                state: if i == a || i == b {
                    InteractionState::Deselected
                } else {
                    old(graph).nodes@[i].data.state
                },
                ..old(graph).nodes@[i].data
            }),
{
    graph.nodes[a].data.state = InteractionState::Deselected;
    graph.nodes[b].data.state = InteractionState::Deselected;
}

/// The graph of operators together with what the editor keeps about it.
pub struct Network {
    /// The operators and the edges between them.
    pub graph: Graph<Op, usize>,
    /// The index of the operator that is selected, if one is.
    pub selection: Option<usize>,
    /// The index of the render operator that was connected last, if there
    /// is one.
    pub root: Option<usize>,
    /// Whether the shader has to be built again.
    pub dirty: bool,
    /// Whether the preview is drawn.
    pub show_preview: bool,
    /// Whether operators snap to a grid when they are dragged.
    pub snapping: bool,
    /// The parameter slot for the next operator.
    pub params_index: usize,
    /// The number that the next operator is named with.
    pub serial: usize,
}

impl Network {
    /// The operator at index `i`.
    pub open spec fn op(&self, i: int) -> Op {
        self.graph.nodes@[i].data
    }

    /// Every operator has a parameter slot of its own, below the next free
    /// one.
    pub open spec fn slots_distinct(&self) -> bool {
        &&& forall|i: int|
            0 <= i < self.graph.count() ==> (#[trigger] self.op(i)).params.slot()
                < self.params_index
        &&& forall|i: int, j: int|
            #![trigger self.op(i), self.op(j)]
            0 <= i < j < self.graph.count() ==> self.op(i).params.slot() != self.op(
                j,
            ).params.slot()
    }

    /// Every operator is named after its family and a number below the next
    /// free one, and no two operators have the same name.
    pub open spec fn names_distinct(&self) -> bool {
        &&& forall|i: int|
            #![trigger self.op(i)]
            0 <= i < self.graph.count() ==> exists|c: nat|
                c < self.serial && self.op(i).name@ == #[trigger] op_name(
                    self.op(i).family,
                    c,
                )
        &&& forall|i: int, j: int|
            #![trigger self.op(i), self.op(j)]
            0 <= i < j < self.graph.count() ==> self.op(i).name@ != self.op(j).name@
    }

    /// The invariant of the network: the graph is well formed, the selection
    /// and the root name operators of the graph, the root is a render
    /// operator, and names and parameter slots are not shared.
    pub open spec fn well_formed(&self) -> bool {
        &&& self.graph.well_formed()
        &&& (self.selection is Some ==> self.selection->0 < self.graph.count())
        &&& (self.root is Some ==> self.root->0 < self.graph.count() && self.op(
            self.root->0 as int,
        ).family == render_family())
        &&& self.slots_distinct()
        &&& self.names_distinct()
    }

    /// An empty network, with nothing selected and nothing to build.
    pub fn new() -> (network: Network)
        ensures
            network.well_formed(),
            network.graph.count() == 0,
            network.selection is None,
            network.root is None,
            !network.dirty,
            network.show_preview,
            network.snapping,
            network.params_index == 0,
            network.serial == 0,
    {
        Network {
            graph: Graph::new(),
            selection: None,
            root: None,
            dirty: false,
            show_preview: true,
            snapping: true,
            params_index: 0,
            serial: 0,
        }
    }

    /// Whether the shader has to be built again.
    pub fn dirty(&self) -> (dirty: bool)
        ensures
            dirty == self.dirty,
    {
        self.dirty
    }

    /// Records that the shader has been built.
    pub fn clean(&mut self)
        ensures
            *final(self) == (Network { dirty: false, ..*old(self) }),
    {
        self.dirty = false;
    }

    /// Switches the drawing of the preview on or off.
    pub fn toggle_preview(&mut self)
        ensures
            *final(self) == (Network { show_preview: !old(self).show_preview, ..*old(self) }),
    {
        self.show_preview = !self.show_preview;
    }

    /// Adds an operator of `family` and gives its index. The operator is
    /// named with the next free number and has the next free parameter slot;
    /// it has no edges.
    pub fn add_op(&mut self, family: OpFamily) -> (index: usize)
        requires
            old(self).well_formed(),
            old(self).params_index < usize::MAX,
            old(self).serial < usize::MAX,
        ensures
            final(self).well_formed(),
            index == old(self).graph.count(),
            final(self).graph.nodes@.len() == index + 1,
            final(self).graph.edges@.len() == index + 1,
            final(self).graph.nodes@.take(index as int) == old(self).graph.nodes@,
            final(self).graph.edges@.take(index as int) == old(self).graph.edges@,
            final(self).graph.inputs(index as int) == Seq::<usize>::empty(),
            final(self).graph.outputs(index as int) == Seq::<usize>::empty(),
            final(self).op(index as int).family == family,
            final(self).op(index as int).name@ == op_name(family, old(self).serial as nat),
            final(self).op(index as int).params.slot() == old(self).params_index,
            final(self).op(index as int).params.labels() == family.parameter_names(),
            final(self).op(index as int).active_inputs == 0,
            final(self).op(index as int).state == InteractionState::Deselected,
            final(self).params_index == old(self).params_index + 1,
            final(self).serial == old(self).serial + 1,
            final(self).selection == old(self).selection,
            final(self).root == old(self).root,
            final(self).dirty == old(self).dirty,
            final(self).show_preview == old(self).show_preview,
            final(self).snapping == old(self).snapping,
    {
        let mut op = Op::new(family, self.serial);
        self.serial += 1;
        op.params.set_index(self.params_index);
        self.params_index += 1;
        let index = self.graph.nodes.len();
        self.graph.add_node(op, 0);
        proof {
            let n = index as int;
            assert(self.graph.nodes@.take(n) =~= old(self).graph.nodes@);
            assert(self.graph.edges@.take(n) =~= old(self).graph.edges@);
            assert forall|i: int| 0 <= i < n implies self.op(i) == old(self).op(i) by {}
            assert(self.op(n).name@ == op_name(family, old(self).serial as nat));
            assert forall|i: int| 0 <= i < n implies self.op(i).name@ != self.op(n).name@ by {
                let c = choose|c: nat|
                    c < old(self).serial && old(self).op(i).name@ == #[trigger] op_name(
                        old(self).op(i).family,
                        c,
                    );
                if self.op(i).name@ == self.op(n).name@ {
                    lemma_op_name_serial(
                        old(self).op(i).family,
                        c,
                        family,
                        old(self).serial as nat,
                    );
                }
            }
            assert(self.names_distinct()) by {
                assert forall|i: int|
                    #![trigger self.op(i)]
                    0 <= i < self.graph.count() implies exists|c: nat|
                    c < self.serial && self.op(i).name@ == #[trigger] op_name(
                        self.op(i).family,
                        c,
                    ) by {
                    if i < n {
                        let c = choose|c: nat|
                            c < old(self).serial && old(self).op(i).name@
                                == #[trigger] op_name(old(self).op(i).family, c);
                        assert(self.op(i).name@ == op_name(self.op(i).family, c));
                    } else {
                        assert(self.op(i).name@ == op_name(
                            self.op(i).family,
                            old(self).serial as nat,
                        ));
                    }
                }
                assert forall|i: int, j: int|
                    #![trigger self.op(i), self.op(j)]
                    0 <= i < j < self.graph.count() implies self.op(i).name@ != self.op(
                    j,
                ).name@ by {
                    if j < n {
                        assert(old(self).op(i).name@ != old(self).op(j).name@);
                    }
                }
            }
            assert(self.slots_distinct()) by {
                assert forall|i: int, j: int|
                    #![trigger self.op(i), self.op(j)]
                    0 <= i < j < self.graph.count() implies self.op(i).params.slot() != self.op(
                    j,
                ).params.slot() by {
                    if j < n {
                        assert(old(self).op(i).params.slot() != old(self).op(j).params.slot());
                    } else {
                        assert(old(self).op(i).params.slot() < old(self).params_index);
                    }
                }
            }
        }
        index
    }
    /// Whether the operator at index `i` is a render operator.
    pub open spec fn is_render(&self, i: int) -> bool {
        self.op(i).family == render_family()
    }

    /// A network stays well formed where its graph does, each operator keeps
    /// its family, its name and its parameter slot, and the selection and the
    /// root still name operators, the root a render operator.
    pub proof fn lemma_operators_kept(&self, before: Self)
        requires
            before.well_formed(),
            self.graph.well_formed(),
            self.graph.count() == before.graph.count(),
            forall|i: int|
                #![trigger self.op(i)]
                0 <= i < self.graph.count() ==> self.op(i).family == before.op(i).family
                    && self.op(i).name@ == before.op(i).name@ && self.op(i).params.slot()
                    == before.op(i).params.slot(),
            self.selection is Some ==> self.selection->0 < self.graph.count(),
            self.root is Some ==> self.root->0 < self.graph.count() && self.is_render(
                self.root->0 as int,
            ),
            self.params_index == before.params_index,
            self.serial == before.serial,
        ensures
            self.well_formed(),
    {
        let n = self.graph.count();
        assert(self.slots_distinct()) by {
            assert forall|i: int| 0 <= i < n implies (#[trigger] self.op(i)).params.slot()
                < self.params_index by {
                assert(before.op(i).params.slot() < before.params_index);
            }
            assert forall|i: int, j: int|
                #![trigger self.op(i), self.op(j)]
                0 <= i < j < n implies self.op(i).params.slot() != self.op(j).params.slot() by {
                assert(before.op(i).params.slot() != before.op(j).params.slot());
            }
        }
        assert(self.names_distinct()) by {
            assert forall|i: int| #![trigger self.op(i)] 0 <= i < n implies exists|c: nat|
                c < self.serial && self.op(i).name@ == #[trigger] op_name(self.op(i).family, c) by {
                let c = choose|c: nat|
                    c < before.serial && before.op(i).name@ == #[trigger] op_name(
                        before.op(i).family,
                        c,
                    );
                assert(self.op(i).name@ == op_name(self.op(i).family, c));
            }
            assert forall|i: int, j: int|
                #![trigger self.op(i), self.op(j)]
                0 <= i < j < n implies self.op(i).name@ != self.op(j).name@ by {
                assert(before.op(i).name@ != before.op(j).name@);
            }
        }
    }

    /// The interaction states of the operators, by index.
    pub open spec fn states(&self) -> Seq<InteractionState> {
        Seq::new(self.graph.nodes@.len(), |i: int| self.op(i).state)
    }

    /// Whether `self` is `before` after an attempt to connect operator `a`
    /// to operator `b`, where the operators had the states `states`.
    ///
    /// The edge is added where the graph admits it, as `Graph::add_edge`
    /// says. Where it is added, the shader is marked for building if there
    /// is a root, and a render operator `b` becomes the root and marks the
    /// shader too. Whether or not it is added, both operators are deselected
    /// if they differ.
    pub open spec fn is_attempt_of(
        &self,
        before: Self,
        states: Seq<InteractionState>,
        a: usize,
        b: usize,
    ) -> bool {
        &&& before.graph.can_connect(a as int, b as int) ==> self.graph.links_joined(
            before.graph,
            a,
            b,
        )
        &&& !before.graph.can_connect(a as int, b as int) ==> self.graph.edges
            == before.graph.edges
        &&& self.graph.nodes@.len() == before.graph.nodes@.len()
        &&& forall|i: int|
            #![trigger self.op(i)]
            0 <= i < before.graph.count() ==> self.op(i) == (Op {
                active_inputs: self.graph.inputs(i).len() as usize,
                state: if deselects(a, b, i) {
                    InteractionState::Deselected
                } else {
                    states[i]
                },
                ..before.op(i)
            })
        &&& self.root == if before.graph.can_connect(a as int, b as int) && before.is_render(
            b as int,
        ) {
            Some(b)
        } else {
            before.root
        }
        &&& self.dirty == (before.dirty || (before.graph.can_connect(a as int, b as int) && (
        before.root is Some || before.is_render(b as int))))
        &&& self.selection == before.selection
        &&& self.show_preview == before.show_preview
        &&& self.snapping == before.snapping
        &&& self.params_index == before.params_index
        &&& self.serial == before.serial
    }

    /// What `add_connection` leaves is well formed, and is what
    /// `is_attempt_of` describes: the graph that `add_edge` made, with the
    /// two operators deselected if they differ.
    proof fn lemma_connection(&self, before: Self, mid: Graph<Op, usize>, a: usize, b: usize)
        requires
            before.well_formed(),
            a < before.graph.count(),
            b < before.graph.count(),
            mid.well_formed(),
            before.graph.can_connect(a as int, b as int) ==> mid.is_connection_of(
                before.graph,
                a,
                b,
            ),
            !before.graph.can_connect(a as int, b as int) ==> mid == before.graph,
            self.graph.edges == mid.edges,
            self.graph.nodes@.len() == mid.nodes@.len(),
            forall|i: int|
                #![trigger self.graph.nodes@[i]]
                0 <= i < mid.nodes@.len() ==> self.graph.nodes@[i].data == (Op {
                    state: if deselects(a, b, i) {
                        InteractionState::Deselected
                    } else {
                        mid.nodes@[i].data.state
                    },
                    ..mid.nodes@[i].data
                }),
            self.root == if before.graph.can_connect(a as int, b as int) && before.is_render(
                b as int,
            ) {
                Some(b)
            } else {
                before.root
            },
            self.dirty == (before.dirty || (before.graph.can_connect(a as int, b as int) && (
            before.root is Some || before.is_render(b as int)))),
            self.selection == before.selection,
            self.show_preview == before.show_preview,
            self.snapping == before.snapping,
            self.params_index == before.params_index,
            self.serial == before.serial,
        ensures
            self.well_formed(),
            self.is_attempt_of(before, before.states(), a, b),
    {
        let n = before.graph.count();
        let connected = before.graph.can_connect(a as int, b as int);
        assert(mid.nodes@.len() == n);
        assert forall|i: int| 0 <= i < n implies self.graph.inputs(i) == mid.inputs(i)
            && self.graph.outputs(i) == mid.outputs(i) by {}
        assert forall|i: int| 0 <= i < n implies (#[trigger] mid.nodes@[i]).data == (Op {
            active_inputs: mid.inputs(i).len() as usize,
            ..before.op(i)
        }) by {
            assert(before.op(i).active_inputs == before.graph.inputs(i).len());
            if connected {
            }
        }
        assert forall|i: int| #![trigger self.op(i)] 0 <= i < n implies self.op(i) == (Op {
            active_inputs: self.graph.inputs(i).len() as usize,
            state: if deselects(a, b, i) {
                InteractionState::Deselected
            } else {
                before.states()[i]
            },
            ..before.op(i)
        }) by {
        }
        if connected {
            assert(self.graph.links_joined(before.graph, a, b)) by {
                assert forall|i: int|
                    #![trigger self.graph.edges@[i]]
                    0 <= i < before.graph.edges@.len() implies self.graph.edges@[i]
                    == mid.edges@[i] by {}
            }
        }
        self.graph.lemma_same_connectivity(mid);
        self.lemma_operators_kept(before);
    }

    /// Connects the output of operator `a` to the input of operator `b`, as
    /// `Graph::add_edge` does, and says whether the edge was added.
    ///
    /// Where it was, the shader is marked for building if there is a root,
    /// and a render operator `b` becomes the root and marks the shader as
    /// well. A refused edge changes neither. Both operators are deselected
    /// if they differ, whether or not the edge was added.
    pub fn add_connection(&mut self, a: usize, b: usize) -> (connected: bool)
        requires
            old(self).well_formed(),
            a < old(self).graph.count(),
            b < old(self).graph.count(),
        ensures
            final(self).well_formed(),
            connected == old(self).graph.can_connect(a as int, b as int),
            final(self).is_attempt_of(*old(self), old(self).states(), a, b),
    {
        let connected = self.graph.add_edge(a, b);
        let ghost mid = self.graph;
        if connected {
            if self.root.is_some() {
                self.dirty = true;
            }
            if let OpFamily::Primitive(PrimitiveType::Render) = self.graph.nodes[b].data.family {
                self.root = Some(b);
                self.dirty = true;
            }
        }
        if a != b {
            deselect_both(&mut self.graph, a, b);
        }
        proof {
            self.lemma_connection(*old(self), mid, a, b);
        }
        connected
    }
    /// Whether removing the operator at `removed` takes the root away: the
    /// operator is the root or feeds it.
    pub open spec fn loses_root(&self, removed: usize) -> bool {
        self.root is Some && (self.root->0 == removed || self.graph.outputs(
            removed as int,
        ).contains(self.root->0))
    }

    /// Whether removing the operator at `removed` makes the shader stale:
    /// there is a root, and it depends on the operator.
    pub open spec fn stales(&self, removed: usize) -> bool {
        self.root is Some && self.graph.depends_on(self.root->0, removed)
    }

    /// The root depends on itself and on every operator that feeds it.
    pub proof fn lemma_lost_root_is_stale(&self, removed: usize)
        requires
            self.well_formed(),
            removed < self.graph.count(),
            self.loses_root(removed),
        ensures
            self.stales(removed),
    {
        let root = self.root->0;
        if root == removed {
            assert(self.graph.reaches_within(root, removed, 0));
        } else {
            assert(self.graph.inputs(root as int).contains(removed));
            let k = choose|k: int|
                0 <= k < self.graph.inputs(root as int).len() && self.graph.inputs(
                    root as int,
                )[k] == removed;
            assert(self.graph.reaches_within(self.graph.inputs(root as int)[k], removed, 0));
            assert(self.graph.reaches_within(root, removed, 1));
        }
    }

    /// The root after the operator at `removed` has been removed: none where
    /// that takes the root away, else the same operator as before, by the
    /// index it has then.
    pub open spec fn root_after_removal(&self, removed: usize) -> Option<usize> {
        if self.root is None || self.loses_root(removed) {
            None
        } else if self.root->0 == self.graph.count() - 1 {
            Some(removed)
        } else {
            self.root
        }
    }

    /// A network stays well formed where an operator is removed from its
    /// graph and the root follows as `root_after_removal` says.
    pub proof fn lemma_removal(&self, before: Self, removed: usize)
        requires
            before.well_formed(),
            removed < before.graph.count(),
            self.graph.well_formed(),
            self.graph.is_removal_of(before.graph, removed),
            self.selection is None,
            self.root == before.root_after_removal(removed),
            self.params_index == before.params_index,
            self.serial == before.serial,
        ensures
            self.well_formed(),
    {
        let n = self.graph.count();
        let last = n;
        assert(before.graph.nodes.len() == n + 1);
        assert(last == ((before.graph.count() - 1) as usize));
        assert forall|i: int| 0 <= i < n implies (#[trigger] self.op(i)).family == before.op(
            if i == removed {
                last
            } else {
                i
            },
        ).family && self.op(i).name@ == before.op(
            if i == removed {
                last
            } else {
                i
            },
        ).name@ && self.op(i).params.slot() == before.op(
            if i == removed {
                last
            } else {
                i
            },
        ).params.slot() by {
            let from = if i == removed {
                last
            } else {
                i
            };
            assert(self.graph.nodes@[i].data == before.graph.nodes@[from].data.with_active_inputs(
                self.graph.inputs(i).len() as usize,
            ));
        }
        assert(self.slots_distinct()) by {
            assert forall|i: int| 0 <= i < n implies (#[trigger] self.op(i)).params.slot()
                < self.params_index by {
                let from = if i == removed {
                    last
                } else {
                    i
                };
                assert(before.op(from).params.slot() < before.params_index);
            }
            assert forall|i: int, j: int|
                #![trigger self.op(i), self.op(j)]
                0 <= i < j < n implies self.op(i).params.slot() != self.op(j).params.slot() by {
                let from_i = if i == removed {
                    last
                } else {
                    i
                };
                let from_j = if j == removed {
                    last
                } else {
                    j
                };
                if from_i < from_j {
                    assert(before.op(from_i).params.slot() != before.op(from_j).params.slot());
                } else {
                    assert(before.op(from_j).params.slot() != before.op(from_i).params.slot());
                }
            }
        }
        assert(self.names_distinct()) by {
            assert forall|i: int| #![trigger self.op(i)] 0 <= i < n implies exists|c: nat|
                c < self.serial && self.op(i).name@ == #[trigger] op_name(self.op(i).family, c) by {
                let from = if i == removed {
                    last
                } else {
                    i
                };
                let c = choose|c: nat|
                    c < before.serial && before.op(from).name@ == #[trigger] op_name(
                        before.op(from).family,
                        c,
                    );
                assert(self.op(i).name@ == op_name(self.op(i).family, c));
            }
            assert forall|i: int, j: int|
                #![trigger self.op(i), self.op(j)]
                0 <= i < j < n implies self.op(i).name@ != self.op(j).name@ by {
                let from_i = if i == removed {
                    last
                } else {
                    i
                };
                let from_j = if j == removed {
                    last
                } else {
                    j
                };
                if from_i < from_j {
                    assert(before.op(from_i).name@ != before.op(from_j).name@);
                } else {
                    assert(before.op(from_j).name@ != before.op(from_i).name@);
                }
            }
        }
        if self.root is Some {
            let r = before.root->0;
            if r == last {
                assert(self.op(removed as int).family == before.op(last).family);
            } else {
                assert(self.op(r as int).family == before.op(r as int).family);
            }
        }
    }

    /// Removes the selected operator, if there is one, and clears the
    /// selection. Where the operator is the root or feeds it, there is no
    /// root afterwards. Else the root stays the operator it was, under the
    /// index it has after the removal. The shader is marked for building
    /// where the root depends on the operator.
    pub fn delete_selected(&mut self)
        requires
            old(self).well_formed(),
        ensures
            final(self).well_formed(),
            final(self).selection is None,
            old(self).selection is None ==> *final(self) == *old(self),
            old(self).selection is Some ==> {
                let selected = old(self).selection->0;
                &&& final(self).graph.is_removal_of(old(self).graph, selected)
                &&& final(self).root == old(self).root_after_removal(selected)
                &&& final(self).dirty == (old(self).dirty || old(self).stales(selected))
                &&& (old(self).loses_root(selected) ==> final(self).dirty)
                &&& final(self).show_preview == old(self).show_preview
                &&& final(self).snapping == old(self).snapping
                &&& final(self).params_index == old(self).params_index
                &&& final(self).serial == old(self).serial
            },
    {
        if let Some(selected) = self.selection {
            if let Some(root) = self.root {
                proof {
                    if self.loses_root(selected) {
                        self.lemma_lost_root_is_stale(selected);
                    }
                }
                if self.graph.depends(root, selected) {
                    self.dirty = true;
                }
                if root == selected || self.graph.has_edge(selected, root) {
                    self.root = None;
                } else if root == self.graph.nodes.len() - 1 {
                    self.root = Some(selected);
                }
            }
            self.graph.remove_node(selected);
            self.selection = None;
            proof {
                self.lemma_removal(*old(self), selected);
            }
        }
    }
}

} // verus!
