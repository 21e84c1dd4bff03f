//! How the pointer acts on the operators of a network: which one it hovers
//! over, selects or drags, and which two it connects.
//!
//! The caller tests the pointer against the rectangles of the operators and
//! hands in what it found; what follows from that is decided here.

use crate::network::Network;
use crate::operator::Op;
use vstd::prelude::*;

verus! {

/// The interaction state of one operator.
#[derive(Copy, Clone, Debug, PartialEq, Eq, Structural)]
pub enum InteractionState {
    Deselected,
    Selected,
    Hover,
    /// An edge is being dragged from this operator's output slot.
    ConnectSource,
    /// An edge is being dragged onto this operator's input slot.
    ConnectDestination,
}

/// Where the pointer is with respect to one operator.
#[derive(Copy, Clone, Debug, PartialEq, Eq, Structural)]
pub struct Hit {
    /// Whether the pointer is inside the operator's body.
    pub body: bool,
    /// Whether the pointer is on the operator's output slot or close to it.
    pub output: bool,
}

/// What one pointer event did to the operators, as far as the caller has
/// to act on it.
#[derive(Copy, Clone, Debug, PartialEq, Eq, Structural)]
pub struct Tracking {
    /// The operator that moves along with the pointer, if one does.
    pub dragged: Option<usize>,
    /// The operator from whose output slot an edge starts, if there is one.
    pub source: Option<usize>,
    /// Whether an edge was being dragged when the event came.
    pub connecting: bool,
}

/// Where a pass over the operators stands: their states, the selection, and
/// what was found so far.
pub ghost struct Pass {
    pub states: Seq<InteractionState>,
    pub selection: Option<usize>,
    pub tracking: Tracking,
}

/// An attempt to connect two operators, and whether the edge was added.
#[derive(Copy, Clone, Debug, PartialEq, Eq, Structural)]
pub struct Attempt {
    pub src: usize,
    pub dst: usize,
    pub connected: bool,
}

/// The state of the operator at `index` after the pointer has been held
/// against it.
///
/// An operator that an edge is dragged from stays so while the button is
/// down, and is released when it is up. Beyond that: under the pointer, the
/// selected operator keeps its state, another one becomes the source of an
/// edge or the selection when the button is down and is hovered over when it
/// is up. Away from the pointer, the selected operator stays selected while
/// the button is up, and every other operator is deselected.
pub open spec fn next_state(
    state: InteractionState,
    index: usize,
    hit: Hit,
    left_down: bool,
    selection: Option<usize>,
) -> InteractionState {
    let released = if state is ConnectSource {
        InteractionState::Deselected
    } else {
        state
    };
    if state is ConnectSource && left_down {
        state
    } else if hit.body {
        if selection == Some(index) {
            released
        } else if left_down {
            if hit.output {
                InteractionState::ConnectSource
            } else {
                InteractionState::Selected
            }
        } else {
            InteractionState::Hover
        }
    } else if selection == Some(index) {
        if left_down {
            released
        } else {
            InteractionState::Selected
        }
    } else {
        InteractionState::Deselected
    }
}

/// The selection after the pointer has been held against the operator at
/// `index`: a click on the body of an operator that is not selected, away
/// from its output slot, selects it; a click away from the selected operator
/// clears the selection.
pub open spec fn next_selection(
    state: InteractionState,
    index: usize,
    hit: Hit,
    left_down: bool,
    selection: Option<usize>,
) -> Option<usize> {
    if !left_down || state is ConnectSource {
        selection
    } else if hit.body {
        if selection != Some(index) && !hit.output {
            Some(index)
        } else {
            selection
        }
    } else if selection == Some(index) {
        None
    } else {
        selection
    }
}

/// What has been found after the pointer has been held against the operator
/// at `index`. An operator that an edge is already dragged from, or on whose
/// output slot the button is down, is the source; the selected operator
/// under the pointer, the button down, is dragged.
pub open spec fn next_tracking(
    state: InteractionState,
    index: usize,
    hit: Hit,
    left_down: bool,
    selection: Option<usize>,
    tracking: Tracking,
) -> Tracking {
    if !left_down {
        tracking
    } else if state is ConnectSource {
        Tracking { source: Some(index), connecting: true, ..tracking }
    } else if hit.body && selection == Some(index) {
        Tracking { dragged: Some(index), ..tracking }
    } else if hit.body && hit.output {
        Tracking { source: Some(index), ..tracking }
    } else {
        tracking
    }
}

/// The pass after the first `upto` operators, in the order of their indices.
/// What an operator does to the selection is seen by those after it.
pub open spec fn pass(
    states: Seq<InteractionState>,
    selection: Option<usize>,
    left_down: bool,
    hits: Seq<Hit>,
    upto: nat,
) -> Pass
    decreases upto,
{
    if upto == 0 {
        Pass {
            states,
            selection,
            tracking: Tracking { dragged: None, source: None, connecting: false },
        }
    } else {
        let before = pass(states, selection, left_down, hits, (upto - 1) as nat);
        let index = (upto - 1) as usize;
        let state = before.states[index as int];
        let hit = hits[index as int];
        Pass {
            states: before.states.update(
                index as int,
                next_state(state, index, hit, left_down, before.selection),
            ),
            selection: next_selection(state, index, hit, left_down, before.selection),
            tracking: next_tracking(
                state,
                index,
                hit,
                left_down,
                before.selection,
                before.tracking,
            ),
        }
    }
}

/// The last index that `marks` marks, if it marks one.
pub open spec fn last_marked(marks: Seq<bool>) -> Option<usize>
    decreases marks.len(),
{
    if marks.len() == 0 {
        None
    } else if marks.last() {
        Some((marks.len() - 1) as usize)
    } else {
        last_marked(marks.drop_last())
    }
}

/// The states of the operators after those that `marks` marks have become
/// the destination of an edge.
pub open spec fn marked(states: Seq<InteractionState>, marks: Seq<bool>) -> Seq<InteractionState> {
    Seq::new(
        states.len(),
        |i: int|
            if 0 <= i < marks.len() && marks[i] {
                InteractionState::ConnectDestination
            } else {
                states[i]
            },
    )
}

impl Network {
    /// Whether `self` is `before` with `states` as the states of its
    /// operators and `selection` as its selection.
    pub open spec fn is_restated(
        &self,
        before: Self,
        states: Seq<InteractionState>,
        selection: Option<usize>,
    ) -> bool {
        &&& self.graph.edges == before.graph.edges
        &&& self.graph.nodes@.len() == before.graph.nodes@.len()
        &&& forall|i: int|
            #![trigger self.op(i)]
            0 <= i < before.graph.count() ==> self.op(i) == (Op {
                state: states[i],
                ..before.op(i)
            })
        &&& self.selection == selection
        &&& self.root == before.root
        &&& self.dirty == before.dirty
        &&& self.show_preview == before.show_preview
        &&& self.snapping == before.snapping
        &&& self.params_index == before.params_index
        &&& self.serial == before.serial
    }

    /// A network stays well formed where only the states of its operators
    /// and its selection change, and the selection names an operator.
    pub proof fn lemma_restated(
        &self,
        before: Self,
        states: Seq<InteractionState>,
        selection: Option<usize>,
    )
        requires
            before.well_formed(),
            self.is_restated(before, states, selection),
            selection is Some ==> selection->0 < before.graph.count(),
        ensures
            self.well_formed(),
    {
        assert forall|i: int|
            #![trigger self.graph.nodes@[i]]
            0 <= i < self.graph.count() implies self.graph.nodes@[i].data == (Op {
            state: states[i],
            ..before.graph.nodes@[i].data
        }) by {
            assert(self.op(i) == self.graph.nodes@[i].data);
        }
        self.graph.lemma_same_connectivity(before.graph);
        self.lemma_operators_kept(before);
    }

    /// Holds the pointer against every operator, in the order of their
    /// indices: `hits[i]` says where the pointer is with respect to operator
    /// `i`, `left_down` whether the left button is down. The operators change
    /// their states and the selection follows, as `pass` says. The caller is
    /// told which operator to move with the pointer and whether an edge is
    /// being dragged, and from where.
    pub fn handle_interaction(&mut self, left_down: bool, hits: &Vec<Hit>) -> (tracking: Tracking)
        requires
            old(self).well_formed(),
            hits@.len() == old(self).graph.count(),
        ensures
            final(self).well_formed(),
            final(self).is_restated(
                *old(self),
                pass(old(self).states(), old(self).selection, left_down, hits@, hits@.len()).states,
                pass(
                    old(self).states(),
                    old(self).selection,
                    left_down,
                    hits@,
                    hits@.len(),
                ).selection,
            ),
            tracking == pass(
                old(self).states(),
                old(self).selection,
                left_down,
                hits@,
                hits@.len(),
            ).tracking,
            tracking.dragged is Some ==> tracking.dragged->0 < hits@.len(),
            tracking.source is Some ==> tracking.source->0 < hits@.len(),
            tracking.connecting ==> tracking.source is Some,
    {
        let n = self.graph.nodes.len();
        let mut tracking = Tracking { dragged: None, source: None, connecting: false };
        let ghost start = old(self).states();
        let mut index: usize = 0;
        while index < n
            invariant
                index <= n,
                n == hits@.len(),
                n == old(self).graph.count(),
                start == old(self).states(),
                old(self).well_formed(),
                self.is_restated(
                    *old(self),
                    pass(start, old(self).selection, left_down, hits@, index as nat).states,
                    pass(start, old(self).selection, left_down, hits@, index as nat).selection,
                ),
                pass(start, old(self).selection, left_down, hits@, index as nat).states.len() == n,
                tracking == pass(start, old(self).selection, left_down, hits@, index as nat).tracking,
                self.selection is Some ==> self.selection->0 < n,
                tracking.dragged is Some ==> tracking.dragged->0 < n,
                tracking.source is Some ==> tracking.source->0 < n,
                tracking.connecting ==> tracking.source is Some,
            decreases n - index,
        {
            let ghost before = pass(start, old(self).selection, left_down, hits@, index as nat);
            let ghost held = *self;
            let hit = hits[index];
            let state = self.graph.nodes[index].data.state;
            assert(state == self.op(index as int).state);
            let selected = match self.selection {
                Some(selected) => selected == index,
                None => false,
            };
            let sourced = match state {
                InteractionState::ConnectSource => true,
                _ => false,
            };
            if sourced && left_down {
                // An edge is being dragged from this operator.
                tracking.connecting = true;
                tracking.source = Some(index);
            } else {
                let mut next = if sourced {
                    InteractionState::Deselected
                } else {
                    state
                };
                if hit.body {
                    if selected {
                        if left_down {
                            tracking.dragged = Some(index);
                        }
                    } else if left_down {
                        if hit.output {
                            // An edge starts at this operator.
                            next = InteractionState::ConnectSource;
                            tracking.source = Some(index);
                        } else {
                            next = InteractionState::Selected;
                            self.selection = Some(index);
                        }
                    } else {
                        next = InteractionState::Hover;
                    }
                } else if selected {
                    if left_down {
                        // A click somewhere else clears the selection.
                        self.selection = None;
                    } else {
                        next = InteractionState::Selected;
                    }
                } else {
                    next = InteractionState::Deselected;
                }
                self.graph.nodes[index].data.state = next;
            }
            proof {
                let after = pass(start, old(self).selection, left_down, hits@, (index + 1) as nat);
                assert(after.states == before.states.update(
                    index as int,
                    next_state(state, index, hit, left_down, before.selection),
                ));
                assert forall|i: int|
                    #![trigger self.op(i)]
                    0 <= i < n implies self.op(i) == (Op {
                    state: after.states[i],
                    ..old(self).op(i)
                }) by {
                    assert(held.op(i) == held.graph.nodes@[i].data);
                }
            }
            index += 1;
        }
        proof {
            let last = pass(start, old(self).selection, left_down, hits@, n as nat);
            self.lemma_restated(*old(self), last.states, last.selection);
        }
        tracking
    }
    /// An attempt to connect two operators of a network does the same to a
    /// network that differs in the states of its operators only.
    pub proof fn lemma_attempt_restated(
        &self,
        mid: Self,
        before: Self,
        states: Seq<InteractionState>,
        a: usize,
        b: usize,
    )
        requires
            a < before.graph.count(),
            b < before.graph.count(),
            states.len() == before.graph.count(),
            mid.is_restated(before, states, before.selection),
            self.is_attempt_of(mid, mid.states(), a, b),
        ensures
            self.is_attempt_of(before, states, a, b),
            mid.graph.can_connect(a as int, b as int) == before.graph.can_connect(
                a as int,
                b as int,
            ),
    {
        let n = before.graph.count();
        assert forall|i: int| 0 <= i < n implies mid.graph.inputs(i) == before.graph.inputs(i)
            && mid.graph.outputs(i) == before.graph.outputs(i) && (
        #[trigger] mid.op(i)).family == before.op(i).family && mid.states()[i] == states[i] by {}
        assert(mid.op(a as int) == mid.graph.nodes@[a as int].data);
        assert(mid.op(b as int) == mid.graph.nodes@[b as int].data);
        assert forall|i: int| 0 <= i < n implies mid.graph.inputs_kept(i)
            == before.graph.inputs_kept(i) && mid.graph.evicts(b as int, i)
            == before.graph.evicts(b as int, i) by {
            assert(mid.op(i) == mid.graph.nodes@[i].data);
        }
        assert forall|i: int| #![trigger self.op(i)] 0 <= i < n implies self.op(i) == (Op {
            active_inputs: self.graph.inputs(i).len() as usize,
            state: if crate::network::deselects(a, b, i) {
                InteractionState::Deselected
            } else {
                states[i]
            },
            ..before.op(i)
        }) by {
            assert(mid.op(i) == mid.graph.nodes@[i].data);
        }
    }

    /// Ends the handling of a pointer event in which an edge was being
    /// dragged, as `tracking` says: `on_input[i]` says whether the pointer is
    /// on the input slot of operator `i` or close to it. Every such operator
    /// becomes the destination of an edge, and the source is connected to the
    /// last of them, as `add_connection` does. Where no edge was being
    /// dragged nothing happens.
    pub fn connect_tracked(&mut self, tracking: Tracking, on_input: &Vec<bool>) -> (attempt: Option<
        Attempt,
    >)
        requires
            old(self).well_formed(),
            on_input@.len() == old(self).graph.count(),
            tracking.source is Some ==> tracking.source->0 < old(self).graph.count(),
        ensures
            final(self).well_formed(),
            !tracking.connecting ==> attempt is None && *final(self) == *old(self),
            tracking.connecting && (tracking.source is None || last_marked(on_input@) is None)
                ==> attempt is None && final(self).is_restated(
                *old(self),
                marked(old(self).states(), on_input@),
                old(self).selection,
            ),
            tracking.connecting && tracking.source is Some && last_marked(on_input@) is Some ==> {
                let src = tracking.source->0;
                let dst = last_marked(on_input@)->0;
                &&& attempt == Some(
                    Attempt {
                        src,
                        dst,
                        connected: old(self).graph.can_connect(src as int, dst as int),
                    },
                )
                &&& final(self).is_attempt_of(
                    *old(self),
                    marked(old(self).states(), on_input@),
                    src,
                    dst,
                )
            },
    {
        if !tracking.connecting {
            return None;
        }
        let n = self.graph.nodes.len();
        let mut last: Option<usize> = None;
        let mut index: usize = 0;
        proof {
            assert(on_input@.take(0) =~= Seq::<bool>::empty());
            assert(marked(old(self).states(), on_input@.take(0)) =~= old(self).states());
        }
        while index < n
            invariant
                index <= n,
                n == on_input@.len(),
                n == old(self).graph.count(),
                self.is_restated(
                    *old(self),
                    marked(old(self).states(), on_input@.take(index as int)),
                    old(self).selection,
                ),
                last == last_marked(on_input@.take(index as int)),
                last is Some ==> last->0 < n,
            decreases n - index,
        {
            let ghost held = *self;
            proof {
                assert(on_input@.take(index + 1).drop_last() =~= on_input@.take(index as int));
            }
            if on_input[index] {
                self.graph.nodes[index].data.state = InteractionState::ConnectDestination;
                last = Some(index);
            }
            proof {
                let now = marked(old(self).states(), on_input@.take(index + 1));
                assert forall|i: int|
                    #![trigger self.op(i)]
                    0 <= i < n implies self.op(i) == (Op { state: now[i], ..old(self).op(i) }) by {
                    assert(held.op(i) == held.graph.nodes@[i].data);
                }
            }
            index += 1;
        }
        proof {
            assert(on_input@.take(n as int) =~= on_input@);
            self.lemma_restated(
                *old(self),
                marked(old(self).states(), on_input@),
                old(self).selection,
            );
        }
        match (tracking.source, last) {
            (Some(src), Some(dst)) => {
                let ghost mid = *self;
                let connected = self.add_connection(src, dst);
                proof {
                    self.lemma_attempt_restated(
                        mid,
                        *old(self),
                        marked(old(self).states(), on_input@),
                        src,
                        dst,
                    );
                }
                Some(Attempt { src, dst, connected })
            },
            _ => None,
        }
    }
}

} // verus!
