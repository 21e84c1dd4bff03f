use sdf_graph::interaction::{Attempt, Hit, InteractionState, Tracking};
use sdf_graph::network::Network;
use sdf_graph::operator::{OpFamily, PrimitiveType};

const SPHERE: OpFamily = OpFamily::Primitive(PrimitiveType::Sphere);
const BOX: OpFamily = OpFamily::Primitive(PrimitiveType::Box);
const UNION: OpFamily = OpFamily::Primitive(PrimitiveType::Union);
const RENDER: OpFamily = OpFamily::Primitive(PrimitiveType::Render);

const AWAY: Hit = Hit { body: false, output: false };
const ON_BODY: Hit = Hit { body: true, output: false };
const ON_OUTPUT: Hit = Hit { body: true, output: true };
const NEAR_OUTPUT: Hit = Hit { body: false, output: true };
const NOTHING: Tracking = Tracking { dragged: None, source: None, connecting: false };

fn network_of(families: &[OpFamily]) -> Network {
    let mut network = Network::new();
    for family in families {
        network.add_op(*family);
    }
    network
}

fn states(network: &Network) -> Vec<InteractionState> {
    network
        .graph
        .get_nodes()
        .iter()
        .map(|node| node.data.state)
        .collect()
}

fn set_state(network: &mut Network, index: usize, state: InteractionState) {
    network.graph.get_node_mut(index).unwrap().data.state = state;
}

#[test]
fn the_pointer_hovers_over_an_operator() {
    let mut network = network_of(&[SPHERE, BOX]);
    set_state(&mut network, 1, InteractionState::Hover);
    let tracking = network.handle_interaction(false, &vec![ON_BODY, AWAY]);
    assert_eq!(tracking, NOTHING);
    assert_eq!(
        states(&network),
        vec![InteractionState::Hover, InteractionState::Deselected]
    );
    assert_eq!(network.selection, None);
}

#[test]
fn a_click_on_the_body_selects() {
    let mut network = network_of(&[SPHERE, BOX]);
    let tracking = network.handle_interaction(true, &vec![AWAY, ON_BODY]);
    assert_eq!(tracking, NOTHING);
    assert_eq!(network.selection, Some(1));
    assert_eq!(
        states(&network),
        vec![InteractionState::Deselected, InteractionState::Selected]
    );
}

#[test]
fn the_selected_operator_is_dragged() {
    let mut network = network_of(&[SPHERE, BOX]);
    network.handle_interaction(true, &vec![AWAY, ON_BODY]);
    let tracking = network.handle_interaction(true, &vec![AWAY, ON_BODY]);
    assert_eq!(
        tracking,
        Tracking { dragged: Some(1), source: None, connecting: false }
    );
    assert_eq!(network.selection, Some(1));
    assert_eq!(
        states(&network),
        vec![InteractionState::Deselected, InteractionState::Selected]
    );
    // On its output slot too: the selected operator starts no edge.
    let tracking = network.handle_interaction(true, &vec![AWAY, ON_OUTPUT]);
    assert_eq!(tracking.dragged, Some(1));
    assert_eq!(tracking.source, None);
}

#[test]
fn the_selected_operator_stays_selected_while_the_button_is_up() {
    let mut network = network_of(&[SPHERE, BOX]);
    network.handle_interaction(true, &vec![ON_BODY, AWAY]);
    let tracking = network.handle_interaction(false, &vec![AWAY, ON_BODY]);
    assert_eq!(tracking, NOTHING);
    assert_eq!(network.selection, Some(0));
    assert_eq!(
        states(&network),
        vec![InteractionState::Selected, InteractionState::Hover]
    );
    // Under the pointer, button up, it keeps its state and is not dragged.
    let tracking = network.handle_interaction(false, &vec![ON_BODY, AWAY]);
    assert_eq!(tracking, NOTHING);
    assert_eq!(
        states(&network),
        vec![InteractionState::Selected, InteractionState::Deselected]
    );
}

#[test]
fn a_click_elsewhere_clears_the_selection() {
    let mut network = network_of(&[SPHERE, BOX]);
    network.handle_interaction(true, &vec![ON_BODY, AWAY]);
    network.handle_interaction(true, &vec![AWAY, AWAY]);
    assert_eq!(network.selection, None);
    // The operator keeps its state in the event that deselects it ...
    assert_eq!(
        states(&network),
        vec![InteractionState::Selected, InteractionState::Deselected]
    );
    // ... and loses it with the next one.
    network.handle_interaction(false, &vec![AWAY, AWAY]);
    assert_eq!(
        states(&network),
        vec![InteractionState::Deselected, InteractionState::Deselected]
    );
}

#[test]
fn a_later_operator_sees_the_selection_that_an_earlier_one_made() {
    // Both operators lie under the pointer and the second one is selected.
    let mut network = network_of(&[SPHERE, BOX]);
    network.selection = Some(1);
    set_state(&mut network, 1, InteractionState::Selected);
    let tracking = network.handle_interaction(true, &vec![ON_BODY, ON_BODY]);
    // The first one takes the selection, so the second one is selected anew
    // and is not dragged.
    assert_eq!(tracking, NOTHING);
    assert_eq!(network.selection, Some(1));
    assert_eq!(
        states(&network),
        vec![InteractionState::Selected, InteractionState::Selected]
    );
}

#[test]
fn an_operator_selected_earlier_in_the_pass_drags_nothing_later() {
    let mut network = network_of(&[SPHERE, BOX]);
    network.selection = Some(0);
    let tracking = network.handle_interaction(true, &vec![ON_BODY, ON_BODY]);
    assert_eq!(tracking.dragged, Some(0));
    assert_eq!(network.selection, Some(1));
}

#[test]
fn a_click_on_an_output_slot_starts_an_edge() {
    let mut network = network_of(&[SPHERE, RENDER]);
    let tracking = network.handle_interaction(true, &vec![ON_OUTPUT, AWAY]);
    assert_eq!(
        tracking,
        Tracking { dragged: None, source: Some(0), connecting: false }
    );
    assert_eq!(
        states(&network),
        vec![InteractionState::ConnectSource, InteractionState::Deselected]
    );
    assert_eq!(network.selection, None);
    // Nothing is connected in the event that starts the edge.
    assert_eq!(network.connect_tracked(tracking, &vec![false, true]), None);
    assert_eq!(
        states(&network),
        vec![InteractionState::ConnectSource, InteractionState::Deselected]
    );
}

#[test]
fn the_output_slot_counts_only_under_the_body() {
    let mut network = network_of(&[SPHERE]);
    let tracking = network.handle_interaction(true, &vec![NEAR_OUTPUT]);
    assert_eq!(tracking, NOTHING);
    assert_eq!(states(&network), vec![InteractionState::Deselected]);
}

#[test]
fn an_edge_is_dragged_onto_an_input_slot() {
    let mut network = network_of(&[SPHERE, RENDER]);
    network.handle_interaction(true, &vec![ON_OUTPUT, AWAY]);
    let tracking = network.handle_interaction(true, &vec![AWAY, ON_BODY]);
    assert_eq!(
        tracking,
        Tracking { dragged: None, source: Some(0), connecting: true }
    );
    // The source stays the source; the button is down on the render
    // operator, which is selected.
    assert_eq!(
        states(&network),
        vec![InteractionState::ConnectSource, InteractionState::Selected]
    );
    let attempt = network.connect_tracked(tracking, &vec![false, true]);
    assert_eq!(attempt, Some(Attempt { src: 0, dst: 1, connected: true }));
    assert_eq!(network.graph.get_edges()[1].inputs, vec![0]);
    assert_eq!(network.graph.get_edges()[0].outputs, vec![1]);
    assert_eq!(network.root, Some(1));
    assert!(network.dirty());
    assert_eq!(
        states(&network),
        vec![InteractionState::Deselected, InteractionState::Deselected]
    );
}

#[test]
fn an_edge_that_meets_no_input_slot_connects_nothing() {
    let mut network = network_of(&[SPHERE, RENDER]);
    set_state(&mut network, 0, InteractionState::ConnectSource);
    let tracking = network.handle_interaction(true, &vec![AWAY, AWAY]);
    assert!(tracking.connecting);
    assert_eq!(network.connect_tracked(tracking, &vec![false, false]), None);
    assert!(network.graph.get_edges()[1].inputs.is_empty());
    assert_eq!(
        states(&network),
        vec![InteractionState::ConnectSource, InteractionState::Deselected]
    );
}

#[test]
fn the_last_input_slot_under_the_pointer_is_the_destination() {
    let mut network = network_of(&[SPHERE, UNION, UNION, BOX]);
    set_state(&mut network, 0, InteractionState::ConnectSource);
    let tracking = network.handle_interaction(true, &vec![AWAY, AWAY, AWAY, AWAY]);
    let attempt = network.connect_tracked(tracking, &vec![false, true, true, false]);
    assert_eq!(attempt, Some(Attempt { src: 0, dst: 2, connected: true }));
    assert_eq!(network.graph.get_edges()[2].inputs, vec![0]);
    assert!(network.graph.get_edges()[1].inputs.is_empty());
    // The other operator under the pointer stays marked as a destination.
    assert_eq!(
        states(&network),
        vec![
            InteractionState::Deselected,
            InteractionState::ConnectDestination,
            InteractionState::Deselected,
            InteractionState::Deselected
        ]
    );
}

#[test]
fn an_edge_onto_its_own_operator_is_refused() {
    let mut network = network_of(&[UNION]);
    set_state(&mut network, 0, InteractionState::ConnectSource);
    let tracking = network.handle_interaction(true, &vec![ON_BODY]);
    let attempt = network.connect_tracked(tracking, &vec![true]);
    assert_eq!(attempt, Some(Attempt { src: 0, dst: 0, connected: false }));
    assert!(network.graph.get_edges()[0].inputs.is_empty());
    assert_eq!(states(&network), vec![InteractionState::ConnectDestination]);
}

#[test]
fn an_edge_in_the_wrong_direction_is_refused() {
    let mut network = network_of(&[RENDER, SPHERE]);
    set_state(&mut network, 0, InteractionState::ConnectSource);
    let tracking = network.handle_interaction(true, &vec![AWAY, AWAY]);
    let attempt = network.connect_tracked(tracking, &vec![false, true]);
    assert_eq!(attempt, Some(Attempt { src: 0, dst: 1, connected: false }));
    assert!(network.graph.get_edges()[0].outputs.is_empty());
    assert!(network.graph.get_edges()[1].inputs.is_empty());
    assert_eq!(network.root, None);
}

#[test]
fn releasing_the_button_drops_the_edge() {
    let mut network = network_of(&[SPHERE, RENDER]);
    set_state(&mut network, 0, InteractionState::ConnectSource);
    let tracking = network.handle_interaction(false, &vec![AWAY, ON_BODY]);
    assert_eq!(tracking, NOTHING);
    assert_eq!(
        states(&network),
        vec![InteractionState::Deselected, InteractionState::Hover]
    );
    assert_eq!(network.connect_tracked(tracking, &vec![false, true]), None);
    assert!(network.graph.get_edges()[1].inputs.is_empty());
}

#[test]
fn the_last_source_in_the_pass_is_the_source() {
    let mut network = network_of(&[SPHERE, BOX, UNION]);
    set_state(&mut network, 0, InteractionState::ConnectSource);
    set_state(&mut network, 1, InteractionState::ConnectSource);
    let tracking = network.handle_interaction(true, &vec![AWAY, AWAY, AWAY]);
    assert_eq!(
        tracking,
        Tracking { dragged: None, source: Some(1), connecting: true }
    );
}
