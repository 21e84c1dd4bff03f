use sdf_graph::graph::{Edges, Graph, Node};
use sdf_graph::operator::{DomainType, Op, OpFamily, PrimitiveType};

const ROOT: OpFamily = OpFamily::Domain(DomainType::Root);
const TWIST: OpFamily = OpFamily::Domain(DomainType::Twist);
const SPHERE: OpFamily = OpFamily::Primitive(PrimitiveType::Sphere);
const BOX: OpFamily = OpFamily::Primitive(PrimitiveType::Box);
const UNION: OpFamily = OpFamily::Primitive(PrimitiveType::Union);
const RENDER: OpFamily = OpFamily::Primitive(PrimitiveType::Render);

fn graph_of(families: &[OpFamily]) -> Graph<Op, usize> {
    let mut graph = Graph::new();
    for (serial, family) in families.iter().enumerate() {
        graph.add_node(Op::new(*family, serial), 0);
    }
    graph
}

fn inputs(graph: &Graph<Op, usize>, i: usize) -> Vec<usize> {
    graph.get_edges()[i].inputs.clone()
}

fn outputs(graph: &Graph<Op, usize>, i: usize) -> Vec<usize> {
    graph.get_edges()[i].outputs.clone()
}

/// The invariants that every operation keeps, checked on the graph as it is.
fn check_invariants(graph: &Graph<Op, usize>) {
    let n = graph.get_nodes().len();
    assert_eq!(graph.get_edges().len(), n);
    for i in 0..n {
        let op = &graph.get_nodes()[i].data;
        assert!(inputs(graph, i).len() <= op.family.get_input_capacity());
        assert_eq!(op.active_inputs, inputs(graph, i).len());
        if !op.family.has_outputs() {
            assert!(outputs(graph, i).is_empty());
        }
        for &a in inputs(graph, i).iter() {
            assert!(a < n && a != i);
        }
        for &b in outputs(graph, i).iter() {
            assert!(b < n && b != i);
        }
        for j in 0..n {
            assert_eq!(
                outputs(graph, i).contains(&j),
                inputs(graph, j).contains(&i)
            );
        }
    }
}

#[test]
fn a_new_graph_is_empty() {
    let graph: Graph<Op, usize> = Graph::new();
    assert!(graph.get_nodes().is_empty());
    assert!(graph.get_edges().is_empty());
    assert!(graph.get_node(0).is_none());
}

#[test]
fn add_node_appends_a_node_without_edges() {
    let mut graph: Graph<Op, usize> = Graph::new();
    graph.add_node(Op::new(SPHERE, 0), 11);
    graph.add_node(Op::new(RENDER, 1), 22);
    assert_eq!(graph.get_nodes().len(), 2);
    assert_eq!(graph.get_node(0).unwrap().data.name, "sphere_0");
    assert_eq!(graph.get_node(1).unwrap().data.name, "render_1");
    assert!(graph.get_node(2).is_none());
    assert_eq!(graph.get_edges()[0].data, 11);
    assert_eq!(graph.get_edges()[1].data, 22);
    assert!(inputs(&graph, 1).is_empty() && outputs(&graph, 1).is_empty());
    check_invariants(&graph);
}

#[test]
fn node_and_edges_start_out_as_given() {
    let node = Node::new(Op::new(SPHERE, 3));
    assert_eq!(node.data.name, "sphere_3");
    let edges = Edges::new(5usize);
    assert!(edges.inputs.is_empty());
    assert!(edges.outputs.is_empty());
    assert_eq!(edges.data, 5);
}

#[test]
fn add_edge_connects_both_lists() {
    let mut graph = graph_of(&[SPHERE, RENDER]);
    assert!(graph.add_edge(0, 1));
    assert_eq!(outputs(&graph, 0), vec![1]);
    assert_eq!(inputs(&graph, 1), vec![0]);
    assert!(inputs(&graph, 0).is_empty());
    assert!(outputs(&graph, 1).is_empty());
    assert_eq!(graph.get_node(1).unwrap().data.active_inputs, 1);
    assert!(graph.has_edge(0, 1));
    assert!(!graph.has_edge(1, 0));
    check_invariants(&graph);
}

#[test]
fn add_edge_in_the_wrong_direction_adds_nothing() {
    let mut graph = graph_of(&[SPHERE, RENDER]);
    assert!(!graph.add_edge(1, 0));
    assert!(outputs(&graph, 1).is_empty());
    assert!(inputs(&graph, 0).is_empty());
    assert!(outputs(&graph, 0).is_empty());
    assert!(inputs(&graph, 1).is_empty());
    assert_eq!(graph.get_node(0).unwrap().data.active_inputs, 0);
    check_invariants(&graph);
}

#[test]
fn add_edge_refuses_a_node_to_itself() {
    let mut graph = graph_of(&[UNION]);
    assert!(!graph.add_edge(0, 0));
    assert!(inputs(&graph, 0).is_empty() && outputs(&graph, 0).is_empty());
}

#[test]
fn add_edge_refuses_a_destination_without_inputs() {
    let mut graph = graph_of(&[SPHERE, ROOT]);
    assert!(!graph.add_edge(0, 1));
    assert!(inputs(&graph, 1).is_empty() && outputs(&graph, 0).is_empty());
    check_invariants(&graph);
}

#[test]
fn a_full_input_slot_gives_up_its_oldest_connection() {
    let mut graph = graph_of(&[SPHERE, SPHERE, SPHERE, UNION]);
    assert!(graph.add_edge(0, 3));
    assert!(graph.add_edge(1, 3));
    assert_eq!(inputs(&graph, 3), vec![0, 1]);
    assert!(graph.add_edge(2, 3));
    assert_eq!(inputs(&graph, 3).len(), 2);
    assert_eq!(inputs(&graph, 3), vec![1, 2]);
    assert!(!outputs(&graph, 0).contains(&3));
    assert!(outputs(&graph, 0).is_empty());
    assert_eq!(outputs(&graph, 1), vec![3]);
    assert_eq!(outputs(&graph, 2), vec![3]);
    assert_eq!(graph.get_node(3).unwrap().data.active_inputs, 2);
    check_invariants(&graph);
}

#[test]
fn a_full_slot_of_one_input_is_taken_over() {
    let mut graph = graph_of(&[SPHERE, BOX, RENDER]);
    assert!(graph.add_edge(0, 2));
    assert!(graph.add_edge(1, 2));
    assert_eq!(inputs(&graph, 2), vec![1]);
    assert!(outputs(&graph, 0).is_empty());
    assert_eq!(outputs(&graph, 1), vec![2]);
    check_invariants(&graph);
}

#[test]
fn the_same_edge_twice_is_driven_out_as_one() {
    let mut graph = graph_of(&[SPHERE, BOX, UNION]);
    assert!(graph.add_edge(0, 2));
    assert!(graph.add_edge(0, 2));
    assert_eq!(inputs(&graph, 2), vec![0, 0]);
    assert_eq!(outputs(&graph, 0), vec![2, 2]);
    check_invariants(&graph);
    assert!(graph.add_edge(1, 2));
    assert_eq!(inputs(&graph, 2), vec![1]);
    assert!(outputs(&graph, 0).is_empty());
    assert_eq!(graph.get_node(2).unwrap().data.active_inputs, 1);
    check_invariants(&graph);
}

#[test]
fn reconnecting_the_oldest_input_makes_it_the_newest() {
    let mut graph = graph_of(&[SPHERE, BOX, UNION]);
    assert!(graph.add_edge(0, 2));
    assert!(graph.add_edge(1, 2));
    assert!(graph.add_edge(0, 2));
    assert_eq!(inputs(&graph, 2), vec![1, 0]);
    assert_eq!(outputs(&graph, 0), vec![2]);
    check_invariants(&graph);
}

#[test]
fn remove_edge_removes_both_entries() {
    let mut graph = graph_of(&[SPHERE, BOX, UNION]);
    graph.add_edge(0, 2);
    graph.add_edge(1, 2);
    graph.remove_edge(0, 2);
    assert_eq!(inputs(&graph, 2), vec![1]);
    assert!(outputs(&graph, 0).is_empty());
    assert_eq!(outputs(&graph, 1), vec![2]);
    assert_eq!(graph.get_node(2).unwrap().data.active_inputs, 1);
    check_invariants(&graph);
}

#[test]
fn remove_edge_without_an_edge_changes_nothing() {
    let mut graph = graph_of(&[SPHERE, BOX, UNION]);
    graph.add_edge(0, 2);
    graph.remove_edge(1, 2);
    graph.remove_edge(2, 0);
    graph.remove_edge(1, 1);
    assert_eq!(inputs(&graph, 2), vec![0]);
    assert_eq!(outputs(&graph, 0), vec![2]);
    assert_eq!(graph.get_node(2).unwrap().data.active_inputs, 1);
    check_invariants(&graph);
}

#[test]
fn capacity_and_mirroring_hold_after_many_calls() {
    let families = [ROOT, TWIST, SPHERE, BOX, UNION, UNION, RENDER];
    let mut graph = graph_of(&families);
    let n = families.len();
    let mut seed: usize = 12345;
    for _ in 0..400 {
        seed = seed.wrapping_mul(1103515245).wrapping_add(12345) % 2147483648;
        let src = (seed / 7) % n;
        let dst = (seed / 53) % n;
        if (seed / 3) % 4 == 0 {
            graph.remove_edge(src, dst);
        } else {
            let expected = src != dst
                && families[src].has_outputs()
                && families[dst].has_inputs();
            assert_eq!(graph.add_edge(src, dst), expected);
        }
        check_invariants(&graph);
    }
}

#[test]
fn remove_node_moves_the_last_node_into_the_gap() {
    // root -> twist -> sphere -> union <- box, union -> render
    let mut graph = graph_of(&[ROOT, TWIST, SPHERE, BOX, UNION, RENDER]);
    graph.add_edge(0, 1);
    graph.add_edge(1, 2);
    graph.add_edge(0, 3);
    graph.add_edge(2, 4);
    graph.add_edge(3, 4);
    graph.add_edge(4, 5);
    graph.remove_node(1);
    let names: Vec<&str> = graph
        .get_nodes()
        .iter()
        .map(|node| node.data.name.as_str())
        .collect();
    assert_eq!(names, vec!["root_0", "render_5", "sphere_2", "box_3", "union_4"]);
    // The render operator is now node 1 and still fed by the union.
    assert_eq!(inputs(&graph, 1), vec![4]);
    assert_eq!(outputs(&graph, 4), vec![1]);
    // The edges of the removed twist are gone.
    assert_eq!(outputs(&graph, 0), vec![3]);
    assert!(inputs(&graph, 2).is_empty());
    assert_eq!(graph.get_node(2).unwrap().data.active_inputs, 0);
    assert_eq!(inputs(&graph, 4), vec![2, 3]);
    for i in 0..5 {
        for &k in inputs(&graph, i).iter().chain(outputs(&graph, i).iter()) {
            assert!(k < 5);
        }
    }
    check_invariants(&graph);
}

#[test]
fn remove_node_of_the_last_node_moves_nothing() {
    let mut graph = graph_of(&[SPHERE, BOX, UNION]);
    graph.add_edge(0, 2);
    graph.add_edge(1, 2);
    graph.remove_node(2);
    assert_eq!(graph.get_nodes().len(), 2);
    assert_eq!(graph.get_node(0).unwrap().data.name, "sphere_0");
    assert_eq!(graph.get_node(1).unwrap().data.name, "box_1");
    assert!(outputs(&graph, 0).is_empty() && outputs(&graph, 1).is_empty());
    check_invariants(&graph);
}

#[test]
fn remove_node_of_the_only_node_empties_the_graph() {
    let mut graph = graph_of(&[SPHERE]);
    graph.remove_node(0);
    assert!(graph.get_nodes().is_empty());
    assert!(graph.get_edges().is_empty());
}

#[test]
fn remove_node_keeps_the_data_of_the_edge_lists_with_their_nodes() {
    let mut graph: Graph<Op, usize> = Graph::new();
    graph.add_node(Op::new(SPHERE, 0), 100);
    graph.add_node(Op::new(BOX, 1), 101);
    graph.add_node(Op::new(UNION, 2), 102);
    graph.remove_node(0);
    assert_eq!(graph.get_node(0).unwrap().data.name, "union_2");
    assert_eq!(graph.get_edges()[0].data, 102);
    assert_eq!(graph.get_edges()[1].data, 101);
}

#[test]
fn traverse_emits_inputs_before_the_node() {
    // root -> sphere -> union <- box <- root, union -> render
    let mut graph = graph_of(&[RENDER, UNION, SPHERE, BOX, ROOT]);
    graph.add_edge(4, 2);
    graph.add_edge(4, 3);
    graph.add_edge(2, 1);
    graph.add_edge(3, 1);
    graph.add_edge(1, 0);
    assert!(graph.is_acyclic_from(0));
    let order = graph.traverse(0);
    assert_eq!(order, vec![4, 2, 3, 1, 0]);
    for (at, &node) in order.iter().enumerate() {
        for input in inputs(&graph, node) {
            assert!(order[..at].contains(&input));
        }
    }
    check_invariants(&graph);
}

#[test]
fn traverse_emits_a_shared_node_once() {
    // One sphere feeds both inputs of two unions at different depths.
    let mut graph = graph_of(&[SPHERE, UNION, UNION, BOX, RENDER]);
    graph.add_edge(0, 1);
    graph.add_edge(3, 1);
    graph.add_edge(1, 2);
    graph.add_edge(0, 2);
    graph.add_edge(2, 4);
    let order = graph.traverse(4);
    assert_eq!(order, vec![0, 3, 1, 2, 4]);
    let mut sorted = order.clone();
    sorted.sort();
    sorted.dedup();
    assert_eq!(sorted.len(), order.len());
}

#[test]
fn traverse_follows_the_order_of_the_inputs() {
    let mut graph = graph_of(&[SPHERE, BOX, UNION]);
    graph.add_edge(1, 2);
    graph.add_edge(0, 2);
    assert_eq!(graph.traverse(2), vec![1, 0, 2]);
}

#[test]
fn traverse_of_a_node_without_inputs_is_the_node() {
    let mut graph = graph_of(&[SPHERE, RENDER]);
    assert_eq!(graph.traverse(1), vec![1]);
    assert_eq!(graph.traverse(0), vec![0]);
}

#[test]
fn traverse_leaves_out_what_the_root_does_not_depend_on() {
    let mut graph = graph_of(&[SPHERE, BOX, RENDER, UNION]);
    graph.add_edge(0, 2);
    graph.add_edge(1, 3);
    assert_eq!(graph.traverse(2), vec![0, 2]);
    assert_eq!(graph.traverse(3), vec![1, 3]);
}

#[test]
fn traverse_leaves_the_graph_as_it_was() {
    let mut graph = graph_of(&[SPHERE, BOX, UNION]);
    graph.add_edge(0, 2);
    graph.add_edge(1, 2);
    let _ = graph.traverse(2);
    assert_eq!(inputs(&graph, 2), vec![0, 1]);
    assert_eq!(outputs(&graph, 0), vec![2]);
    assert_eq!(graph.get_nodes().len(), 3);
}

#[test]
fn a_cycle_is_found() {
    let mut graph = graph_of(&[UNION, UNION, SPHERE, RENDER]);
    graph.add_edge(2, 0);
    graph.add_edge(0, 1);
    graph.add_edge(1, 3);
    assert!(graph.is_acyclic_from(3));
    // Close the cycle between the two unions.
    assert!(graph.add_edge(1, 0));
    assert!(!graph.is_acyclic_from(0));
    assert!(!graph.is_acyclic_from(1));
    assert!(!graph.is_acyclic_from(3));
    // The sphere depends on nothing.
    assert!(graph.is_acyclic_from(2));
    check_invariants(&graph);
}

#[test]
fn mutable_access_reaches_the_nodes_and_edges() {
    let mut graph = graph_of(&[SPHERE, BOX]);
    graph.get_node_mut(1).unwrap().data.name = "crate_1".to_string();
    assert_eq!(graph.get_node(1).unwrap().data.name, "crate_1");
    assert!(graph.get_node_mut(2).is_none());
    graph.get_nodes_mut()[0].data.params.set_index(5);
    assert_eq!(graph.get_nodes()[0].data.params.get_index(), 5);
    graph.get_edges_mut()[0].data = 9;
    assert_eq!(graph.get_edges()[0].data, 9);
}

#[test]
fn depends_follows_the_input_edges() {
    let mut graph = graph_of(&[ROOT, SPHERE, BOX, UNION, RENDER, TWIST]);
    graph.add_edge(0, 1);
    graph.add_edge(1, 3);
    graph.add_edge(2, 3);
    graph.add_edge(3, 4);
    assert!(graph.depends(4, 4));
    assert!(graph.depends(4, 3));
    assert!(graph.depends(4, 0));
    assert!(graph.depends(3, 2));
    assert!(!graph.depends(4, 5));
    assert!(!graph.depends(0, 4));
    assert!(!graph.depends(1, 2));
    // The traversal holds exactly what the root depends on.
    let order = graph.traverse(4);
    for node in 0..6 {
        assert_eq!(order.contains(&node), graph.depends(4, node));
    }
}

#[test]
fn depends_ends_on_a_cycle() {
    let mut graph = graph_of(&[UNION, UNION, SPHERE]);
    graph.add_edge(0, 1);
    graph.add_edge(1, 0);
    assert!(graph.depends(0, 1));
    assert!(graph.depends(1, 0));
    assert!(graph.depends(0, 0));
    assert!(!graph.depends(0, 2));
}

#[test]
fn the_invariants_hold_while_nodes_come_and_go() {
    let families = [ROOT, TWIST, SPHERE, BOX, UNION, UNION, RENDER];
    let mut graph = graph_of(&families);
    let mut serial = families.len();
    let mut seed: usize = 2024;
    for _ in 0..600 {
        seed = seed.wrapping_mul(1103515245).wrapping_add(12345) % 2147483648;
        let n = graph.get_nodes().len();
        let choice = (seed / 3) % 8;
        if n == 0 || choice == 0 {
            let family = families[(seed / 11) % families.len()];
            graph.add_node(Op::new(family, serial), serial);
            serial += 1;
        } else if choice == 1 && n > 3 {
            let index = (seed / 7) % n;
            let names: Vec<String> = graph
                .get_nodes()
                .iter()
                .map(|node| node.data.name.clone())
                .collect();
            graph.remove_node(index);
            // Every node but the removed one is still there, the last one
            // in the gap and the others where they were.
            for (i, node) in graph.get_nodes().iter().enumerate() {
                let from = if i == index { n - 1 } else { i };
                assert_eq!(node.data.name, names[from]);
            }
        } else if choice == 2 {
            graph.remove_edge((seed / 7) % n, (seed / 53) % n);
        } else {
            graph.add_edge((seed / 7) % n, (seed / 53) % n);
        }
        check_invariants(&graph);
    }
}
