use bevy_prototype_animation::graph::{
    AnimationGraph, AnimationGraphError, ClipId, Influence, NodeId, NodeInput, Step, Weight,
};

fn w(x: f32) -> Weight {
    Weight(x.to_bits())
}

/// Sums, per clip, the product of the weights along each path, as a host does.
fn clip_weights(graph: &AnimationGraph, influences: &[Influence]) -> Vec<f32> {
    let mut weights = vec![0.0f32; graph.clip_count() as usize];
    for influence in influences {
        let mut cumulative = 1.0f32;
        for step in &influence.path {
            cumulative = f32::from_bits(step.weight.0) * cumulative;
        }
        weights[influence.clip.0 as usize] += cumulative;
    }
    weights
}

/// The nodes that a traversal visits: the root and every node on a path.
fn visited(influences: &[Influence]) -> Vec<u16> {
    let mut nodes = vec![0u16];
    for influence in influences {
        for step in &influence.path {
            if !nodes.contains(&step.node.0) {
                nodes.push(step.node.0);
            }
        }
    }
    nodes.sort();
    nodes
}

#[test]
fn weights_of_two_leaves_under_the_root() {
    let mut graph = AnimationGraph::new();
    let root = AnimationGraph::root();
    let a = graph.add_clip();
    let b = graph.add_clip();
    let _unconnected = graph.add_clip();
    graph.add_input(root, a).unwrap();
    graph.add_input(root, b).unwrap();
    graph.update_input(root, a, true, w(0.3)).unwrap();
    graph.update_input(root, b, true, w(0.7)).unwrap();
    let influences = graph.evaluate();
    assert_eq!(influences.len(), 2);
    assert_eq!(influences[0].clip, ClipId(0));
    assert_eq!(influences[0].path, vec![Step { node: a, weight: w(0.3) }]);
    assert_eq!(influences[1].clip, ClipId(1));
    assert_eq!(influences[1].path, vec![Step { node: b, weight: w(0.7) }]);
    assert_eq!(clip_weights(&graph, &influences), vec![0.3, 0.7, 0.0]);
}

#[test]
fn nested_weights_multiply_and_fan_in_adds() {
    let mut graph = AnimationGraph::new();
    let root = AnimationGraph::root();
    let blend = graph.add_blend(true);
    let clip = graph.add_clip();
    graph.add_input(root, blend).unwrap();
    graph.add_input(root, clip).unwrap();
    graph.add_input(blend, clip).unwrap();
    graph.update_input(root, blend, true, w(0.5)).unwrap();
    graph.update_input(blend, clip, true, w(0.5)).unwrap();
    graph.update_input(root, clip, true, w(0.25)).unwrap();
    let influences = graph.evaluate();
    assert_eq!(influences.len(), 2);
    assert_eq!(clip_weights(&graph, &influences), vec![0.5]);
}

#[test]
fn disconnected_edge_prunes_its_subtree() {
    let mut graph = AnimationGraph::new();
    let root = AnimationGraph::root();
    let kept = graph.add_clip();
    let blend = graph.add_blend(true);
    let below = graph.add_clip();
    graph.add_input(root, kept).unwrap();
    graph.add_input(root, blend).unwrap();
    graph.add_input(blend, below).unwrap();
    assert_eq!(visited(&graph.evaluate()), vec![0, kept.0, blend.0, below.0]);
    graph.update_input(root, blend, false, w(1.0)).unwrap();
    let influences = graph.evaluate();
    assert_eq!(visited(&influences), vec![0, kept.0]);
    assert_eq!(clip_weights(&graph, &influences), vec![1.0, 0.0]);
}

#[test]
fn zero_weight_edge_prunes_its_subtree() {
    let mut graph = AnimationGraph::new();
    let root = AnimationGraph::root();
    let blend = graph.add_blend(true);
    let below = graph.add_clip();
    graph.add_input(root, blend).unwrap();
    graph.add_input(blend, below).unwrap();
    graph.update_input(root, blend, true, w(-0.0)).unwrap();
    let influences = graph.evaluate();
    assert!(influences.is_empty());
    assert_eq!(visited(&influences), vec![0]);
    assert_eq!(clip_weights(&graph, &influences), vec![0.0]);
}

#[test]
fn time_stops_at_a_node_that_does_not_propagate() {
    let mut graph = AnimationGraph::new();
    let root = AnimationGraph::root();
    let holder = graph.add_blend(false);
    let a = graph.add_clip();
    let b = graph.add_clip();
    graph.add_input(root, holder).unwrap();
    graph.add_input(holder, a).unwrap();
    graph.add_input(root, b).unwrap();
    assert_eq!(graph.time_targets(holder), Ok(vec![]));
    assert_eq!(graph.time_targets(root), Ok(vec![ClipId(1)]));
    assert_eq!(graph.time_targets(a), Ok(vec![ClipId(0)]));
}

#[test]
fn time_propagates_through_connected_edges_only() {
    let mut graph = AnimationGraph::new();
    let root = AnimationGraph::root();
    let a = graph.add_clip();
    let b = graph.add_clip();
    graph.add_input(root, a).unwrap();
    graph.add_input(root, b).unwrap();
    assert_eq!(graph.time_targets(root), Ok(vec![ClipId(0), ClipId(1)]));
    graph.update_input(root, a, false, w(1.0)).unwrap();
    assert_eq!(graph.time_targets(root), Ok(vec![ClipId(1)]));
    graph.update_input(root, b, true, w(0.0)).unwrap();
    assert_eq!(graph.time_targets(root), Ok(vec![ClipId(1)]));
    assert_eq!(
        graph.time_targets(NodeId(9)),
        Err(AnimationGraphError::NodeNotFound(NodeId(9)))
    );
}

#[test]
fn add_input_errors() {
    let mut graph = AnimationGraph::new();
    let root = AnimationGraph::root();
    let clip = graph.add_clip();
    assert_eq!(
        graph.add_input(root, NodeId(7)),
        Err(AnimationGraphError::NodeNotFound(NodeId(7)))
    );
    assert_eq!(
        graph.add_input(NodeId(7), clip),
        Err(AnimationGraphError::NodeNotFound(NodeId(7)))
    );
    assert_eq!(graph.add_input(clip, root), Err(AnimationGraphError::NotBlendNode(clip)));
    assert_eq!(graph.add_input(root, clip), Ok(()));
    assert_eq!(
        graph.add_input(root, clip),
        Err(AnimationGraphError::InputAlreadyExists(clip))
    );
    assert_eq!(graph.node_count(), 2);
}

#[test]
fn new_edges_are_connected_with_weight_one() {
    let mut graph = AnimationGraph::new();
    let root = AnimationGraph::root();
    let clip = graph.add_clip();
    graph.add_input(root, clip).unwrap();
    let edge = graph.get_input(root, clip).unwrap();
    assert_eq!(edge, NodeInput::new(clip));
    assert!(edge.is_connected());
    assert_eq!(f32::from_bits(edge.weight().0), 1.0);
    assert_eq!(graph.get_input(root, root), None);
    assert_eq!(
        graph.update_input(root, root, true, w(1.0)),
        Err(AnimationGraphError::NodeNotFound(root))
    );
}

#[test]
fn node_input_setters() {
    let mut edge = NodeInput::new(NodeId(3));
    edge.disconnect();
    assert!(!edge.is_connected());
    edge.reconnect();
    assert!(edge.is_connected());
    edge.set_weight(w(0.5));
    assert_eq!(edge.weight(), w(0.5));
    assert_eq!(edge.node_id(), NodeId(3));
}

#[test]
fn clip_ids_follow_insertion_order() {
    let mut graph = AnimationGraph::new();
    let a = graph.add_clip();
    let blend = graph.add_blend(true);
    let b = graph.add_clip();
    assert_eq!(graph.clip_of(a), Some(ClipId(0)));
    assert_eq!(graph.clip_of(b), Some(ClipId(1)));
    assert_eq!(graph.clip_of(blend), None);
    assert_eq!(graph.clip_of(NodeId(40)), None);
    assert_eq!(graph.clip_count(), 2);
}

#[test]
fn cycle_does_not_hang_evaluation_or_time() {
    let mut graph = AnimationGraph::new();
    let root = AnimationGraph::root();
    let blend = graph.add_blend(true);
    let clip = graph.add_clip();
    graph.add_input(root, blend).unwrap();
    graph.add_input(blend, root).unwrap();
    graph.add_input(blend, clip).unwrap();
    let influences = graph.evaluate();
    assert!(!influences.is_empty());
    assert!(influences.iter().all(|i| i.path.len() <= graph.node_count()));
    let targets = graph.time_targets(root).unwrap();
    assert!(targets.iter().all(|c| *c == ClipId(0)));
}

#[test]
fn weight_zero_test_covers_both_signs() {
    assert!(w(0.0).is_zero());
    assert!(w(-0.0).is_zero());
    assert!(!w(1e-30).is_zero());
    assert!(!Weight::one().is_zero());
    assert_eq!(Weight::one(), w(1.0));
}

#[test]
fn time_reaches_a_shared_clip_once() {
    let mut graph = AnimationGraph::new();
    let root = AnimationGraph::root();
    let left = graph.add_blend(true);
    let right = graph.add_blend(true);
    let shared = graph.add_clip();
    graph.add_input(root, left).unwrap();
    graph.add_input(root, right).unwrap();
    graph.add_input(left, shared).unwrap();
    graph.add_input(right, shared).unwrap();
    assert_eq!(graph.time_targets(root), Ok(vec![ClipId(0)]));
    let influences = graph.evaluate();
    assert_eq!(influences.len(), 2);
    assert_eq!(clip_weights(&graph, &influences), vec![2.0]);
}
