use std::collections::HashMap;

use clawdengine::node_graph::{skin_bone_links, NodeGraph};
use clawdengine::skeleton::{topological_sort_bones, BoneLink};

fn graph() -> NodeGraph {
    // scene roots: 0 and 5
    // 0 -> 1 -> 2
    //   -> 3
    // 5 -> 4
    NodeGraph {
        children: vec![vec![1, 3], vec![2], vec![], vec![], vec![], vec![4]],
        scenes: vec![vec![0, 5]],
    }
}

#[test]
fn parent_map_records_each_child_under_its_node() {
    let m = graph().build_parent_map();
    let mut expected = HashMap::new();
    expected.insert(1, 0);
    expected.insert(2, 1);
    expected.insert(3, 0);
    expected.insert(4, 5);
    assert_eq!(m, expected);
}

#[test]
fn nodes_outside_every_scene_get_no_parent() {
    let g = NodeGraph { children: vec![vec![1], vec![]], scenes: vec![vec![]] };
    assert!(g.build_parent_map().is_empty());
}

#[test]
fn skin_bones_follow_the_node_hierarchy() {
    let m = graph().build_parent_map();
    // joints, in skin order, at nodes 2, 0, 1 (node 3 is not a joint)
    let links = skin_bone_links(&vec![2, 0, 1], &m);
    assert_eq!(
        links,
        vec![
            BoneLink { joint: 0, parent: Some(2) },
            BoneLink { joint: 1, parent: None },
            BoneLink { joint: 2, parent: Some(1) }
        ]
    );
    let sorted = topological_sort_bones(&links);
    assert_eq!(sorted.order, vec![1, 2, 0]);
    assert_eq!(sorted.parents, vec![None, Some(0), Some(1)]);
}
