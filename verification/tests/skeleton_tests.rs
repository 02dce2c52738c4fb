use clawdengine::skeleton::{topological_sort_bones, BoneInfo, BoneLink, SkeletonInfo};

fn bone(joint: usize, parent: Option<usize>) -> BoneLink {
    BoneLink { joint, parent }
}

#[test]
fn bones_are_sorted_breadth_first_then_orphans() {
    let bones = vec![
        bone(5, None),
        bone(3, Some(5)),
        bone(7, Some(3)),
        bone(9, Some(5)),
        bone(11, Some(11)),
    ];
    let r = topological_sort_bones(&bones);
    assert_eq!(r.order, vec![0, 1, 3, 2, 4]);
    assert_eq!(r.old_to_new.get(&5), Some(&0));
    assert_eq!(r.old_to_new.get(&3), Some(&1));
    assert_eq!(r.old_to_new.get(&9), Some(&2));
    assert_eq!(r.old_to_new.get(&7), Some(&3));
    assert_eq!(r.old_to_new.get(&11), Some(&4));
    assert_eq!(r.parents, vec![None, Some(0), Some(0), Some(1), Some(4)]);
    assert_eq!(r.children, vec![vec![1, 2], vec![3], vec![], vec![], vec![4]]);
}

#[test]
fn a_parent_outside_the_skin_leaves_the_bone_a_root_of_its_own() {
    let bones = vec![bone(1, Some(42)), bone(2, None), bone(3, Some(2))];
    let r = topological_sort_bones(&bones);
    assert_eq!(r.order, vec![0, 1, 2]);
    assert_eq!(r.parents, vec![None, None, Some(1)]);
}

#[test]
fn a_bone_whose_parent_is_missing_comes_before_its_children() {
    // "a" (joint 0) hangs below "b" (joint 1), whose parent 7 is no bone of the skin
    let bones = vec![bone(0, Some(1)), bone(1, Some(7))];
    let r = topological_sort_bones(&bones);
    assert_eq!(r.order, vec![1, 0]);
    assert_eq!(r.parents, vec![None, Some(0)]);
    for (i, p) in r.parents.iter().enumerate() {
        assert!(p.map_or(true, |p| p < i));
    }
}

#[test]
fn empty_skin() {
    let r = topological_sort_bones(&Vec::new());
    assert!(r.order.is_empty() && r.parents.is_empty() && r.children.is_empty());
}

#[test]
fn several_roots_keep_their_position_order() {
    let bones = vec![bone(0, None), bone(1, Some(2)), bone(2, None), bone(3, Some(0))];
    let r = topological_sort_bones(&bones);
    assert_eq!(r.order, vec![0, 2, 3, 1]);
    assert_eq!(r.parents, vec![None, None, Some(0), Some(1)]);
}

#[test]
fn bones_are_found_by_name() {
    let s = SkeletonInfo {
        name: "rig".to_string(),
        bones: vec![
            BoneInfo { name: "hips".to_string(), parent: None },
            BoneInfo { name: "spine".to_string(), parent: Some(0) },
            BoneInfo { name: "spine".to_string(), parent: Some(1) },
        ],
        root_bone: 0,
    };
    assert_eq!(s.bone_count(), 3);
    assert_eq!(s.find_bone("spine"), Some(1));
    assert_eq!(s.find_bone("hips"), Some(0));
    assert_eq!(s.find_bone("head"), None);
}
