use simplan::quadtree::{DeltaOp, QuadNode, QuadTree, MIN_HALF, ROOT_HALF};

/// The camera rule of the terrain plugin: split when the camera's nearest
/// distance to the tile square is below four half-sizes.
fn camera_rule(cam_x: f32, cam_z: f32) -> impl Fn(i32, i32, i32) -> bool {
    move |cx: i32, cz: i32, half: i32| {
        let dx = ((cam_x - cx as f32).abs() - half as f32).max(0.0);
        let dz = ((cam_z - cz as f32).abs() - half as f32).max(0.0);
        let split = half as f32 * 4.0;
        dx * dx + dz * dz < split * split
    }
}

fn spawns(ops: &[DeltaOp<u32>]) -> Vec<(i32, i32, i32, Vec<u8>)> {
    ops.iter()
        .filter_map(|op| match op {
            DeltaOp::Spawn { cx, cz, half, slot } => Some((*cx, *cz, *half, slot.clone())),
            DeltaOp::Despawn(_) => None,
        })
        .collect()
}

fn despawns(ops: &[DeltaOp<u32>]) -> Vec<u32> {
    ops.iter()
        .filter_map(|op| match op {
            DeltaOp::Despawn(e) => Some(*e),
            DeltaOp::Spawn { .. } => None,
        })
        .collect()
}

/// Give every spawned tile an entity, numbered from `first` in op order.
fn assign_all(tree: &mut QuadTree<u32>, ops: &[DeltaOp<u32>], first: u32) {
    let mut next = first;
    for (_, _, _, slot) in spawns(ops) {
        tree.assign_entity(&slot, next);
        next += 1;
    }
}

#[test]
fn new_tree_is_one_root_leaf() {
    let tree: QuadTree<u32> = QuadTree::new();
    assert_eq!((tree.root.cx, tree.root.cz, tree.root.half), (0, 0, ROOT_HALF));
    assert!(tree.root.children.is_none());
    assert!(tree.root.entity.is_none());
}

#[test]
fn camera_at_origin_refines_to_finest_tiles() {
    let mut tree: QuadTree<u32> = QuadTree::new();
    let ops = tree.update(&camera_rule(0.0, 0.0));
    let s = spawns(&ops);
    assert_eq!(s.len(), 16);
    assert!(despawns(&ops).is_empty());
    assert!(s.iter().all(|t| t.2 == MIN_HALF));
    assert_eq!(s[0], (-3750, -3750, 1250, vec![0, 0]));
    assert_eq!(s[1], (-1250, -3750, 1250, vec![0, 1]));
    assert_eq!(s[15], (3750, 3750, 1250, vec![3, 3]));
}

#[test]
fn distant_camera_keeps_root_leaf() {
    let mut tree: QuadTree<u32> = QuadTree::new();
    let ops = tree.update(&camera_rule(30_000.0, 0.0));
    assert_eq!(spawns(&ops), vec![(0, 0, ROOT_HALF, vec![])]);
    assert!(tree.root.children.is_none());
}

#[test]
fn camera_beyond_edge_splits_once() {
    let mut tree: QuadTree<u32> = QuadTree::new();
    let ops = tree.update(&camera_rule(22_000.0, 0.0));
    let s = spawns(&ops);
    assert_eq!(s.len(), 4);
    assert!(s.iter().all(|t| t.2 == 2500));
    assert_eq!(s[0], (-2500, -2500, 2500, vec![0]));
    assert_eq!(s[3], (2500, 2500, 2500, vec![3]));
}

#[test]
fn second_update_with_same_camera_does_nothing() {
    let mut tree: QuadTree<u32> = QuadTree::new();
    let rule = camera_rule(0.0, 0.0);
    let ops = tree.update(&rule);
    assign_all(&mut tree, &ops, 1);
    let again = tree.update(&rule);
    assert!(again.is_empty());
}

#[test]
fn moving_away_collapses_to_root() {
    let mut tree: QuadTree<u32> = QuadTree::new();
    let ops = tree.update(&|_: i32, _: i32, _: i32| true);
    assign_all(&mut tree, &ops, 1);
    let ops = tree.update(&|_: i32, _: i32, _: i32| false);
    assert_eq!(despawns(&ops), (1..=16).collect::<Vec<u32>>());
    assert_eq!(spawns(&ops), vec![(0, 0, ROOT_HALF, vec![])]);
    assert!(tree.root.children.is_none());
}

#[test]
fn splitting_a_drawn_leaf_despawns_it_first() {
    let mut tree: QuadTree<u32> = QuadTree::new();
    let ops = tree.update(&|_: i32, _: i32, _: i32| false);
    assign_all(&mut tree, &ops, 7);
    assert_eq!(tree.root.entity, Some(7));
    let ops = tree.update(&|_: i32, _: i32, half: i32| half > 2500);
    assert_eq!(despawns(&ops), vec![7]);
    assert_eq!(spawns(&ops).len(), 4);
    assert!(matches!(ops[0], DeltaOp::Despawn(7)));
}

#[test]
fn unsubdivided_minimum_tile_is_never_split() {
    let mut node: QuadNode<u32> = QuadNode::new(0, 0, MIN_HALF);
    let mut ops = Vec::new();
    node.update(&|_: i32, _: i32, _: i32| true, &vec![2], &mut ops);
    assert!(node.children.is_none());
    assert_eq!(spawns(&ops), vec![(0, 0, MIN_HALF, vec![2])]);
}

#[test]
fn force_max_depth_gives_sixteen_finest_leaves() {
    let mut tree: QuadTree<u32> = QuadTree::new();
    tree.force_max_depth();
    let mut leaves = Vec::new();
    tree.root.collect_leaves(&mut leaves);
    assert_eq!(leaves.len(), 16);
    assert!(leaves.iter().all(|l| l.half == MIN_HALF && l.children.is_none()));
    assert_eq!((leaves[0].cx, leaves[0].cz), (-3750, -3750));
    assert_eq!((leaves[15].cx, leaves[15].cz), (3750, 3750));
}

#[test]
fn force_leaves_spawns_every_leaf_and_drops_inner_meshes() {
    let mut tree: QuadTree<u32> = QuadTree::new();
    let ops = tree.update(&|_: i32, _: i32, _: i32| false);
    assign_all(&mut tree, &ops, 40);
    tree.force_max_depth();
    let ops = tree.update_force_leaves();
    assert_eq!(despawns(&ops), vec![40]);
    let s = spawns(&ops);
    assert_eq!(s.len(), 16);
    assert!(s.iter().all(|t| t.2 == MIN_HALF && t.3.len() == 2));
    assign_all(&mut tree, &ops, 100);
    assert!(tree.update_force_leaves().is_empty());
}

#[test]
fn reset_despawns_everything_and_restores_root() {
    let mut tree: QuadTree<u32> = QuadTree::new();
    let ops = tree.update(&camera_rule(22_000.0, 0.0));
    assign_all(&mut tree, &ops, 1);
    let ops = tree.reset();
    assert_eq!(despawns(&ops), vec![1, 2, 3, 4]);
    assert!(spawns(&ops).is_empty());
    assert!(tree.root.children.is_none());
    assert_eq!(tree.root.half, ROOT_HALF);
    assert!(tree.reset().is_empty());
}

#[test]
fn assign_entity_to_unknown_slot_changes_nothing() {
    let mut tree: QuadTree<u32> = QuadTree::new();
    tree.assign_entity(&vec![1, 2], 9);
    assert!(tree.root.entity.is_none());
    assert!(tree.root.children.is_none());
    tree.assign_entity(&vec![], 9);
    assert_eq!(tree.root.entity, Some(9));
}

#[test]
fn find_slot_mut_reaches_the_named_node() {
    let mut tree: QuadTree<u32> = QuadTree::new();
    tree.force_max_depth();
    {
        let node = tree.root.find_slot_mut(&vec![3, 0]).unwrap();
        assert_eq!((node.cx, node.cz, node.half), (1250, 1250, 1250));
        node.entity = Some(5);
    }
    let q = tree.root.children.as_ref().unwrap();
    assert_eq!(q.ne.children.as_ref().unwrap().sw.entity, Some(5));
    assert!(tree.root.find_slot_mut(&vec![3, 0, 1]).is_none());
    assert!(tree.root.find_slot_mut(&vec![4]).is_none());
}

#[test]
fn force_leaves_on_fresh_tree_subdivides_first() {
    let mut tree: QuadTree<u32> = QuadTree::new();
    let ops = tree.update_force_leaves();
    let s = spawns(&ops);
    assert_eq!(s.len(), 16);
    assert!(despawns(&ops).is_empty());
    assert!(s.iter().all(|t| t.2 == MIN_HALF));
    let mut leaves = Vec::new();
    tree.root.collect_leaves(&mut leaves);
    assert_eq!(leaves.len(), 16);
}
