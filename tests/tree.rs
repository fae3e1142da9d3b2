use setvision::tree::{add_child, link_parents, Tree, TreeNode};

#[test]
fn test_create_tree() {
    let mut tree = Tree::new();
    let a = tree.push(TreeNode::new('a', vec![]));
    let b = tree.push(TreeNode::new('b', vec![]));
    let c = tree.push(TreeNode::new('c', vec![]));
    add_child(&mut tree, c, a);
    add_child(&mut tree, c, b);
    let d = tree.push(TreeNode::new('d', vec![]));
    let e = tree.push(TreeNode::new('e', vec![]));
    add_child(&mut tree, e, c);
    add_child(&mut tree, e, d);

    println!("{:?}", tree.nodes[e]);

    assert_eq!(tree.nodes[e].level(&tree), Some(0)); // Top level
    assert_eq!(tree.nodes[d].level(&tree), Some(1)); // Child of e
    assert_eq!(tree.nodes[c].level(&tree), Some(1)); // Child of e
    assert_eq!(tree.nodes[b].level(&tree), Some(2)); // Child of c
    assert_eq!(tree.nodes[a].level(&tree), Some(2)); // Child of c
}

#[test]
fn add_child_records_both_links() {
    let mut tree = Tree::new();
    let p = tree.push(TreeNode::new_childless(10u32));
    let x = tree.push(TreeNode::new_childless(11u32));
    let y = tree.push(TreeNode::new_childless(12u32));
    add_child(&mut tree, p, y);
    add_child(&mut tree, p, x);
    assert_eq!(tree.nodes[p].children, vec![y, x]);
    assert_eq!(tree.nodes[x].parent, Some(p));
    assert_eq!(tree.nodes[y].parent, Some(p));
    assert_eq!(tree.nodes[p].parent, None);
    assert_eq!(tree.nodes[x].value, 11);
}

#[test]
fn new_keeps_given_children() {
    let node = TreeNode::new("n", vec![4, 2]);
    assert_eq!(node.children, vec![4, 2]);
    assert_eq!(node.parent, None);
    let bare = TreeNode::new_childless("m");
    assert!(bare.children.is_empty());
}

#[test]
fn cycle_has_no_level() {
    let mut tree = Tree::new();
    let a = tree.push(TreeNode::new_childless(0u8));
    let b = tree.push(TreeNode::new_childless(1u8));
    let c = tree.push(TreeNode::new_childless(2u8));
    add_child(&mut tree, a, b);
    add_child(&mut tree, b, a);
    add_child(&mut tree, b, c);
    assert_eq!(tree.nodes[a].level(&tree), None);
    assert_eq!(tree.nodes[b].level(&tree), None);
    assert_eq!(tree.nodes[c].level(&tree), None);
    let mut own = Tree::new();
    let s = own.push(TreeNode::new_childless(0u8));
    add_child(&mut own, s, s);
    assert_eq!(own.nodes[s].level(&own), None);
}

#[test]
fn link_outside_arena_has_no_level() {
    let mut tree = Tree::new();
    let mut node = TreeNode::new_childless('z');
    node.parent = Some(7);
    let z = tree.push(node);
    assert_eq!(tree.nodes[z].level(&tree), None);
}

#[test]
fn deep_chain_levels() {
    let mut tree = Tree::new();
    let mut prev = tree.push(TreeNode::new_childless(0usize));
    for k in 1..10usize {
        let next = tree.push(TreeNode::new_childless(k));
        add_child(&mut tree, prev, next);
        prev = next;
    }
    for k in 0..10usize {
        assert_eq!(tree.nodes[k].level(&tree), Some(k));
    }
}

fn outlines() -> Tree<usize> {
    // 0: picture edge; 1, 2: cards; 3, 4: symbols on card 1; 5: symbol on card 2;
    // 6: a hole inside symbol 5; 7: a stray outline at the top.
    let parents = vec![None, Some(0), Some(0), Some(1), Some(1), Some(2), Some(5), None];
    let mut tree = Tree::new();
    for i in 0..parents.len() {
        tree.push(TreeNode::new_childless(i));
    }
    link_parents(&mut tree, &parents);
    tree
}

#[test]
fn link_parents_builds_children_in_order() {
    let tree = outlines();
    assert_eq!(tree.nodes[0].children, vec![1, 2]);
    assert_eq!(tree.nodes[1].children, vec![3, 4]);
    assert_eq!(tree.nodes[2].children, vec![5]);
    assert_eq!(tree.nodes[5].children, vec![6]);
    assert!(tree.nodes[7].children.is_empty());
    assert_eq!(tree.nodes[6].parent, Some(5));
    assert_eq!(tree.nodes[7].parent, None);
    assert_eq!(tree.nodes[6].level(&tree), Some(3));
}

#[test]
fn group_by_level_lists_each_depth() {
    let tree = outlines();
    let groups = tree.group_by_level(8).unwrap();
    assert_eq!(groups.len(), 8);
    assert_eq!(groups[0], vec![0, 7]);
    assert_eq!(groups[1], vec![1, 2]);
    assert_eq!(groups[2], vec![3, 4, 5]);
    assert_eq!(groups[3], vec![6]);
    assert!(groups[4..].iter().all(|g| g.is_empty()));
}

#[test]
fn group_by_level_refuses_deep_or_cyclic_nodes() {
    let tree = outlines();
    assert!(tree.group_by_level(3).is_none());
    assert!(tree.group_by_level(4).is_some());
    let mut cyclic = Tree::new();
    let a = cyclic.push(TreeNode::new_childless(0u8));
    add_child(&mut cyclic, a, a);
    assert!(cyclic.group_by_level(8).is_none());
}

#[test]
fn card_candidates_at_depth_one_with_symbols() {
    let tree = outlines();
    assert_eq!(tree.card_candidates(), vec![1, 2]);
    let mut crowded = outlines();
    for _ in 0..2 {
        let extra = crowded.push(TreeNode::new_childless(99));
        add_child(&mut crowded, 1, extra);
    }
    assert_eq!(crowded.card_candidates(), vec![2]);
}
