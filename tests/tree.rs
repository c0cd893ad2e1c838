use compugenesis::arena::{ArenaError, INVALID_INDEX};
use compugenesis::node::{Node, NodeBuffer, NodeStatus};
use compugenesis::traversal::Visit;

fn live(length: u32) -> Node {
    let mut n = Node::new();
    n.status = NodeStatus::Alive;
    n.visible = true;
    n.length = length;
    n
}

#[test]
fn set_children_back_patch_parent() {
    let mut b = NodeBuffer::new(4).unwrap();
    let p = b.alloc_insert(live(1)).unwrap();
    let l = b.alloc_insert(live(2)).unwrap();
    let r = b.alloc_insert(live(3)).unwrap();
    b.set_left_child(p, l);
    b.set_right_child(p, r);
    assert_eq!(b.get(p).left_child, l);
    assert_eq!(b.get(p).right_child, r);
    assert_eq!(b.get(l).parent, p);
    assert_eq!(b.get(r).parent, p);
    b.set_right_child(p, INVALID_INDEX);
    assert_eq!(b.get(p).right_child, INVALID_INDEX);
    assert_eq!(b.get(r).parent, p);
}

#[test]
fn divide_preserves_topology() {
    let mut b = NodeBuffer::new(8).unwrap();
    let n = b.alloc_insert(live(1_000)).unwrap();
    let l = b.alloc_insert(live(10)).unwrap();
    let r = b.alloc_insert(live(20)).unwrap();
    b.set_left_child(n, l);
    b.set_right_child(n, r);
    let mut before = b.get(n);
    before.transformation.angle_z = 300;
    b.set(n, before);

    let m = b.divide(500_000, n).unwrap();
    assert_eq!(b.get(n).left_child, m);
    assert_eq!(b.get(n).right_child, INVALID_INDEX);
    assert_eq!(b.get(m).left_child, l);
    assert_eq!(b.get(m).right_child, r);
    assert_eq!(b.get(m).parent, n);
    assert_eq!(b.get(l).parent, m);
    assert_eq!(b.get(r).parent, m);
    assert_eq!(b.get(n).length + b.get(m).length, 1_000);
    assert_eq!(b.get(n).length, 500);
    assert_eq!(b.get(m).transformation.angle_z, 0);
    assert_eq!(b.get(n).transformation.angle_z, 300);
    assert_eq!(b.current_size(), 4);
}

#[test]
fn divide_uneven_break_keeps_total_length() {
    let mut b = NodeBuffer::new(2).unwrap();
    let n = b.alloc_insert(live(999)).unwrap();
    let m = b.divide(333_333, n).unwrap();
    assert_eq!(b.get(n).length, 332);
    assert_eq!(b.get(m).length, 667);
}

#[test]
fn divide_errors() {
    let mut b = NodeBuffer::new(2).unwrap();
    assert_eq!(b.divide(500_000, 0), Err(ArenaError::InvalidIndex));
    assert_eq!(b.divide(500_000, 5), Err(ArenaError::InvalidIndex));
    let n = b.alloc_insert(live(10)).unwrap();
    let mut bad = b.get(n);
    bad.left_child = 0;
    b.set(n, bad);
    // Slot 0 is still free: the child link dangles.
    assert_eq!(b.divide(500_000, n), Err(ArenaError::InvalidIndex));
    bad.left_child = INVALID_INDEX;
    b.set(n, bad);
    let _other = b.alloc_insert(live(5)).unwrap();
    assert_eq!(b.divide(500_000, n), Err(ArenaError::CapacityExhausted));
    assert_eq!(b.get(n).length, 10);
}

#[test]
fn visit_order_is_depth_first_and_skips_garbage() {
    let mut b = NodeBuffer::new(8).unwrap();
    let root = b.alloc_insert(live(1)).unwrap();
    let a = b.alloc_insert(live(1)).unwrap();
    let c = b.alloc_insert(live(1)).unwrap();
    let d = b.alloc_insert(live(1)).unwrap();
    let g = b.alloc_insert(live(1)).unwrap();
    b.set_left_child(root, a);
    b.set_right_child(root, c);
    b.set_left_child(a, d);
    b.set_right_child(a, g);
    b.free(g).unwrap();
    let order = b.visit_order();
    assert_eq!(
        order,
        vec![
            Visit { node: root, from: INVALID_INDEX },
            Visit { node: a, from: root },
            Visit { node: d, from: a },
            Visit { node: c, from: root },
        ]
    );
}

#[test]
fn visit_order_covers_every_root_once() {
    let mut b = NodeBuffer::new(6).unwrap();
    let r1 = b.alloc_insert(live(1)).unwrap();
    let r2 = b.alloc_insert(live(1)).unwrap();
    let k = b.alloc_insert(live(1)).unwrap();
    b.set_left_child(r1, k);
    // A second link to the same child does not make it appear twice.
    b.set_right_child(r2, k);
    let order = b.visit_order();
    assert_eq!(order.len(), 3);
    let mut seen: Vec<u32> = order.iter().map(|v| v.node).collect();
    seen.sort();
    let mut expected = vec![r1, r2, k];
    expected.sort();
    assert_eq!(seen, expected);
    assert!(b.visit_order().iter().all(|v| b.get(v.node).status != NodeStatus::Garbage));
}

#[test]
fn empty_buffer_has_no_visits() {
    let b = NodeBuffer::new(3).unwrap();
    assert!(b.visit_order().is_empty());
}

#[test]
fn free_slot_is_never_visited_even_if_not_garbage() {
    let mut b = NodeBuffer::new(3).unwrap();
    let r = b.alloc_insert(live(1)).unwrap();
    // Slot 0 is still on the free stack but holds a record that claims to be alive.
    b.set(0, live(1));
    let order = b.visit_order();
    assert_eq!(order, vec![Visit { node: r, from: INVALID_INDEX }]);
}
