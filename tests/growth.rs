use compugenesis::archetype::ArchetypeId;
use compugenesis::arena::{ArenaError, INVALID_INDEX};
use compugenesis::node::{
    grow, logistic_step, GrowthDraws, Node, NodeBuffer, NodeStatus, LEAF_LENGTH_RATE, LEAF_MAX_LENGTH,
    LEAF_MAX_RADIUS, LEAF_RADIUS_RATE, SEED_LENGTH, STEM_LENGTH_RATE, STEM_MAX_LENGTH,
};
use rand::rngs::StdRng;
use rand::SeedableRng;

fn alive(archetype: ArchetypeId, length: u32, radius: u32) -> Node {
    let mut n = Node::new();
    n.status = NodeStatus::Alive;
    n.visible = true;
    n.archetype_id = archetype;
    n.length = length;
    n.radius = radius;
    n
}

const NO_ACTIVATION: GrowthDraws = GrowthDraws { activation: 1, leaf: 0, angle_z: 0, angle_x: 0 };

#[test]
fn logistic_step_exact_values() {
    // 0.05 + 0.05 * (0.1 - 0.05) * 1.0 = 0.0525
    assert_eq!(logistic_step(50_000, 100_000, 1_000_000), 52_500);
    // 0.001 + 0.001 * 0.299 * 0.1 = 0.0010299 (a growth is rounded up)
    assert_eq!(logistic_step(1_000, 300_000, 100_000), 1_030);
    // Tiny values still grow.
    assert_eq!(logistic_step(1, 100_000, 1_000_000), 2);
    assert_eq!(logistic_step(99_999, 100_000, 1_000_000), 100_000);
    assert_eq!(logistic_step(100_000, 100_000, 1_000_000), 100_000);
    assert_eq!(logistic_step(0, 100_000, 1_000_000), 0);
    // Above the bound the value falls back: 0.2 - 0.2 * 0.1 = 0.18
    assert_eq!(logistic_step(200_000, 100_000, 1_000_000), 180_000);
    // Far above it the value would turn negative and stops at zero.
    assert_eq!(logistic_step(4_000_000_000, 100_000, 1_000_000), 0);
}

#[test]
fn stem_growth_is_monotone_and_bounded() {
    for start in [1_000u32, 10_000, 50_000, 99_999] {
        let mut v = start;
        for _ in 0..200 {
            let next = logistic_step(v, STEM_MAX_LENGTH, STEM_LENGTH_RATE);
            assert!(next >= v);
            assert!(next <= STEM_MAX_LENGTH);
            v = next;
        }
        assert!(v > 99_000);
    }
}

#[test]
fn smallest_stem_reaches_the_bound() {
    let mut v = 1u32;
    let mut steps = 0;
    while v < STEM_MAX_LENGTH {
        let next = logistic_step(v, STEM_MAX_LENGTH, STEM_LENGTH_RATE);
        assert!(next > v);
        v = next;
        steps += 1;
    }
    assert_eq!(v, STEM_MAX_LENGTH);
    // Roughly a tenth more each step while small, as the real-valued map.
    assert!(steps < 400);
}

#[test]
fn update_all_grows_a_one_millionth_stem() {
    let mut b = NodeBuffer::new(2).unwrap();
    let i = b.alloc_insert(alive(ArchetypeId::Stem, 1, 1)).unwrap();
    let mut rng = StdRng::seed_from_u64(5);
    b.update_all(&mut rng).unwrap();
    assert_eq!(b.get(i).length, 2);
    assert_eq!(b.get(i).radius, 2);
}

#[test]
fn grow_applies_the_archetype_rules() {
    let stem = grow(alive(ArchetypeId::Stem, 50_000, 10_000));
    assert_eq!(stem.length, 52_500);
    // 0.01 + 0.01 * 0.01 * 1.0 = 0.0101
    assert_eq!(stem.radius, 10_100);
    let leaf = grow(alive(ArchetypeId::Leaf, 100_000, 10_000));
    assert_eq!(leaf.length, logistic_step(100_000, LEAF_MAX_LENGTH, LEAF_LENGTH_RATE));
    assert_eq!(leaf.length, 102_000);
    assert_eq!(leaf.radius, logistic_step(10_000, LEAF_MAX_RADIUS, LEAF_RADIUS_RATE));
    assert_eq!(leaf.radius, 10_200);
    let root = alive(ArchetypeId::Root, 5, 5);
    assert_eq!(grow(root), root);
    let bud = alive(ArchetypeId::GrowingBud, 5, 5);
    assert_eq!(grow(bud), bud);
}

#[test]
fn update_node_ages_and_grows() {
    let mut b = NodeBuffer::new(4).unwrap();
    let s = b.alloc_insert(alive(ArchetypeId::Stem, 50_000, 10_000)).unwrap();
    b.update_node(s, NO_ACTIVATION).unwrap();
    assert_eq!(b.get(s).age, 1);
    assert_eq!(b.get(s).length, 52_500);
    let g = b.allocate().unwrap();
    b.update_node(g, NO_ACTIVATION).unwrap();
    assert_eq!(b.get(g), Node::new());
}

#[test]
fn update_node_age_saturates() {
    let mut b = NodeBuffer::new(1).unwrap();
    let mut n = alive(ArchetypeId::Root, 1, 1);
    n.age = u32::MAX;
    let i = b.alloc_insert(n).unwrap();
    b.update_node(i, NO_ACTIVATION).unwrap();
    assert_eq!(b.get(i).age, u32::MAX);
}

#[test]
fn bud_activation_spawns_stem_and_leaf() {
    let mut b = NodeBuffer::new(4).unwrap();
    let bud = b.alloc_insert(alive(ArchetypeId::GrowingBud, 50_000, 10_000)).unwrap();
    let draws = GrowthDraws { activation: 3_000, leaf: 12, angle_z: 0, angle_x: 2_000_000 };
    b.update_node(bud, draws).unwrap();
    assert_eq!(b.current_size(), 3);
    let parent = b.get(bud);
    assert_eq!(parent.archetype_id, ArchetypeId::Stem);
    assert_eq!(parent.age, 1);
    assert_eq!(parent.length, 50_000);
    let sprout = b.get(parent.left_child);
    assert_eq!(sprout.archetype_id, ArchetypeId::Stem);
    assert_eq!(sprout.length, SEED_LENGTH);
    assert_eq!(sprout.radius, 10_000);
    assert_eq!(sprout.parent, bud);
    assert_eq!(sprout.left_child, INVALID_INDEX);
    let leaf = b.get(parent.right_child);
    assert_eq!(leaf.archetype_id, ArchetypeId::Leaf);
    assert_eq!(leaf.status, NodeStatus::Alive);
    assert!(leaf.visible);
    assert_eq!(leaf.length, SEED_LENGTH);
    assert_eq!(leaf.radius, SEED_LENGTH);
    assert_eq!(leaf.parent, bud);
    assert_eq!(leaf.transformation.angle_z, -1_000_000);
    assert_eq!(leaf.transformation.angle_x, 1_000_000);
}

#[test]
fn bud_activation_without_leaf() {
    let mut b = NodeBuffer::new(4).unwrap();
    let bud = b.alloc_insert(alive(ArchetypeId::GrowingBud, 50_000, 10_000)).unwrap();
    let draws = GrowthDraws { activation: 0, leaf: 7, angle_z: 0, angle_x: 0 };
    b.update_node(bud, draws).unwrap();
    assert_eq!(b.current_size(), 2);
    assert_eq!(b.get(bud).right_child, INVALID_INDEX);
    assert_eq!(b.get(b.get(bud).left_child).archetype_id, ArchetypeId::Stem);
}

#[test]
fn old_or_unlucky_bud_does_not_activate() {
    let mut b = NodeBuffer::new(4).unwrap();
    let mut old_bud = alive(ArchetypeId::GrowingBud, 1, 1);
    old_bud.age = 5_000;
    let i = b.alloc_insert(old_bud).unwrap();
    b.update_node(i, GrowthDraws { activation: 0, leaf: 0, angle_z: 0, angle_x: 0 }).unwrap();
    assert_eq!(b.get(i).archetype_id, ArchetypeId::GrowingBud);
    assert_eq!(b.get(i).age, 5_001);
    let j = b.alloc_insert(alive(ArchetypeId::GrowingBud, 1, 1)).unwrap();
    b.update_node(j, GrowthDraws { activation: 999, leaf: 0, angle_z: 0, angle_x: 0 }).unwrap();
    assert_eq!(b.get(j).archetype_id, ArchetypeId::GrowingBud);
    assert_eq!(b.current_size(), 2);
}

#[test]
fn bud_activation_without_room_is_refused() {
    let mut b = NodeBuffer::new(2).unwrap();
    let bud = b.alloc_insert(alive(ArchetypeId::GrowingBud, 1, 1)).unwrap();
    let before = b.get(bud);
    // A leaf draw needs two free slots; only one is left.
    let r = b.update_node(bud, GrowthDraws { activation: 0, leaf: 0, angle_z: 0, angle_x: 0 });
    assert_eq!(r, Err(ArenaError::CapacityExhausted));
    assert_eq!(b.get(bud), before);
    assert_eq!(b.current_size(), 1);
}

#[test]
fn bud_with_dangling_child_is_refused() {
    let mut b = NodeBuffer::new(3).unwrap();
    let mut n = alive(ArchetypeId::GrowingBud, 1, 1);
    n.left_child = 0;
    let bud = b.alloc_insert(n).unwrap();
    let r = b.update_node(bud, GrowthDraws { activation: 0, leaf: 9, angle_z: 0, angle_x: 0 });
    assert_eq!(r, Err(ArenaError::InvalidIndex));
}

#[test]
fn update_all_ages_every_live_node_once() {
    let mut b = NodeBuffer::new(10).unwrap();
    let mut ids = Vec::new();
    for k in 0..4u32 {
        let mut n = alive(ArchetypeId::Stem, 1_000 * (k + 1), 500);
        n.age = 10 * k;
        ids.push(b.alloc_insert(n).unwrap());
    }
    let dead = b.allocate().unwrap();
    let mut rng = StdRng::seed_from_u64(7);
    b.update_all(&mut rng).unwrap();
    for (k, &i) in ids.iter().enumerate() {
        assert_eq!(b.get(i).age, 10 * k as u32 + 1);
        assert_eq!(b.get(i).length, logistic_step(1_000 * (k as u32 + 1), STEM_MAX_LENGTH, STEM_LENGTH_RATE));
    }
    assert_eq!(b.get(dead).age, 0);
}

#[test]
fn growing_bud_branches_over_many_steps() {
    let mut b = NodeBuffer::new(50).unwrap();
    let i = b.allocate().unwrap();
    let mut n = b.get(i);
    n.status = NodeStatus::Alive;
    n.visible = true;
    n.archetype_id = ArchetypeId::GrowingBud;
    n.length = 50_000;
    n.radius = 10_000;
    b.set(i, n);
    let mut rng = StdRng::seed_from_u64(2024);
    for _ in 0..6000 {
        b.update_all(&mut rng).unwrap();
    }
    assert_ne!(b.get(i).archetype_id, ArchetypeId::GrowingBud);
    assert!(b.current_size() > 1);
    assert_eq!(b.get(i).age, 6000);
}

#[test]
fn update_all_with_draws_uses_each_slots_draws() {
    let mut b = NodeBuffer::new(6).unwrap();
    let quiet = b.alloc_insert(alive(ArchetypeId::GrowingBud, 1_000, 1_000)).unwrap();
    let lucky = b.alloc_insert(alive(ArchetypeId::GrowingBud, 1_000, 1_000)).unwrap();
    let mut draws = vec![NO_ACTIVATION; 6];
    draws[lucky as usize] = GrowthDraws { activation: 0, leaf: 9, angle_z: 0, angle_x: 0 };
    b.update_all_with_draws(&draws).unwrap();
    assert_eq!(b.get(quiet).archetype_id, ArchetypeId::GrowingBud);
    assert_eq!(b.get(lucky).archetype_id, ArchetypeId::Stem);
    assert_eq!(b.current_size(), 3);
    // The sprout took the top free slot and was not stepped in the same pass.
    let sprout = b.get(b.get(lucky).left_child);
    assert_eq!(sprout.age, 1);
    assert_eq!(sprout.length, SEED_LENGTH);
}

#[test]
fn refused_pass_changes_nothing() {
    let mut b = NodeBuffer::new(2).unwrap();
    let s = b.alloc_insert(alive(ArchetypeId::Stem, 50_000, 1_000)).unwrap();
    let bud = b.alloc_insert(alive(ArchetypeId::GrowingBud, 1_000, 1_000)).unwrap();
    let mut draws = vec![NO_ACTIVATION; 2];
    draws[bud as usize] = GrowthDraws { activation: 0, leaf: 9, angle_z: 0, angle_x: 0 };
    assert_eq!(b.update_all_with_draws(&draws), Err(ArenaError::CapacityExhausted));
    assert_eq!(b.get(s).length, 50_000);
    assert_eq!(b.get(s).age, 0);
}

#[test]
fn dangling_bud_link_fails_the_whole_pass_with_invalid_index() {
    let mut b = NodeBuffer::new(4).unwrap();
    let mut n = alive(ArchetypeId::GrowingBud, 1, 1);
    n.right_child = 0;
    let bud = b.alloc_insert(n).unwrap();
    let mut draws = vec![NO_ACTIVATION; 4];
    draws[bud as usize] = GrowthDraws { activation: 0, leaf: 9, angle_z: 0, angle_x: 0 };
    assert_eq!(b.update_all_with_draws(&draws), Err(ArenaError::InvalidIndex));
    assert_eq!(b.get(bud).age, 0);
}
