use vstd::prelude::*;

use crate::arena::{Arena, ArenaError, ArenaOp, ArenaView, INVALID_INDEX};
use crate::archetype::ArchetypeId;
use crate::random::next_draw;
use rand::rngs::StdRng;

verus! {

/// Lengths, radii, volumes and positions are fixed-point numbers: this many units make
/// one world unit.
pub const UNIT: u32 = 1_000_000;

/// Length (and leaf radius) given to a newly spawned segment.
pub const SEED_LENGTH: u32 = 1_000;

/// Buds at least this old no longer activate.
pub const BUD_MAX_AGE: u32 = 5_000;

/// Logistic growth bounds and rates, in units of `UNIT`.
pub const STEM_MAX_LENGTH: u32 = 100_000;
pub const STEM_LENGTH_RATE: u32 = 1_000_000;
pub const STEM_MAX_RADIUS: u32 = 20_000;
pub const STEM_RADIUS_RATE: u32 = 1_000_000;
pub const LEAF_MAX_LENGTH: u32 = 300_000;
pub const LEAF_LENGTH_RATE: u32 = 100_000;
pub const LEAF_MAX_RADIUS: u32 = 50_000;
pub const LEAF_RADIUS_RATE: u32 = 500_000;

/// A bud activates when its activation draw is a multiple of this (one chance in a thousand).
pub const ACTIVATION_PERIOD: u32 = 1_000;

/// Largest leaf angle, in millionths of a radian, either way.
pub const LEAF_ANGLE_SPAN: u32 = 1_000_000;

/// Lifecycle of a record.
#[derive(Clone, Copy, Debug, PartialEq, Eq, Structural)]
pub enum NodeStatus {
    /// Not in use; the slot waits on the free stack.
    Garbage,
    /// Once alive, no longer.
    Dead,
    Alive,
    /// Not alive and cannot die.
    NeverAlive,
}

/// A point in world space, in units of `UNIT`.
#[derive(Clone, Copy, Debug, PartialEq, Eq, Structural)]
pub struct Position {
    pub x: i64,
    pub y: i64,
    pub z: i64,
}

/// Rotation of a segment relative to its parent's end point: a turn of `angle_x` about
/// the x axis followed by a turn of `angle_z` about the z axis, both in millionths of a
/// radian. Both zero is the identity.
#[derive(Clone, Copy, Debug, PartialEq, Eq, Structural)]
pub struct Orientation {
    pub angle_z: i32,
    pub angle_x: i32,
}

/// One segment of plant morphology.
#[derive(Clone, Copy, Debug, PartialEq, Eq, Structural)]
pub struct Node {
    pub left_child: u32,
    pub right_child: u32,
    pub parent: u32,
    pub age: u32,
    pub archetype_id: ArchetypeId,
    pub status: NodeStatus,
    pub visible: bool,
    pub length: u32,
    pub radius: u32,
    pub volume: u32,
    pub absolute_position_cache: Position,
    pub transformation: Orientation,
}

pub open spec fn identity() -> Orientation {
    Orientation { angle_z: 0, angle_x: 0 }
}

pub open spec fn origin() -> Position {
    Position { x: 0, y: 0, z: 0 }
}

/// The record that fills a fresh arena: unlinked, garbage, invisible and of no size.
pub open spec fn blank_node() -> Node {
    Node {
        left_child: INVALID_INDEX,
        right_child: INVALID_INDEX,
        parent: INVALID_INDEX,
        age: 0,
        archetype_id: ArchetypeId::InvalidArchetype,
        status: NodeStatus::Garbage,
        visible: false,
        length: 0,
        radius: 0,
        volume: 0,
        absolute_position_cache: origin(),
        transformation: identity(),
    }
}

impl Node {
    pub fn new() -> (r: Node)
        ensures
            r == blank_node(),
    {
        Node {
            left_child: INVALID_INDEX,
            right_child: INVALID_INDEX,
            parent: INVALID_INDEX,
            age: 0,
            archetype_id: ArchetypeId::InvalidArchetype,
            status: NodeStatus::Garbage,
            visible: false,
            length: 0,
            radius: 0,
            volume: 0,
            absolute_position_cache: Position { x: 0, y: 0, z: 0 },
            transformation: Orientation { angle_z: 0, angle_x: 0 },
        }
    }
}

/// One step of the discrete logistic map `v + v * (max - v) * rate`, on fixed-point
/// values. A growth is rounded up, so that every value strictly between zero and `max`
/// moves; a shrinkage is rounded toward zero. The result is kept within `0 ..= u32::MAX`.
pub open spec fn logistic_next(v: int, max: int, rate: int) -> int {
    let d = v * (max - v) * rate;
    let unit2 = UNIT as int * UNIT as int;
    let raw = if d >= 0 { v + (d + unit2 - 1) / unit2 } else { v - (-d) / unit2 };
    if raw < 0 {
        0
    } else if raw > u32::MAX {
        u32::MAX as int
    } else {
        raw
    }
}

/// One logistic growth step of `current` toward `max` at `rate`.
pub fn logistic_step(current: u32, max: u32, rate: u32) -> (r: u32)
    ensures
        r == logistic_next(current as int, max as int, rate as int),
{
    let unit2: u128 = 1_000_000_000_000;
    assert(unit2 == UNIT as int * UNIT as int);
    let v = current as u128;
    let raw: u128;
    if current <= max {
        let gap = (max - current) as u128;
        assert(v * gap <= 0xffff_ffffu128 * 0xffff_ffffu128) by (nonlinear_arith)
            requires v <= 0xffff_ffff, gap <= 0xffff_ffff;
        assert(v * gap * (rate as u128) <= 0xffff_ffffu128 * 0xffff_ffffu128 * 0xffff_ffffu128) by (nonlinear_arith)
            requires v * gap <= 0xffff_ffffu128 * 0xffff_ffffu128, rate <= 0xffff_ffff;
        let delta = (v * gap * (rate as u128) + (unit2 - 1)) / unit2;
        raw = v + delta;
    } else {
        let gap = (current - max) as u128;
        assert(v * gap <= 0xffff_ffffu128 * 0xffff_ffffu128) by (nonlinear_arith)
            requires v <= 0xffff_ffff, gap <= 0xffff_ffff;
        assert(v * gap * (rate as u128) <= 0xffff_ffffu128 * 0xffff_ffffu128 * 0xffff_ffffu128) by (nonlinear_arith)
            requires v * gap <= 0xffff_ffffu128 * 0xffff_ffffu128, rate <= 0xffff_ffff;
        let delta = v * gap * (rate as u128) / unit2;
        if delta >= v {
            raw = 0;
        } else {
            raw = v - delta;
        }
        assert(current as int * (max as int - current as int) * rate as int == -(v * gap * (rate as u128))) by (nonlinear_arith)
            requires gap == current - max, v == current;
    }
    if raw > 0xffff_ffffu128 {
        0xffff_ffffu32
    } else {
        raw as u32
    }
}

/// Logistic steps stay within `0 ..= max` and never shrink a value there, as long as
/// `rate * max <= UNIT * UNIT`; with a positive rate, a value strictly between zero and
/// `max` strictly grows. Repeated steps thus climb toward `max` without passing it.
pub proof fn lemma_logistic_bound(v: int, max: int, rate: int)
    requires
        0 <= v <= max,
        0 <= rate,
        rate * max <= UNIT as int * UNIT as int,
        max <= u32::MAX,
    ensures
        v <= logistic_next(v, max, rate) <= max,
        0 < v < max && 0 < rate ==> v < logistic_next(v, max, rate),
{
    let unit2 = UNIT as int * UNIT as int;
    let d = v * (max - v) * rate;
    assert(d >= 0) by (nonlinear_arith)
        requires 0 <= v <= max, 0 <= rate, d == v * (max - v) * rate;
    assert(d <= (max - v) * unit2) by (nonlinear_arith)
        requires 0 <= v <= max, 0 <= rate, rate * max <= unit2, d == v * (max - v) * rate;
    assert((d + unit2 - 1) / unit2 <= max - v) by (nonlinear_arith)
        requires 0 <= d <= (max - v) * unit2, unit2 > 0;
    assert((d + unit2 - 1) / unit2 >= 0) by (nonlinear_arith)
        requires 0 <= d, unit2 > 0;
    if 0 < v < max && 0 < rate {
        assert(d >= 1) by (nonlinear_arith)
            requires 0 < v < max, 0 < rate, d == v * (max - v) * rate;
        assert((d + unit2 - 1) / unit2 >= 1) by (nonlinear_arith)
            requires d >= 1, unit2 > 0;
    }
}

/// Repeated logistic steps from `v`.
pub open spec fn logistic_iterate(v: int, max: int, rate: int, n: nat) -> int
    decreases n,
{
    if n == 0 {
        v
    } else {
        logistic_next(logistic_iterate(v, max, rate, (n - 1) as nat), max, rate)
    }
}

/// Applying the stem length rule again and again from any length in `0 ..= 0.1` never
/// shrinks the length and never passes `0.1`; from a positive length every step below
/// `0.1` grows it, so after `n` steps it is at least `min(v + n, 0.1)` millionths.
pub proof fn lemma_stem_growth_bounded(v: int, n: nat)
    requires
        0 <= v <= STEM_MAX_LENGTH,
    ensures
        v <= logistic_iterate(v, STEM_MAX_LENGTH as int, STEM_LENGTH_RATE as int, n),
        logistic_iterate(v, STEM_MAX_LENGTH as int, STEM_LENGTH_RATE as int, n)
            <= logistic_iterate(v, STEM_MAX_LENGTH as int, STEM_LENGTH_RATE as int, n + 1)
            <= STEM_MAX_LENGTH,
        0 < v ==> logistic_iterate(v, STEM_MAX_LENGTH as int, STEM_LENGTH_RATE as int, n) >= if v + n
            < STEM_MAX_LENGTH {
            v + n
        } else {
            STEM_MAX_LENGTH as int
        },
    decreases n,
{
    let m = STEM_MAX_LENGTH as int;
    let r = STEM_LENGTH_RATE as int;
    assert(r * m <= UNIT as int * UNIT as int);
    if n > 0 {
        lemma_stem_growth_bounded(v, (n - 1) as nat);
    }
    let cur = logistic_iterate(v, m, r, n);
    assert(0 <= cur <= m) by {
        if n == 0 {
        } else {
            lemma_logistic_bound(logistic_iterate(v, m, r, (n - 1) as nat), m, r);
        }
    }
    if n > 0 {
        lemma_logistic_bound(logistic_iterate(v, m, r, (n - 1) as nat), m, r);
    }
    lemma_logistic_bound(cur, m, r);
}

/// Gives `child` the parent `parent`, unless `child` is the sentinel.
pub open spec fn patch_parent(v: ArenaView<Node>, child: u32, parent: u32) -> ArenaView<Node> {
    if child == INVALID_INDEX {
        v
    } else {
        v.with_slot(child, Node { parent: parent, ..v.slots[child as int] })
    }
}

/// Links `child` as the left child of `parent`, back-patching the child's parent.
pub open spec fn with_left_child(v: ArenaView<Node>, parent: u32, child: u32) -> ArenaView<Node> {
    patch_parent(v.with_slot(parent, Node { left_child: child, ..v.slots[parent as int] }), child, parent)
}

/// Links `child` as the right child of `parent`, back-patching the child's parent.
pub open spec fn with_right_child(v: ArenaView<Node>, parent: u32, child: u32) -> ArenaView<Node> {
    patch_parent(v.with_slot(parent, Node { right_child: child, ..v.slots[parent as int] }), child, parent)
}

/// A link that can be followed: the sentinel, or an allocated slot.
pub open spec fn link_ok(v: ArenaView<Node>, j: u32) -> bool {
    j == INVALID_INDEX || (v.in_range(j) && !v.is_free(j))
}

/// `divide` can work on slot `ni`: it is allocated and its child links can be followed.
pub open spec fn divide_ok(v: ArenaView<Node>, ni: u32) -> bool {
    &&& v.in_range(ni)
    &&& !v.is_free(ni)
    &&& link_ok(v, v.slots[ni as int].left_child)
    &&& link_ok(v, v.slots[ni as int].right_child)
}

/// The part of a length of `length` that stays below a break at `percent_break`
/// millionths.
pub open spec fn lower_part(length: u32, percent_break: u32) -> u32 {
    (length as int * percent_break as int / UNIT as int) as u32
}

/// The arena after `divide(percent_break, ni)`: the next free slot receives a copy of the
/// node with the upper part of its length, no rotation and the node's children; the node
/// keeps the lower part and has the copy as its only child.
pub open spec fn divided(v: ArenaView<Node>, ni: u32, percent_break: u32) -> ArenaView<Node> {
    let n = v.slots[ni as int];
    let c = v.next_index();
    let low = lower_part(n.length, percent_break);
    let upper = Node { length: (n.length - low) as u32, transformation: identity(), parent: ni, ..n };
    let v1 = v.after_alloc().with_slot(c, upper);
    let v2 = patch_parent(patch_parent(v1, n.left_child, c), n.right_child, c);
    v2.with_slot(ni, Node { length: low, left_child: c, right_child: INVALID_INDEX, ..v2.slots[ni as int] })
}

/// Dividing a node `n` with children `(l, r)` yields a new node `m` such that `n`'s
/// children become `(m, none)`, `m`'s children are `(l, r)` with their parent links
/// moved to `m`, `m`'s parent is `n`, and the two lengths add up to the node's length before the split.
pub proof fn lemma_divide_topology(v: ArenaView<Node>, ni: u32, percent_break: u32)
    requires
        v.wf(),
        divide_ok(v, ni),
        v.free.len() > 0,
        0 < percent_break < UNIT,
        v.slots[ni as int].left_child != ni,
        v.slots[ni as int].right_child != ni,
    ensures
        ({
            let n = v.slots[ni as int];
            let m = v.next_index();
            let w = divided(v, ni, percent_break);
            &&& w.wf()
            &&& w.live() == v.live().insert(m as int)
            &&& m != ni && v.in_range(m)
            &&& w.slots[ni as int].left_child == m
            &&& w.slots[ni as int].right_child == INVALID_INDEX
            &&& w.slots[ni as int].parent == n.parent
            &&& w.slots[m as int].left_child == n.left_child
            &&& w.slots[m as int].right_child == n.right_child
            &&& w.slots[m as int].parent == ni
            &&& w.slots[ni as int].length + w.slots[m as int].length == n.length
            &&& (n.left_child != INVALID_INDEX ==> w.slots[n.left_child as int].parent == m)
            &&& (n.right_child != INVALID_INDEX ==> w.slots[n.right_child as int].parent == m)
        }),
{
    let n = v.slots[ni as int];
    let m = v.next_index();
    let k = v.free.len() - 1;
    assert((v.free[k] as nat) < v.capacity);
    assert(v.free.contains(m));
    crate::arena::lemma_step_wf(v, ArenaOp::Alloc);
    let a = v.after_alloc();
    assert(a.live() =~= v.live().insert(m as int)) by {
        assert forall|j: u32| j != m implies (#[trigger] a.is_free(j) <==> v.is_free(j)) by {
            if v.free.contains(j) {
                let q = choose|q: int| 0 <= q < v.free.len() && v.free[q] == j;
                assert(a.free[q] == j);
            }
            if a.free.contains(j) {
                let q = choose|q: int| 0 <= q < a.free.len() && a.free[q] == j;
                assert(v.free[q] == j);
            }
        }
        assert(!a.is_free(m)) by {
            if a.free.contains(m) {
                let q = choose|q: int| 0 <= q < a.free.len() && a.free[q] == m;
                assert(v.free[q] == v.free[k]);
            }
        }
    }
    assert(n.left_child != m && n.right_child != m);
    let low = lower_part(n.length, percent_break);
    let l = n.length as int;
    let p = percent_break as int;
    assert(l * p / 1_000_000 <= l) by (nonlinear_arith)
        requires 0 <= l, 0 <= p < 1_000_000;
    assert(0 <= l * p / 1_000_000) by (nonlinear_arith)
        requires 0 <= l, 0 <= p;
}

/// Random numbers that one growth step of a node consumes.
#[derive(Clone, Copy, Debug, PartialEq, Eq, Structural)]
pub struct GrowthDraws {
    pub activation: u32,
    pub leaf: u32,
    pub angle_z: u32,
    pub angle_x: u32,
}

/// Ages saturate at `u32::MAX`.
pub open spec fn next_age(age: u32) -> u32 {
    if age < u32::MAX {
        (age + 1) as u32
    } else {
        age
    }
}

/// The logistic growth of stems and leaves; other archetypes keep their size.
pub open spec fn grown(n: Node) -> Node {
    match n.archetype_id {
        ArchetypeId::Stem => Node {
            length: logistic_next(n.length as int, STEM_MAX_LENGTH as int, STEM_LENGTH_RATE as int) as u32,
            radius: logistic_next(n.radius as int, STEM_MAX_RADIUS as int, STEM_RADIUS_RATE as int) as u32,
            ..n
        },
        ArchetypeId::Leaf => Node {
            length: logistic_next(n.length as int, LEAF_MAX_LENGTH as int, LEAF_LENGTH_RATE as int) as u32,
            radius: logistic_next(n.radius as int, LEAF_MAX_RADIUS as int, LEAF_RADIUS_RATE as int) as u32,
            ..n
        },
        _ => n,
    }
}

/// A young bud activates on one activation draw in a thousand.
pub open spec fn bud_activates(n: Node, d: GrowthDraws) -> bool {
    &&& n.archetype_id == ArchetypeId::GrowingBud
    &&& n.age < BUD_MAX_AGE
    &&& d.activation % ACTIVATION_PERIOD == 0
}

/// An activating bud also spawns a leaf on seven leaf draws in ten.
pub open spec fn spawns_leaf(d: GrowthDraws) -> bool {
    d.leaf % 10 < 7
}

/// A draw read as an angle in `-LEAF_ANGLE_SPAN ..= LEAF_ANGLE_SPAN`.
pub open spec fn draw_angle(d: u32) -> i32 {
    (d as int % (2 * LEAF_ANGLE_SPAN as int + 1) - LEAF_ANGLE_SPAN as int) as i32
}

/// The leaf that an activating bud at `parent` spawns.
pub open spec fn leaf_node(parent: u32, d: GrowthDraws) -> Node {
    Node {
        parent: parent,
        archetype_id: ArchetypeId::Leaf,
        status: NodeStatus::Alive,
        visible: true,
        length: SEED_LENGTH,
        radius: SEED_LENGTH,
        transformation: Orientation { angle_z: draw_angle(d.angle_z), angle_x: draw_angle(d.angle_x) },
        ..blank_node()
    }
}

pub open spec fn slots_needed(d: GrowthDraws) -> nat {
    if spawns_leaf(d) {
        2
    } else {
        1
    }
}

/// Slot `ni` can activate: it is allocated and its child links can be followed.
pub open spec fn activation_ok(v: ArenaView<Node>, ni: u32) -> bool {
    &&& !v.is_free(ni)
    &&& link_ok(v, v.slots[ni as int].left_child)
    &&& link_ok(v, v.slots[ni as int].right_child)
}

/// The growth step of slot `ni` can be carried out.
pub open spec fn update_ok(v: ArenaView<Node>, ni: u32, d: GrowthDraws) -> bool {
    let n = v.slots[ni as int];
    n.status == NodeStatus::Garbage || !bud_activates(n, d) || (activation_ok(v, ni) && v.free.len()
        >= slots_needed(d))
}

/// The arena after the growth step of slot `ni`. Garbage is left alone. Any other node
/// ages by one; stems and leaves grow. An activating bud turns into a stem and gets as
/// its left child a copy of itself retyped as a stem of seed length with no rotation,
/// which takes over the bud's children; with a leaf draw it also gets a new leaf as its
/// right child, turned by the two angle draws.
pub open spec fn updated(v: ArenaView<Node>, ni: u32, d: GrowthDraws) -> ArenaView<Node> {
    let n = v.slots[ni as int];
    let a = Node { age: next_age(n.age), ..n };
    if n.status == NodeStatus::Garbage {
        v
    } else if !bud_activates(n, d) {
        v.with_slot(ni, grown(a))
    } else {
        let c = v.next_index();
        let sprout = Node {
            archetype_id: ArchetypeId::Stem,
            length: SEED_LENGTH,
            transformation: identity(),
            parent: ni,
            ..a
        };
        let v1 = v.after_alloc().with_slot(c, sprout);
        let v2 = patch_parent(patch_parent(v1, n.left_child, c), n.right_child, c);
        if spawns_leaf(d) {
            let e = v2.next_index();
            let v3 = v2.after_alloc().with_slot(e, leaf_node(ni, d));
            v3.with_slot(ni, Node { archetype_id: ArchetypeId::Stem, left_child: c, right_child: e, ..a })
        } else {
            v2.with_slot(ni, Node { archetype_id: ArchetypeId::Stem, left_child: c, right_child: INVALID_INDEX, ..a })
        }
    }
}

/// A slot in use: allocated and not garbage. The growth pass steps exactly these, the
/// density pass counts exactly these, and the traversal visits only these.
pub open spec fn active(v: ArenaView<Node>, j: u32) -> bool {
    v.in_range(j) && !v.is_free(j) && v.slots[j as int].status != NodeStatus::Garbage
}

/// What a growth step can make of a bud, up to its parent link: the bud aged by one, or a
/// stem of that age whose left child is a new sprout.
pub open spec fn bud_outcome(before: Node, after: Node) -> bool {
    let aged = Node { age: next_age(before.age), ..before };
    same_but_parent(after, aged) || (before.age < BUD_MAX_AGE && after.archetype_id == ArchetypeId::Stem
        && after.age == aged.age && after.left_child != INVALID_INDEX)
}

/// A bud that can still activate.
pub open spec fn young_bud(n: Node) -> bool {
    n.archetype_id == ArchetypeId::GrowingBud && n.age < BUD_MAX_AGE
}

/// No active slot holds a bud that can still activate; no draw can then change the shape.
pub open spec fn no_young_bud(v: ArenaView<Node>) -> bool {
    forall|j: u32| #[trigger] active(v, j) ==> !young_bud(v.slots[j as int])
}

/// The error a refused growth step of slot `ni` reports.
pub open spec fn step_error(v: ArenaView<Node>, ni: u32) -> ArenaError {
    if activation_ok(v, ni) {
        ArenaError::CapacityExhausted
    } else {
        ArenaError::InvalidIndex
    }
}

/// The growth pass over the first `k` slots of `v0`, stepping each slot that is active in
/// `v0` with its own draws, in index order; the error of the first refused step, if any.
pub open spec fn pass(v0: ArenaView<Node>, draws: Seq<GrowthDraws>, k: nat) -> Result<ArenaView<Node>, ArenaError>
    decreases k,
{
    if k == 0 {
        Ok(v0)
    } else {
        let i = (k - 1) as nat;
        match pass(v0, draws, i) {
            Err(e) => Err(e),
            Ok(v) => if active(v0, i as u32) {
                if update_ok(v, i as u32, draws[i as int]) {
                    Ok(updated(v, i as u32, draws[i as int]))
                } else {
                    Err(step_error(v, i as u32))
                }
            } else {
                Ok(v)
            },
        }
    }
}

/// Number of active young buds among the slots from `i` on.
pub open spec fn young_buds_from(v: ArenaView<Node>, i: nat) -> nat
    decreases v.capacity - i,
{
    if i >= v.capacity {
        0
    } else {
        (if active(v, i as u32) && young_bud(v.slots[i as int]) {
            1nat
        } else {
            0nat
        }) + young_buds_from(v, i + 1)
    }
}

/// Whatever the draws, a growth pass from `v` cannot be refused: every young bud can
/// follow its child links, and the free stack holds two slots for each of them.
pub open spec fn room_to_grow(v: ArenaView<Node>) -> bool {
    &&& forall|j: u32| #[trigger] active(v, j) && young_bud(v.slots[j as int]) ==> activation_ok(v, j)
    &&& v.free.len() >= 2 * young_buds_from(v, 0)
}

/// What a completed growth pass from `v0` to `v` guarantees whatever the draws: every
/// slot active at the start has aged by one and kept its status, stems and leaves have
/// grown by their rule, buds have aged or turned into stems with a sprout, the other
/// allocated slots changed at most in their parent link, nothing was freed, and new slots
/// came only off the top of the free stack.
pub open spec fn pass_facts(v0: ArenaView<Node>, v: ArenaView<Node>) -> bool {
    &&& v.wf()
    &&& v.capacity == v0.capacity
    &&& v.free.len() <= v0.free.len()
    &&& v.free == v0.free.take(v.free.len() as int)
    &&& forall|j: u32| #[trigger]
        active(v0, j) ==> v.slots[j as int].age == next_age(v0.slots[j as int].age) && v.slots[j as int].status
            == v0.slots[j as int].status
    &&& forall|j: u32|
        active(v0, j) && v0.slots[j as int].archetype_id != ArchetypeId::GrowingBud ==> same_but_parent(
            #[trigger] v.slots[j as int],
            grown(Node { age: next_age(v0.slots[j as int].age), ..v0.slots[j as int] }),
        )
    &&& forall|j: u32|
        active(v0, j) && v0.slots[j as int].archetype_id == ArchetypeId::GrowingBud ==> bud_outcome(
            v0.slots[j as int],
            #[trigger] v.slots[j as int],
        )
    &&& forall|j: u32|
        v0.in_range(j) && !v0.is_free(j) && !active(v0, j) ==> same_but_parent(
            #[trigger] v.slots[j as int],
            v0.slots[j as int],
        )
    &&& forall|j: u32| #[trigger] v0.in_range(j) && !v0.is_free(j) ==> !v.is_free(j)
}

proof fn lemma_pass_stays_refused(v0: ArenaView<Node>, draws: Seq<GrowthDraws>, k: nat, m: nat)
    requires
        pass(v0, draws, k) is Err,
        k <= m,
    ensures
        pass(v0, draws, m) == pass(v0, draws, k),
    decreases m - k,
{
    if k < m {
        lemma_pass_stays_refused(v0, draws, k, (m - 1) as nat);
    }
}

/// Two records that differ at most in their parent link.
pub open spec fn same_but_parent(x: Node, y: Node) -> bool {
    Node { parent: 0, ..x } == Node { parent: 0, ..y }
}

/// What one growth step leaves of the other allocated slots and of the free stack.
pub proof fn lemma_update_frame(v: ArenaView<Node>, ni: u32, d: GrowthDraws)
    requires
        v.wf(),
        v.in_range(ni),
        update_ok(v, ni, d),
    ensures
        updated(v, ni, d).wf(),
        updated(v, ni, d).capacity == v.capacity,
        updated(v, ni, d).free.len() <= v.free.len(),
        updated(v, ni, d).free == v.free.take(updated(v, ni, d).free.len() as int),
        forall|j: u32|
            v.in_range(j) && j != ni && !v.is_free(j) ==> same_but_parent(
                #[trigger] updated(v, ni, d).slots[j as int],
                v.slots[j as int],
            ),
        v.slots[ni as int].status != NodeStatus::Garbage ==> updated(v, ni, d).slots[ni as int].age == next_age(
            v.slots[ni as int].age,
        ),
        v.slots[ni as int].status != NodeStatus::Garbage ==> updated(v, ni, d).slots[ni as int].status
            == v.slots[ni as int].status,
        v.slots[ni as int].status != NodeStatus::Garbage && v.slots[ni as int].archetype_id != ArchetypeId::GrowingBud
            ==> updated(v, ni, d).slots[ni as int] == grown(Node { age: next_age(v.slots[ni as int].age), ..v.slots[ni as int] }),
        v.slots[ni as int].status != NodeStatus::Garbage && v.slots[ni as int].archetype_id == ArchetypeId::GrowingBud
            ==> bud_outcome(v.slots[ni as int], updated(v, ni, d).slots[ni as int]),
        !bud_activates(v.slots[ni as int], d) ==> updated(v, ni, d).free == v.free,
        updated(v, ni, d).free.len() + slots_needed(d) >= v.free.len(),
{
    let n = v.slots[ni as int];
    let w = updated(v, ni, d);
    if n.status == NodeStatus::Garbage {
        assert(v.free.take(v.free.len() as int) =~= v.free);
    } else if !bud_activates(n, d) {
        assert(v.free.take(v.free.len() as int) =~= v.free);
    } else {
        let k = v.free.len() - 1;
        assert((v.free[k] as nat) < v.capacity);
        let c = v.next_index();
        crate::arena::lemma_step_wf(v, ArenaOp::Alloc);
        let v1 = v.after_alloc();
        assert(v1.free =~= v.free.take(k));
        assert forall|j: u32| v.in_range(j) && !v.is_free(j) implies j != c by {
            assert(v.free.contains(c));
        }
        if spawns_leaf(d) {
            let k2 = k - 1;
            assert((v.free[k2] as nat) < v.capacity);
            assert(v1.free[k2] == v.free[k2]);
            crate::arena::lemma_step_wf(v1, ArenaOp::Alloc);
            assert(w.free =~= v.free.take(k2));
            assert forall|j: u32| v.in_range(j) && !v.is_free(j) implies j != v.free[k2] by {
                assert(v.free.contains(v.free[k2]));
            }
        }
    }
}

/// The growth of stems and leaves.
pub fn grow(n: Node) -> (r: Node)
    ensures
        r == grown(n),
{
    match n.archetype_id {
        ArchetypeId::Stem => Node {
            length: logistic_step(n.length, STEM_MAX_LENGTH, STEM_LENGTH_RATE),
            radius: logistic_step(n.radius, STEM_MAX_RADIUS, STEM_RADIUS_RATE),
            ..n
        },
        ArchetypeId::Leaf => Node {
            length: logistic_step(n.length, LEAF_MAX_LENGTH, LEAF_LENGTH_RATE),
            radius: logistic_step(n.radius, LEAF_MAX_RADIUS, LEAF_RADIUS_RATE),
            ..n
        },
        _ => n,
    }
}

fn angle_of(d: u32) -> (r: i32)
    ensures
        r == draw_angle(d),
{
    let m = d % (2 * LEAF_ANGLE_SPAN + 1);
    (m as i32) - (LEAF_ANGLE_SPAN as i32)
}

/// Draws the random numbers of one growth step.
fn draw_growth(rng: &mut StdRng) -> GrowthDraws {
    let activation = next_draw(rng);
    let leaf = next_draw(rng);
    let angle_z = next_draw(rng);
    let angle_x = next_draw(rng);
    GrowthDraws { activation, leaf, angle_z, angle_x }
}

/// Arena of plant segments linked into binary trees by index.
pub struct NodeBuffer {
    arena: Arena<Node>,
}

/// What the compute side needs to know of a node arena besides its records.
#[derive(Clone, Copy, Debug, PartialEq, Eq, Structural)]
pub struct NodeMetadata {
    pub free_ptr: u32,
    pub capacity: u32,
}

impl View for NodeBuffer {
    type V = ArenaView<Node>;

    closed spec fn view(&self) -> ArenaView<Node> {
        self.arena@
    }
}

impl NodeBuffer {
    pub closed spec fn wf(&self) -> bool {
        self.arena.wf()
    }

    pub proof fn lemma_wf(&self)
        requires
            self.wf(),
        ensures
            self@.wf(),
    {
        self.arena.lemma_wf();
    }

    /// An arena of `size` blank nodes, all free. Sizes of zero and of the sentinel index
    /// are refused.
    pub fn new(size: u32) -> (r: Result<NodeBuffer, ArenaError>)
        ensures
            r is Err <==> size == 0 || size == INVALID_INDEX,
            r is Err ==> r == Err::<NodeBuffer, ArenaError>(ArenaError::InvalidCapacity),
            r matches Ok(b) ==> {
                &&& b.wf()
                &&& b@.capacity == size
                &&& b@.slots == Seq::new(size as nat, |i: int| blank_node())
                &&& b@.free == Seq::new(size as nat, |i: int| i as u32)
            },
    {
        match Arena::new(size, Node::new()) {
            Ok(arena) => Ok(NodeBuffer { arena }),
            Err(e) => Err(e),
        }
    }

    pub fn get(&self, index: u32) -> (r: Node)
        requires
            self.wf(),
            self@.in_range(index),
        ensures
            r == self@.slots[index as int],
    {
        self.arena.get(index)
    }

    pub fn set(&mut self, index: u32, node: Node)
        requires
            old(self).wf(),
            old(self)@.in_range(index),
        ensures
            final(self).wf(),
            final(self)@ == old(self)@.with_slot(index, node),
    {
        self.arena.set(index, node);
    }

    /// Hands out a free slot, which still holds what its previous tenant left: the caller
    /// fills it in.
    pub fn allocate(&mut self) -> (r: Result<u32, ArenaError>)
        requires
            old(self).wf(),
        ensures
            final(self).wf(),
            final(self)@ == old(self)@.step(ArenaOp::Alloc),
            r is Err <==> old(self)@.free.len() == 0,
            r is Err ==> r == Err::<u32, ArenaError>(ArenaError::CapacityExhausted),
            r matches Ok(i) ==> i == old(self)@.next_index() && final(self)@.live() == old(self)@.live().insert(i as int),
    {
        self.arena.allocate()
    }

    /// Allocates a slot and stores `node` there.
    pub fn alloc_insert(&mut self, node: Node) -> (r: Result<u32, ArenaError>)
        requires
            old(self).wf(),
        ensures
            final(self).wf(),
            r is Err <==> old(self)@.free.len() == 0,
            r is Err ==> r == Err::<u32, ArenaError>(ArenaError::CapacityExhausted) && final(self)@ == old(self)@,
            r matches Ok(i) ==> i == old(self)@.next_index() && final(self)@ == old(self)@.step(ArenaOp::Alloc).with_slot(i, node),
    {
        let i = self.allocate()?;
        proof {
            self.lemma_wf();
            old(self).lemma_wf();
            assert(old(self)@.free.contains(old(self)@.free.last()));
        }
        self.set(i, node);
        Ok(i)
    }

    /// Marks slot `index` as garbage and returns it to the free stack. A slot that is
    /// already free is refused and left as it is.
    pub fn free(&mut self, index: u32) -> (r: Result<(), ArenaError>)
        requires
            old(self).wf(),
            old(self)@.in_range(index),
        ensures
            final(self).wf(),
            r is Err <==> old(self)@.is_free(index),
            r is Err ==> r == Err::<(), ArenaError>(ArenaError::DoubleFree) && final(self)@ == old(self)@,
            r is Ok ==> final(self)@ == old(self)@.with_slot(
                index,
                Node { status: NodeStatus::Garbage, ..old(self)@.slots[index as int] },
            ).step(ArenaOp::Free(index)),
    {
        if self.arena.is_free(index) {
            return Err(ArenaError::DoubleFree);
        }
        let n = self.arena.get(index);
        self.arena.set(index, Node { status: NodeStatus::Garbage, ..n });
        self.arena.free(index)
    }

    /// Number of slots.
    pub fn size(&self) -> (r: u32)
        requires
            self.wf(),
        ensures
            r == self@.capacity,
    {
        self.arena.size()
    }

    /// Number of allocated slots.
    pub fn current_size(&self) -> (r: u32)
        requires
            self.wf(),
        ensures
            r == self@.current_size(),
    {
        self.arena.current_size()
    }

    /// Whether slot `index` is on the free stack.
    pub fn is_free(&self, index: u32) -> (r: bool)
        requires
            self.wf(),
            self@.in_range(index),
        ensures
            r == self@.is_free(index),
    {
        self.arena.is_free(index)
    }

    fn set_parent_of(&mut self, child: u32, parent: u32)
        requires
            old(self).wf(),
            child == INVALID_INDEX || old(self)@.in_range(child),
        ensures
            final(self).wf(),
            final(self)@ == patch_parent(old(self)@, child, parent),
    {
        if child != INVALID_INDEX {
            let c = self.arena.get(child);
            self.arena.set(child, Node { parent: parent, ..c });
        }
    }

    /// Sets the left child of `parent` to `child`; unless `child` is the sentinel, its
    /// parent becomes `parent`.
    pub fn set_left_child(&mut self, parent: u32, child: u32)
        requires
            old(self).wf(),
            old(self)@.in_range(parent),
            child == INVALID_INDEX || old(self)@.in_range(child),
        ensures
            final(self).wf(),
            final(self)@ == with_left_child(old(self)@, parent, child),
    {
        let p = self.arena.get(parent);
        self.arena.set(parent, Node { left_child: child, ..p });
        self.set_parent_of(child, parent);
    }

    /// Sets the right child of `parent` to `child`; unless `child` is the sentinel, its
    /// parent becomes `parent`.
    pub fn set_right_child(&mut self, parent: u32, child: u32)
        requires
            old(self).wf(),
            old(self)@.in_range(parent),
            child == INVALID_INDEX || old(self)@.in_range(child),
        ensures
            final(self).wf(),
            final(self)@ == with_right_child(old(self)@, parent, child),
    {
        let p = self.arena.get(parent);
        self.arena.set(parent, Node { right_child: child, ..p });
        self.set_parent_of(child, parent);
    }

    fn link_ok(&self, j: u32) -> (r: bool)
        requires
            self.wf(),
        ensures
            r == link_ok(self@, j),
    {
        j == INVALID_INDEX || (j < self.arena.size() && !self.arena.is_free(j))
    }

    /// Splits segment `node_index` in two at `percent_break` millionths of its length.
    /// A new node takes the upper part, the node's children and no rotation; it becomes
    /// the node's only (left) child. Returns the new node's index.
    pub fn divide(&mut self, percent_break: u32, node_index: u32) -> (r: Result<u32, ArenaError>)
        requires
            old(self).wf(),
            0 < percent_break < UNIT,
        ensures
            final(self).wf(),
            r is Err ==> final(self)@ == old(self)@,
            r == Err::<u32, ArenaError>(ArenaError::InvalidIndex) <==> !divide_ok(old(self)@, node_index),
            r == Err::<u32, ArenaError>(ArenaError::CapacityExhausted) <==> divide_ok(old(self)@, node_index)
                && old(self)@.free.len() == 0,
            r is Ok <==> divide_ok(old(self)@, node_index) && old(self)@.free.len() > 0,
            r matches Ok(c) ==> c == old(self)@.next_index() && final(self)@ == divided(old(self)@, node_index, percent_break),
    {
        if node_index >= self.arena.size() || self.arena.is_free(node_index) {
            return Err(ArenaError::InvalidIndex);
        }
        let n = self.arena.get(node_index);
        if !self.link_ok(n.left_child) || !self.link_ok(n.right_child) {
            return Err(ArenaError::InvalidIndex);
        }
        let c = self.arena.allocate()?;
        proof {
            old(self).lemma_wf();
            self.lemma_wf();
            let k = old(self)@.free.len() - 1;
            assert((old(self)@.free[k] as nat) < old(self)@.capacity);
            assert(old(self)@.free.contains(c));
            assert(n.length as int * percent_break as int <= 0xffff_ffff * 1_000_000) by (nonlinear_arith)
                requires n.length <= 0xffff_ffff, percent_break < 1_000_000;
        }
        let prod: u64 = (n.length as u64) * (percent_break as u64);
        let low64: u64 = prod / 1_000_000;
        proof {
            let l = n.length as int;
            let p = percent_break as int;
            assert(prod == l * p);
            assert(low64 <= l) by (nonlinear_arith)
                requires low64 == (l * p) / 1_000_000, 0 <= l, 0 <= p < 1_000_000;
        }
        let low = low64 as u32;
        assert(low == lower_part(n.length, percent_break));
        self.arena.set(c, Node { length: n.length - low, transformation: Orientation { angle_z: 0, angle_x: 0 }, parent: node_index, ..n });
        self.set_parent_of(n.left_child, c);
        self.set_parent_of(n.right_child, c);
        let m = self.arena.get(node_index);
        self.arena.set(node_index, Node { length: low, left_child: c, right_child: INVALID_INDEX, ..m });
        Ok(c)
    }

    /// The growth step of slot `ni` with the given random numbers (see `updated`). An
    /// activating bud whose slot is free or whose child links cannot be followed is
    /// refused with `InvalidIndex`; one that finds too few free slots with
    /// `CapacityExhausted`. A refused step changes nothing.
    pub fn update_node(&mut self, ni: u32, draws: GrowthDraws) -> (r: Result<(), ArenaError>)
        requires
            old(self).wf(),
            old(self)@.in_range(ni),
        ensures
            final(self).wf(),
            r is Ok <==> update_ok(old(self)@, ni, draws),
            r is Ok ==> final(self)@ == updated(old(self)@, ni, draws),
            r is Err ==> final(self)@ == old(self)@,
            r == Err::<(), ArenaError>(ArenaError::InvalidIndex) <==> ({
                let n = old(self)@.slots[ni as int];
                n.status != NodeStatus::Garbage && bud_activates(n, draws) && !activation_ok(old(self)@, ni)
            }),
            r == Err::<(), ArenaError>(ArenaError::CapacityExhausted) <==> ({
                let n = old(self)@.slots[ni as int];
                &&& n.status != NodeStatus::Garbage
                &&& bud_activates(n, draws)
                &&& activation_ok(old(self)@, ni)
                &&& old(self)@.free.len() < slots_needed(draws)
            }),
    {
        let n = self.arena.get(ni);
        if n.status == NodeStatus::Garbage {
            return Ok(());
        }
        let age = if n.age < 0xffff_ffff { n.age + 1 } else { n.age };
        let a = Node { age: age, ..n };
        let activates = n.archetype_id == ArchetypeId::GrowingBud && n.age < BUD_MAX_AGE && draws.activation
            % ACTIVATION_PERIOD == 0;
        if !activates {
            self.arena.set(ni, grow(a));
            return Ok(());
        }
        if self.arena.is_free(ni) || !self.link_ok(n.left_child) || !self.link_ok(n.right_child) {
            return Err(ArenaError::InvalidIndex);
        }
        let leaf = draws.leaf % 10 < 7;
        let needed: u32 = if leaf { 2 } else { 1 };
        if self.arena.free_count() < needed {
            return Err(ArenaError::CapacityExhausted);
        }
        proof {
            old(self).lemma_wf();
            let k = old(self)@.free.len() - 1;
            assert((old(self)@.free[k] as nat) < old(self)@.capacity);
            if leaf {
                assert((old(self)@.free[k - 1] as nat) < old(self)@.capacity);
            }
        }
        let c = match self.arena.allocate() {
            Ok(c) => c,
            Err(e) => return Err(e),
        };
        self.arena.set(
            c,
            Node {
                archetype_id: ArchetypeId::Stem,
                length: SEED_LENGTH,
                transformation: Orientation { angle_z: 0, angle_x: 0 },
                parent: ni,
                ..a
            },
        );
        self.set_parent_of(n.left_child, c);
        self.set_parent_of(n.right_child, c);
        if leaf {
            proof {
                self.lemma_wf();
                assert(self@.free.last() == old(self)@.free[old(self)@.free.len() - 2]);
            }
            let e = match self.arena.allocate() {
                Ok(e) => e,
                Err(err) => return Err(err),
            };
            let leaf_node = Node {
                parent: ni,
                archetype_id: ArchetypeId::Leaf,
                status: NodeStatus::Alive,
                visible: true,
                length: SEED_LENGTH,
                radius: SEED_LENGTH,
                transformation: Orientation { angle_z: angle_of(draws.angle_z), angle_x: angle_of(draws.angle_x) },
                ..Node::new()
            };
            self.arena.set(e, leaf_node);
            self.arena.set(ni, Node { archetype_id: ArchetypeId::Stem, left_child: c, right_child: e, ..a });
        } else {
            self.arena.set(
                ni,
                Node { archetype_id: ArchetypeId::Stem, left_child: c, right_child: INVALID_INDEX, ..a },
            );
        }
        Ok(())
    }

    /// One growth pass over every slot that is active when the pass starts, in index
    /// order, slot `i` using `draws[i]` (see `pass`). The pass works on a second copy of
    /// the arena, which replaces this one only when every step succeeded: a refused step
    /// leaves the arena as it was. Slots allocated during the pass are not visited.
    pub fn update_all_with_draws(&mut self, draws: &Vec<GrowthDraws>) -> (r: Result<(), ArenaError>)
        requires
            old(self).wf(),
            draws@.len() == old(self)@.capacity,
        ensures
            final(self).wf(),
            r is Ok ==> pass(old(self)@, draws@, old(self)@.capacity) == Ok::<ArenaView<Node>, ArenaError>(final(self)@),
            r matches Err(e) ==> pass(old(self)@, draws@, old(self)@.capacity) == Err::<ArenaView<Node>, ArenaError>(e),
            r is Ok ==> pass_facts(old(self)@, final(self)@),
            r is Err ==> final(self)@ == old(self)@,
            room_to_grow(old(self)@) ==> r is Ok,
            no_young_bud(old(self)@) ==> r is Ok && final(self)@.free == old(self)@.free && no_young_bud(final(self)@),
    {
        let mut next = NodeBuffer { arena: self.arena.duplicate() };
        let cap = self.arena.size();
        let ghost v0 = self@;
        let ghost d = draws@;
        proof {
            self.lemma_wf();
            assert(v0.free.take(v0.free.len() as int) =~= v0.free);
        }
        let mut i: u32 = 0;
        while i < cap
            invariant
                self.wf(),
                self@ == v0,
                v0.wf(),
                d == draws@,
                d.len() == cap,
                cap == v0.capacity,
                next.wf(),
                next@.capacity == cap,
                i <= cap,
                pass(v0, d, i as nat) == Ok::<ArenaView<Node>, ArenaError>(next@),
                room_to_grow(v0) ==> next@.free.len() >= 2 * young_buds_from(v0, i as nat),
                next@.free.len() <= v0.free.len(),
                next@.free == v0.free.take(next@.free.len() as int),
                no_young_bud(v0) ==> next@.free == v0.free,
                forall|j: u32|
                    v0.in_range(j) && !v0.is_free(j) && (j >= i || !active(v0, j)) ==> same_but_parent(
                        #[trigger] next@.slots[j as int],
                        v0.slots[j as int],
                    ),
                forall|j: u32| #[trigger]
                    active(v0, j) && j < i ==> next@.slots[j as int].age == next_age(v0.slots[j as int].age)
                        && next@.slots[j as int].status == v0.slots[j as int].status,
                forall|j: u32|
                    active(v0, j) && j < i && v0.slots[j as int].archetype_id != ArchetypeId::GrowingBud
                        ==> same_but_parent(
                        #[trigger] next@.slots[j as int],
                        grown(Node { age: next_age(v0.slots[j as int].age), ..v0.slots[j as int] }),
                    ),
                forall|j: u32|
                    active(v0, j) && j < i && v0.slots[j as int].archetype_id == ArchetypeId::GrowingBud
                        ==> bud_outcome(v0.slots[j as int], #[trigger] next@.slots[j as int]),
            decreases cap - i,
        {
            let n = self.arena.get(i);
            if !self.arena.is_free(i) && n.status != NodeStatus::Garbage {
                let ghost before = next@;
                proof {
                    next.lemma_wf();
                    assert(!before.is_free(i)) by {
                        if before.free.contains(i) {
                            let q = choose|q: int| 0 <= q < before.free.len() && before.free[q] == i;
                            assert(v0.free[q] == i);
                        }
                    }
                    assert(same_but_parent(before.slots[i as int], v0.slots[i as int]));
                    assert(active(v0, i));
                    assert(young_buds_from(v0, i as nat) == (if young_bud(v0.slots[i as int]) { 1nat } else { 0nat })
                        + young_buds_from(v0, (i + 1) as nat));
                    if room_to_grow(v0) && young_bud(v0.slots[i as int]) {
                        assert(activation_ok(v0, i));
                        assert forall|j: u32| v0.in_range(j) && !v0.is_free(j) implies !before.is_free(j) by {
                            if before.free.contains(j) {
                                let q = choose|q: int| 0 <= q < before.free.len() && before.free[q] == j;
                                assert(v0.free[q] == j);
                            }
                        }
                        assert(activation_ok(before, i));
                        assert(update_ok(before, i, d[i as int]));
                    }
                }
                match next.update_node(i, draws[i as usize]) {
                    Ok(()) => {},
                    Err(e) => {
                        proof {
                            lemma_pass_stays_refused(v0, d, (i + 1) as nat, cap as nat);
                            assert(e == step_error(before, i));
                        }
                        return Err(e);
                    },
                }
                proof {
                    lemma_update_frame(before, i, d[i as int]);
                    let after = next@;
                    assert(after.free =~= v0.free.take(after.free.len() as int));
                    assert forall|j: u32| v0.in_range(j) && !v0.is_free(j) && j != i implies !before.is_free(j) by {
                        if before.free.contains(j) {
                            let q = choose|q: int| 0 <= q < before.free.len() && before.free[q] == j;
                            assert(v0.free[q] == j);
                        }
                    }
                    if no_young_bud(v0) {
                        assert(!young_bud(v0.slots[i as int]));
                        assert(!bud_activates(before.slots[i as int], d[i as int]));
                    }
                    assert(young_buds_from(v0, i as nat) == (if young_bud(v0.slots[i as int]) { 1nat } else { 0nat })
                        + young_buds_from(v0, (i + 1) as nat));
                }
            } else {
                proof {
                    assert(!active(v0, i));
                    assert(young_buds_from(v0, i as nat) == young_buds_from(v0, (i + 1) as nat));
                }
            }
            i = i + 1;
        }
        proof {
            assert forall|j: u32| #[trigger] v0.in_range(j) && !v0.is_free(j) implies !next@.is_free(j) by {
                if next@.free.contains(j) {
                    let q = choose|q: int| 0 <= q < next@.free.len() && next@.free[q] == j;
                    assert(v0.free[q] == j);
                }
            }
            next.lemma_wf();
            if no_young_bud(v0) {
                let v = next@;
                assert forall|j: u32| #[trigger] active(v, j) implies !young_bud(v.slots[j as int]) by {
                    assert(!v0.is_free(j));
                    if active(v0, j) {
                        if v0.slots[j as int].archetype_id != ArchetypeId::GrowingBud {
                            assert(same_but_parent(v.slots[j as int], grown(Node { age: next_age(v0.slots[j as int].age), ..v0.slots[j as int] })));
                        } else {
                            assert(bud_outcome(v0.slots[j as int], v.slots[j as int]));
                        }
                    } else {
                        assert(same_but_parent(v.slots[j as int], v0.slots[j as int]));
                    }
                }
            }
        }
        *self = next;
        Ok(())
    }

    /// One growth pass (see `update_all_with_draws`) whose draws come from `rng`: each
    /// bud active when the pass starts gets fresh draws, every other slot none.
    pub fn update_all(&mut self, rng: &mut StdRng) -> (r: Result<(), ArenaError>)
        requires
            old(self).wf(),
        ensures
            final(self).wf(),
            r is Err ==> final(self)@ == old(self)@,
            r is Ok ==> exists|d: Seq<GrowthDraws>|
                d.len() == old(self)@.capacity && #[trigger] pass(old(self)@, d, old(self)@.capacity) == Ok::<
                    ArenaView<Node>,
                    ArenaError,
                >(final(self)@),
            r matches Err(e) ==> exists|d: Seq<GrowthDraws>|
                d.len() == old(self)@.capacity && #[trigger] pass(old(self)@, d, old(self)@.capacity) == Err::<
                    ArenaView<Node>,
                    ArenaError,
                >(e),
            r is Ok ==> pass_facts(old(self)@, final(self)@),
            room_to_grow(old(self)@) ==> r is Ok,
            no_young_bud(old(self)@) ==> r is Ok && final(self)@.free == old(self)@.free && no_young_bud(final(self)@),
    {
        let cap = self.arena.size();
        let mut draws: Vec<GrowthDraws> = Vec::new();
        let mut i: u32 = 0;
        proof {
            self.lemma_wf();
        }
        while i < cap
            invariant
                self.wf(),
                cap == self@.capacity,
                i <= cap,
                draws@.len() == i,
            decreases cap - i,
        {
            let n = self.arena.get(i);
            let d = if !self.arena.is_free(i) && n.status != NodeStatus::Garbage && n.archetype_id
                == ArchetypeId::GrowingBud {
                draw_growth(rng)
            } else {
                GrowthDraws { activation: 0, leaf: 0, angle_z: 0, angle_x: 0 }
            };
            draws.push(d);
            i = i + 1;
        }
        let r = self.update_all_with_draws(&draws);
        proof {
            let d = draws@;
            assert(d.len() == old(self)@.capacity);
            assert(pass(old(self)@, d, old(self)@.capacity) == pass(old(self)@, draws@, old(self)@.capacity));
        }
        r
    }

    /// The sizes that the compute side reads beside the records.
    pub fn gen_metadata(&self) -> (r: NodeMetadata)
        requires
            self.wf(),
        ensures
            r.free_ptr == self@.free.len(),
            r.capacity == self@.capacity,
    {
        NodeMetadata { free_ptr: self.arena.free_count(), capacity: self.arena.size() }
    }

    /// Every record, live or not, in index order.
    pub fn gen_data(&self) -> (r: Vec<Node>)
        requires
            self.wf(),
        ensures
            r@ == self@.slots,
    {
        let mut out: Vec<Node> = Vec::new();
        let n = self.arena.size();
        let mut i: u32 = 0;
        proof { self.lemma_wf(); }
        while i < n
            invariant
                self.wf(),
                n == self@.capacity,
                self@.slots.len() == n,
                i <= n,
                out@ == self@.slots.take(i as int),
            decreases n - i,
        {
            out.push(self.arena.get(i));
            i = i + 1;
            assert(out@ =~= self@.slots.take(i as int));
        }
        assert(self@.slots.take(n as int) =~= self@.slots);
        out
    }

    /// The free stack, bottom first.
    pub fn gen_freestack(&self) -> (r: Vec<u32>)
        requires
            self.wf(),
        ensures
            r@ == self@.free,
    {
        self.arena.free_stack()
    }
}

} // verus!
