use vstd::prelude::*;

use crate::arena::{ArenaError, ArenaView};
use crate::grid::{GridBuffer, GridCell, GridView};
use crate::node::{active, next_age, no_young_bud, pass, pass_facts, room_to_grow, GrowthDraws, Node, NodeBuffer, UNIT};
use crate::plant::PlantBuffer;
use rand::rngs::StdRng;

verus! {

/// The flat index of the grid cell that holds a node's cached position, or -1 when the
/// position lies outside the grid. A cell spans one world unit along each axis.
pub open spec fn node_cell(g: GridView, n: Node) -> int {
    let x = n.absolute_position_cache.x as int / UNIT as int;
    let y = n.absolute_position_cache.y as int / UNIT as int;
    let z = n.absolute_position_cache.z as int / UNIT as int;
    if g.contains(x, y, z) {
        g.id(x, y, z)
    } else {
        -1
    }
}

/// Total volume of the active nodes among the first `upto` slots that lie in cell `k`.
pub open spec fn density_contribution(nodes: ArenaView<Node>, g: GridView, k: int, upto: nat) -> int
    decreases upto,
{
    if upto == 0 {
        0
    } else {
        let j = (upto - 1) as nat;
        let n = nodes.slots[j as int];
        density_contribution(nodes, g, k, j) + if active(nodes, j as u32) && node_cell(g, n) == k {
            n.volume as int
        } else {
            0
        }
    }
}

/// A cell with `extra` added to its plant density, saturating at `u32::MAX`.
pub open spec fn densified(c: GridCell, extra: int) -> GridCell {
    let d = c.plant_density as int + extra;
    GridCell { plant_density: (if d > u32::MAX { u32::MAX as int } else { d }) as u32, ..c }
}

/// The grid after the density pass: every active node adds its volume (in millionths of
/// a cubic unit, that is cubic centimetres) to the plant density of its cell.
pub open spec fn density_pass(g: GridView, nodes: ArenaView<Node>) -> GridView {
    GridView {
        cells: Seq::new(g.cells.len(), |k: int| densified(g.cells[k], density_contribution(nodes, g, k, nodes.capacity))),
        ..g
    }
}

proof fn lemma_contribution_nonneg(nodes: ArenaView<Node>, g: GridView, k: int, upto: nat)
    ensures
        density_contribution(nodes, g, k, upto) >= 0,
    decreases upto,
{
    if upto > 0 {
        lemma_contribution_nonneg(nodes, g, k, (upto - 1) as nat);
    }
}

/// Reads `grid` and `nodes` and returns the next generation of the grid, with the
/// density of every active node added to its cell.
pub fn accumulate_density(grid: &GridBuffer, nodes: &NodeBuffer) -> (r: GridBuffer)
    requires
        grid.wf(),
        nodes.wf(),
    ensures
        r.wf(),
        r@ == density_pass(grid@, nodes@),
{
    let mut out = grid.duplicate();
    let ghost g = grid@;
    let ghost v = nodes@;
    let cap = nodes.size();
    proof {
        nodes.lemma_wf();
        grid.lemma_wf();
        assert forall|k: int| 0 <= k < g.cells.len() implies #[trigger] out@.cells[k] == densified(
            g.cells[k],
            density_contribution(v, g, k, 0),
        ) by {}
    }
    let mut i: u32 = 0;
    while i < cap
        invariant
            grid.wf(),
            nodes.wf(),
            g == grid@,
            v == nodes@,
            v.wf(),
            g.wf(),
            cap == v.capacity,
            i <= cap,
            out.wf(),
            out@.xsize == g.xsize && out@.ysize == g.ysize && out@.zsize == g.zsize,
            out@.cells.len() == g.cells.len(),
            forall|k: int|
                0 <= k < g.cells.len() ==> #[trigger] out@.cells[k] == densified(
                    g.cells[k],
                    density_contribution(v, g, k, i as nat),
                ),
        decreases cap - i,
    {
        let n = nodes.get(i);
        let ghost before = out@;
        let mut target: i64 = -1;
        if !nodes.is_free(i) && n.status != crate::node::NodeStatus::Garbage {
            let p = n.absolute_position_cache;
            let meta = grid.gen_metadata();
            if p.x >= 0 && p.y >= 0 && p.z >= 0 {
                let x = p.x / 1_000_000;
                let y = p.y / 1_000_000;
                let z = p.z / 1_000_000;
                if x < meta.xsize as i64 && y < meta.ysize as i64 && z < meta.zsize as i64 {
                    let (cx, cy, cz) = (x as u32, y as u32, z as u32);
                    let cur = out.get(cx, cy, cz);
                    let total: u64 = cur.plant_density as u64 + n.volume as u64;
                    let d: u32 = if total > 0xffff_ffff { 0xffff_ffff } else { total as u32 };
                    out.set(cx, cy, cz, GridCell { plant_density: d, ..cur });
                    proof {
                        crate::grid::lemma_id_in_range(g, cx as int, cy as int, cz as int);
                        let c = g.id(cx as int, cy as int, cz as int);
                        assert(node_cell(g, n) == c);
                        lemma_contribution_nonneg(v, g, c, i as nat);
                        assert forall|k: int| 0 <= k < g.cells.len() implies #[trigger] out@.cells[k] == densified(
                            g.cells[k],
                            density_contribution(v, g, k, (i + 1) as nat),
                        ) by {
                            if k == c {
                                assert(out@.cells[k] == densified(g.cells[k], density_contribution(v, g, k, i as nat) + n.volume));
                            } else {
                                assert(out@.cells[k] == before.cells[k]);
                            }
                        }
                    }
                } else {
                    proof {
                        assert(node_cell(g, n) == -1);
                        assert forall|k: int| 0 <= k < g.cells.len() implies #[trigger] out@.cells[k] == densified(
                            g.cells[k],
                            density_contribution(v, g, k, (i + 1) as nat),
                        ) by {}
                    }
                }
            } else {
                proof {
                    assert(node_cell(g, n) == -1);
                    assert forall|k: int| 0 <= k < g.cells.len() implies #[trigger] out@.cells[k] == densified(
                        g.cells[k],
                        density_contribution(v, g, k, (i + 1) as nat),
                    ) by {}
                }
            }
        } else {
            proof {
                assert forall|k: int| 0 <= k < g.cells.len() implies #[trigger] out@.cells[k] == densified(
                    g.cells[k],
                    density_contribution(v, g, k, (i + 1) as nat),
                ) by {}
            }
        }
        i = i + 1;
    }
    assert(out@.cells =~= density_pass(g, v).cells);
    out
}

/// Everything one simulation step works on.
pub struct SimulationState {
    pub node_buffer: NodeBuffer,
    pub grid_buffer: GridBuffer,
    pub plant_buffer: PlantBuffer,
}

impl SimulationState {
    pub open spec fn wf(&self) -> bool {
        self.node_buffer.wf() && self.grid_buffer.wf() && self.plant_buffer.wf()
    }
}

/// One full step: the density pass reads the current nodes and grid and produces the
/// next grid; then the growth pass produces the next nodes. Both generations are
/// committed only when the growth pass succeeds; otherwise the step is abandoned and the
/// state is left as it was.
pub fn run_cycle(state: &mut SimulationState, rng: &mut StdRng) -> (r: Result<(), ArenaError>)
    requires
        old(state).wf(),
    ensures
        final(state).wf(),
        final(state).plant_buffer@ == old(state).plant_buffer@,
        r is Err ==> final(state).node_buffer@ == old(state).node_buffer@ && final(state).grid_buffer@ == old(
            state,
        ).grid_buffer@,
        r is Ok ==> final(state).grid_buffer@ == density_pass(old(state).grid_buffer@, old(state).node_buffer@),
        r is Ok ==> pass_facts(old(state).node_buffer@, final(state).node_buffer@),
        r is Ok ==> exists|d: Seq<GrowthDraws>|
            d.len() == old(state).node_buffer@.capacity && #[trigger] pass(
                old(state).node_buffer@,
                d,
                old(state).node_buffer@.capacity,
            ) == Ok::<ArenaView<Node>, ArenaError>(final(state).node_buffer@),
        r matches Err(e) ==> exists|d: Seq<GrowthDraws>|
            d.len() == old(state).node_buffer@.capacity && #[trigger] pass(
                old(state).node_buffer@,
                d,
                old(state).node_buffer@.capacity,
            ) == Err::<ArenaView<Node>, ArenaError>(e),
        room_to_grow(old(state).node_buffer@) ==> r is Ok,
        no_young_bud(old(state).node_buffer@) ==> r is Ok && no_young_bud(final(state).node_buffer@),
{
    let grid_next = accumulate_density(&state.grid_buffer, &state.node_buffer);
    match state.node_buffer.update_all(rng) {
        Ok(()) => {},
        Err(e) => {
            return Err(e);
        },
    }
    state.grid_buffer = grid_next;
    Ok(())
}

/// Shared switches and counters of a running simulation.
#[derive(Clone, Copy, Debug, PartialEq, Eq, Structural)]
pub struct Control {
    pub current_node_count: u32,
    pub max_node_count: u32,
    pub current_cycle_count: u32,
    pub should_terminate: bool,
    pub has_terminated: bool,
    pub should_pause: bool,
    pub has_paused: bool,
    pub target_fps: u32,
    pub current_fps: u32,
}

impl Control {
    /// No cycles run yet, not terminating, and paused until told otherwise.
    pub fn new() -> (r: Control)
        ensures
            r == (Control {
                current_node_count: 0,
                max_node_count: 0,
                current_cycle_count: 0,
                should_terminate: false,
                has_terminated: false,
                should_pause: true,
                has_paused: false,
                target_fps: 0,
                current_fps: 0,
            }),
    {
        Control {
            current_node_count: 0,
            max_node_count: 0,
            current_cycle_count: 0,
            should_terminate: false,
            has_terminated: false,
            should_pause: true,
            has_paused: false,
            target_fps: 0,
            current_fps: 0,
        }
    }
}

/// `gens` are the node arenas of `k` successive growth passes from `gens[0]`, pass `t`
/// using draws `ds[t]`.
pub open spec fn pass_chain(gens: Seq<ArenaView<Node>>, ds: Seq<Seq<GrowthDraws>>, k: nat) -> bool {
    &&& gens.len() == k + 1
    &&& ds.len() == k
    &&& forall|t: int|
        0 <= t < k ==> (#[trigger] ds[t]).len() == gens[t].capacity && pass(gens[t], ds[t], gens[t].capacity)
            == Ok::<ArenaView<Node>, ArenaError>(gens[t + 1])
}

/// `v` is what `k` successive growth passes make of `v0`, for some draws.
pub open spec fn after_passes(v0: ArenaView<Node>, v: ArenaView<Node>, k: nat) -> bool {
    exists|gens: Seq<ArenaView<Node>>, ds: Seq<Seq<GrowthDraws>>|
        #[trigger] pass_chain(gens, ds, k) && gens[0] == v0 && gens[k as int] == v
}

/// `age` after `k` steps, saturating at `u32::MAX`.
pub open spec fn aged_by(age: u32, k: nat) -> u32 {
    if age + k > u32::MAX {
        u32::MAX
    } else {
        (age + k) as u32
    }
}

/// Runs up to `cycles` steps under `control`. A termination request is acknowledged by
/// setting `has_terminated`, a pause request by setting `has_paused`; neither runs a
/// step. Otherwise the steps run one after the other until one fails, and the counters
/// are brought up to date.
pub fn simulate(state: &mut SimulationState, control: &mut Control, rng: &mut StdRng, cycles: u32) -> (r: Result<(), ArenaError>)
    requires
        old(state).wf(),
    ensures
        final(state).wf(),
        old(control).should_terminate ==> r is Ok && final(state).node_buffer@ == old(state).node_buffer@
            && final(state).grid_buffer@ == old(state).grid_buffer@ && *final(control) == (Control {
            has_terminated: true,
            ..*old(control)
        }),
        !old(control).should_terminate && old(control).should_pause ==> r is Ok && final(state).node_buffer@ == old(
            state,
        ).node_buffer@ && final(state).grid_buffer@ == old(state).grid_buffer@ && *final(control) == (Control {
            has_paused: true,
            ..*old(control)
        }),
        !old(control).should_terminate && !old(control).should_pause && r is Ok ==> {
            &&& !final(control).has_paused
            &&& final(control).current_cycle_count as int == if old(control).current_cycle_count + cycles
                > u32::MAX {
                u32::MAX as int
            } else {
                old(control).current_cycle_count + cycles
            }
            &&& final(control).current_node_count == final(state).node_buffer@.current_size()
            &&& final(control).max_node_count == final(state).node_buffer@.capacity
            &&& forall|j: u32| #[trigger]
                active(old(state).node_buffer@, j) ==> active(final(state).node_buffer@, j)
                    && final(state).node_buffer@.slots[j as int].age == aged_by(
                    old(state).node_buffer@.slots[j as int].age,
                    cycles as nat,
                )
            &&& after_passes(old(state).node_buffer@, final(state).node_buffer@, cycles as nat)
        },
        !old(control).should_terminate && !old(control).should_pause && no_young_bud(old(state).node_buffer@)
            ==> r is Ok,
{
    if control.should_terminate {
        control.has_terminated = true;
        return Ok(());
    }
    if control.should_pause {
        control.has_paused = true;
        return Ok(());
    }
    control.has_paused = false;
    let ghost start = control.current_cycle_count;
    let ghost start_nodes = state.node_buffer@;
    let ghost mut gens: Seq<ArenaView<Node>> = seq![start_nodes];
    let ghost mut ds: Seq<Seq<GrowthDraws>> = Seq::empty();
    let mut k: u32 = 0;
    while k < cycles
        invariant
            state.wf(),
            k <= cycles,
            !old(control).should_terminate,
            !old(control).should_pause,
            !control.has_paused,
            start_nodes.capacity == state.node_buffer@.capacity,
            forall|j: u32| #[trigger]
                active(start_nodes, j) ==> active(state.node_buffer@, j) && state.node_buffer@.slots[j as int].age
                    == aged_by(start_nodes.slots[j as int].age, k as nat),
            no_young_bud(start_nodes) ==> no_young_bud(state.node_buffer@),
            start_nodes == old(state).node_buffer@,
            pass_chain(gens, ds, k as nat),
            gens[0] == start_nodes,
            gens[k as int] == state.node_buffer@,
            control.current_cycle_count as int == if start + k > u32::MAX {
                u32::MAX as int
            } else {
                start + k
            },
        decreases cycles - k,
    {
        let ghost before = state.node_buffer@;
        match run_cycle(state, rng) {
            Ok(()) => {},
            Err(e) => {
                return Err(e);
            },
        }
        proof {
            assert forall|j: u32| #[trigger] active(start_nodes, j) implies active(state.node_buffer@, j)
                && state.node_buffer@.slots[j as int].age == aged_by(start_nodes.slots[j as int].age, (k + 1) as nat) by {
                assert(active(before, j));
            }
            let d = choose|d: Seq<GrowthDraws>|
                d.len() == before.capacity && #[trigger] pass(before, d, before.capacity) == Ok::<
                    ArenaView<Node>,
                    ArenaError,
                >(state.node_buffer@);
            let g2 = gens.push(state.node_buffer@);
            let d2 = ds.push(d);
            assert forall|t: int| 0 <= t < k + 1 implies (#[trigger] d2[t]).len() == g2[t].capacity && pass(
                g2[t],
                d2[t],
                g2[t].capacity,
            ) == Ok::<ArenaView<Node>, ArenaError>(g2[t + 1]) by {
                if t < k {
                    assert(d2[t] == ds[t] && g2[t] == gens[t] && g2[t + 1] == gens[t + 1]);
                }
            }
            gens = g2;
            ds = d2;
        }
        if control.current_cycle_count < 0xffff_ffff {
            control.current_cycle_count = control.current_cycle_count + 1;
        }
        k = k + 1;
    }
    proof {
        assert(pass_chain(gens, ds, cycles as nat) && gens[0] == start_nodes && gens[cycles as int]
            == state.node_buffer@);
    }
    control.current_node_count = state.node_buffer.current_size();
    control.max_node_count = state.node_buffer.size();
    Ok(())
}

} // verus!
