use compugenesis::archetype::{ArchetypeId, ArchetypeTable, Color};
use compugenesis::camera::{CameraMovementDir, CameraRotationDir};
use compugenesis::grid::{GridBuffer, GridCell, Material};
use compugenesis::node::{Node, NodeBuffer, NodeStatus, Position};
use compugenesis::plant::PlantBuffer;
use compugenesis::simulate::{accumulate_density, run_cycle, simulate, Control, SimulationState};
use rand::rngs::StdRng;
use rand::SeedableRng;

#[test]
fn grid_set_then_get_one_cell() {
    let mut g = GridBuffer::new(10, 10, 10);
    let mut cell = GridCell::new();
    cell.type_code = Material::Soil;
    g.set(5, 5, 5, cell);
    assert_eq!(g.get(5, 5, 5).type_code, Material::Soil);
    for x in 0..10 {
        for y in 0..10 {
            for z in 0..10 {
                if (x, y, z) != (5, 5, 5) {
                    assert_eq!(g.get(x, y, z).type_code, Material::InvalidMaterial);
                    assert_eq!(g.get(x, y, z), GridCell::new());
                }
            }
        }
    }
}

#[test]
fn cells_of_lists_material_in_order() {
    let mut g = GridBuffer::new(3, 2, 2);
    let mut soil = GridCell::new();
    soil.type_code = Material::Soil;
    g.set(2, 0, 1, soil);
    g.set(0, 1, 0, soil);
    g.set(0, 0, 1, soil);
    assert_eq!(g.cells_of(Material::Soil), vec![(0, 0, 1), (0, 1, 0), (2, 0, 1)]);
    assert_eq!(g.cells_of(Material::Water), vec![]);
    assert_eq!(g.cells_of(Material::InvalidMaterial).len(), 9);
}

#[test]
fn grid_flat_layout() {
    let mut g = GridBuffer::new(2, 3, 4);
    let mut cell = GridCell::new();
    cell.temperature = 9;
    g.set(1, 2, 3, cell);
    let data = g.gen_data();
    assert_eq!(data.len(), 24);
    // 3 * 2 * 3 + 2 * 2 + 1
    assert_eq!(data[23].temperature, 9);
    let meta = g.gen_metadata();
    assert_eq!((meta.xsize, meta.ysize, meta.zsize), (2, 3, 4));
}

#[test]
fn grid_cell_packs_in_field_order() {
    let cell = GridCell {
        type_code: Material::Stone,
        temperature: 1,
        moisture: 2,
        sunlight: 3,
        gravity: 4,
        plant_density: 5,
    };
    assert_eq!(cell.gpu(), [3, 1, 2, 3, 4, 5]);
    assert_eq!(GridCell::new().gpu(), [0; 6]);
}

fn placed(x: i64, y: i64, z: i64, volume: u32) -> Node {
    let mut n = Node::new();
    n.status = NodeStatus::Alive;
    n.volume = volume;
    n.absolute_position_cache = Position { x, y, z };
    n
}

#[test]
fn density_pass_adds_volume_to_cell() {
    let g = GridBuffer::new(3, 3, 3);
    let mut b = NodeBuffer::new(5).unwrap();
    b.alloc_insert(placed(1_500_000, 200_000, 300_000, 7)).unwrap();
    b.alloc_insert(placed(1_999_999, 0, 999_999, 5)).unwrap();
    b.alloc_insert(placed(-1, 0, 0, 100)).unwrap();
    b.alloc_insert(placed(3_000_000, 0, 0, 100)).unwrap();
    let garbage = b.alloc_insert(placed(0, 0, 0, 100)).unwrap();
    b.free(garbage).unwrap();
    let out = accumulate_density(&g, &b);
    assert_eq!(out.get(1, 0, 0).plant_density, 12);
    assert_eq!(out.get(0, 0, 0).plant_density, 0);
    assert_eq!(g.get(1, 0, 0).plant_density, 0);
}

#[test]
fn density_saturates() {
    let mut g = GridBuffer::new(1, 1, 1);
    let mut cell = GridCell::new();
    cell.plant_density = u32::MAX - 3;
    g.set(0, 0, 0, cell);
    let mut b = NodeBuffer::new(1).unwrap();
    b.alloc_insert(placed(0, 0, 0, 10)).unwrap();
    assert_eq!(accumulate_density(&g, &b).get(0, 0, 0).plant_density, u32::MAX);
}

fn state() -> SimulationState {
    let mut node_buffer = NodeBuffer::new(8).unwrap();
    let mut n = placed(0, 0, 0, 4);
    n.archetype_id = ArchetypeId::Stem;
    n.length = 50_000;
    node_buffer.alloc_insert(n).unwrap();
    SimulationState { node_buffer, grid_buffer: GridBuffer::new(2, 2, 2), plant_buffer: PlantBuffer::new(2).unwrap() }
}

#[test]
fn run_cycle_updates_grid_then_nodes() {
    let mut s = state();
    let mut rng = StdRng::seed_from_u64(1);
    run_cycle(&mut s, &mut rng).unwrap();
    assert_eq!(s.grid_buffer.get(0, 0, 0).plant_density, 4);
    assert_eq!(s.node_buffer.get(7).age, 1);
    assert_eq!(s.node_buffer.get(7).length, 52_500);
    run_cycle(&mut s, &mut rng).unwrap();
    assert_eq!(s.grid_buffer.get(0, 0, 0).plant_density, 8);
    assert_eq!(s.node_buffer.get(7).age, 2);
}

#[test]
fn control_starts_paused() {
    let c = Control::new();
    assert!(c.should_pause);
    assert!(!c.should_terminate);
    assert_eq!(c.current_cycle_count, 0);
}

#[test]
fn simulate_respects_control() {
    let mut s = state();
    let mut rng = StdRng::seed_from_u64(3);
    let mut c = Control::new();
    simulate(&mut s, &mut c, &mut rng, 5).unwrap();
    assert!(c.has_paused);
    assert_eq!(s.node_buffer.get(7).age, 0);

    c.should_pause = false;
    simulate(&mut s, &mut c, &mut rng, 5).unwrap();
    assert!(!c.has_paused);
    assert_eq!(c.current_cycle_count, 5);
    assert_eq!(c.current_node_count, 1);
    assert_eq!(c.max_node_count, 8);
    assert_eq!(s.node_buffer.get(7).age, 5);

    c.should_terminate = true;
    simulate(&mut s, &mut c, &mut rng, 5).unwrap();
    assert!(c.has_terminated);
    assert_eq!(c.current_cycle_count, 5);
}

#[test]
fn archetype_table_colours() {
    let t = ArchetypeTable::new();
    let leaf = t.get(ArchetypeId::Leaf);
    assert_eq!(leaf.base_color, Color { r: 0, g: 255, b: 0 });
    assert_eq!(leaf.tip_color, Color { r: 255, g: 255, b: 0 });
    let stem = t.get(ArchetypeId::Stem);
    assert_eq!(stem.base_color, Color { r: 0, g: 0, b: 0 });
    assert_eq!(stem.tip_color, Color { r: 0, g: 255, b: 0 });
    assert_eq!(stem.phototropism, 0);
}

#[test]
fn camera_directions_are_distinct() {
    assert_ne!(CameraMovementDir::Forward, CameraMovementDir::Backward);
    assert_ne!(CameraRotationDir::Left, CameraRotationDir::Right);
}
