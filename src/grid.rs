use vstd::prelude::*;

verus! {

/// Material of a grid cell.
#[derive(Clone, Copy, Debug, PartialEq, Eq, Structural)]
pub enum Material {
    InvalidMaterial,
    Air,
    Water,
    Stone,
    Soil,
}

/// The code of a material in the packed cell layout.
pub open spec fn material_code(m: Material) -> u32 {
    match m {
        Material::InvalidMaterial => 0,
        Material::Air => 1,
        Material::Water => 2,
        Material::Stone => 3,
        Material::Soil => 4,
    }
}

/// One cell of the environment.
#[derive(Clone, Copy, Debug, PartialEq, Eq, Structural)]
pub struct GridCell {
    pub type_code: Material,
    pub temperature: u32,
    pub moisture: u32,
    pub sunlight: u32,
    pub gravity: u32,
    pub plant_density: u32,
}

pub open spec fn blank_cell() -> GridCell {
    GridCell {
        type_code: Material::InvalidMaterial,
        temperature: 0,
        moisture: 0,
        sunlight: 0,
        gravity: 0,
        plant_density: 0,
    }
}

impl GridCell {
    /// A cell of invalid material with every scalar zero.
    pub fn new() -> (r: GridCell)
        ensures
            r == blank_cell(),
    {
        GridCell {
            type_code: Material::InvalidMaterial,
            temperature: 0,
            moisture: 0,
            sunlight: 0,
            gravity: 0,
            plant_density: 0,
        }
    }

    /// The cell packed as six words, in field order, for the compute side.
    pub fn gpu(&self) -> (r: [u32; 6])
        ensures
            r@ == seq![
                material_code(self.type_code),
                self.temperature,
                self.moisture,
                self.sunlight,
                self.gravity,
                self.plant_density,
            ],
    {
        let code: u32 = match self.type_code {
            Material::InvalidMaterial => 0,
            Material::Air => 1,
            Material::Water => 2,
            Material::Stone => 3,
            Material::Soil => 4,
        };
        let r = [code, self.temperature, self.moisture, self.sunlight, self.gravity, self.plant_density];
        assert(r@ =~= seq![
            material_code(self.type_code),
            self.temperature,
            self.moisture,
            self.sunlight,
            self.gravity,
            self.plant_density,
        ]);
        r
    }
}

/// Dimensions of a grid, as the compute side reads them.
#[derive(Clone, Copy, Debug, PartialEq, Eq, Structural)]
pub struct GridMetadata {
    pub xsize: u32,
    pub ysize: u32,
    pub zsize: u32,
}

/// Mathematical model of a grid: its cells in flat order and its dimensions.
pub ghost struct GridView {
    pub cells: Seq<GridCell>,
    pub xsize: nat,
    pub ysize: nat,
    pub zsize: nat,
}

impl GridView {
    pub open spec fn wf(self) -> bool {
        &&& self.xsize * self.ysize * self.zsize <= u32::MAX
        &&& self.cells.len() == self.xsize * self.ysize * self.zsize
    }

    pub open spec fn contains(self, x: int, y: int, z: int) -> bool {
        0 <= x < self.xsize && 0 <= y < self.ysize && 0 <= z < self.zsize
    }

    /// Flat index of cell `(x, y, z)`.
    pub open spec fn id(self, x: int, y: int, z: int) -> int {
        self.ysize * self.xsize * z + self.xsize * y + x
    }

    pub open spec fn cell(self, x: int, y: int, z: int) -> GridCell {
        self.cells[self.id(x, y, z)]
    }

    pub open spec fn with_cell(self, x: int, y: int, z: int, c: GridCell) -> GridView {
        GridView { cells: self.cells.update(self.id(x, y, z), c), ..self }
    }
}

/// A cell inside the grid has a flat index inside the cell list.
pub proof fn lemma_id_in_range(g: GridView, x: int, y: int, z: int)
    requires
        g.wf(),
        g.contains(x, y, z),
    ensures
        0 <= g.id(x, y, z) < g.cells.len(),
{
    let xs = g.xsize as int;
    let ys = g.ysize as int;
    let zs = g.zsize as int;
    assert(0 <= g.id(x, y, z) < xs * ys * zs) by (nonlinear_arith)
        requires 0 <= x < xs, 0 <= y < ys, 0 <= z < zs, g.id(x, y, z) == ys * xs * z + xs * y + x;
}

/// Lexicographic order on cell coordinates.
pub open spec fn lex_lt(a: (u32, u32, u32), b: (u32, u32, u32)) -> bool {
    a.0 < b.0 || (a.0 == b.0 && (a.1 < b.1 || (a.1 == b.1 && a.2 < b.2)))
}

/// `out` lists, in increasing order, exactly the cells of material `m` that come before
/// `(x, y, z)`.
pub open spec fn lists_cells_before(g: GridView, m: Material, out: Seq<(u32, u32, u32)>, x: u32, y: u32, z: u32) -> bool {
    &&& forall|t: int|
        0 <= t < out.len() ==> g.contains((#[trigger] out[t]).0 as int, out[t].1 as int, out[t].2 as int) && g.cell(
            out[t].0 as int,
            out[t].1 as int,
            out[t].2 as int,
        ).type_code == m && lex_lt(out[t], (x, y, z))
    &&& forall|a: u32, b: u32, c: u32|
        g.contains(a as int, b as int, c as int) && #[trigger] g.cell(a as int, b as int, c as int).type_code == m
            && lex_lt((a, b, c), (x, y, z)) ==> exists|t: int| 0 <= t < out.len() && out[t] == (a, b, c)
    &&& forall|t1: int, t2: int| 0 <= t1 < t2 < out.len() ==> lex_lt(#[trigger] out[t1], #[trigger] out[t2])
}

/// The environment: a fixed-size box of cells stored flat.
pub struct GridBuffer {
    grid_cells: Vec<GridCell>,
    xsize: u32,
    ysize: u32,
    zsize: u32,
}

impl View for GridBuffer {
    type V = GridView;

    closed spec fn view(&self) -> GridView {
        GridView {
            cells: self.grid_cells@,
            xsize: self.xsize as nat,
            ysize: self.ysize as nat,
            zsize: self.zsize as nat,
        }
    }
}

impl GridBuffer {
    pub closed spec fn wf(&self) -> bool {
        self@.wf()
    }

    pub proof fn lemma_wf(&self)
        requires
            self.wf(),
        ensures
            self@.wf(),
    {
    }

    /// A grid of `xsize * ysize * zsize` blank cells.
    pub fn new(xsize: u32, ysize: u32, zsize: u32) -> (r: GridBuffer)
        requires
            xsize * ysize * zsize <= u32::MAX,
        ensures
            r.wf(),
            r@.xsize == xsize && r@.ysize == ysize && r@.zsize == zsize,
            r@.cells == Seq::new((xsize * ysize * zsize) as nat, |i: int| blank_cell()),
    {
        let n: u32 = if xsize == 0 || ysize == 0 || zsize == 0 {
            assert(xsize * ysize * zsize == 0) by (nonlinear_arith)
                requires xsize == 0 || ysize == 0 || zsize == 0;
            0
        } else {
            assert(xsize * ysize <= xsize * ysize * zsize) by (nonlinear_arith)
                requires xsize >= 1, ysize >= 1, zsize >= 1;
            xsize * ysize * zsize
        };
        let mut cells: Vec<GridCell> = Vec::new();
        let mut i: u32 = 0;
        while i < n
            invariant
                i <= n,
                cells@ == Seq::new(i as nat, |k: int| blank_cell()),
            decreases n - i,
        {
            cells.push(GridCell::new());
            i = i + 1;
            assert(cells@ =~= Seq::new(i as nat, |k: int| blank_cell()));
        }
        GridBuffer { grid_cells: cells, xsize, ysize, zsize }
    }

    fn to_id(&self, x: u32, y: u32, z: u32) -> (r: usize)
        requires
            self.wf(),
            self@.contains(x as int, y as int, z as int),
        ensures
            r == self@.id(x as int, y as int, z as int),
            r < self@.cells.len(),
    {
        proof {
            lemma_id_in_range(self@, x as int, y as int, z as int);
            let xs = self.xsize as int;
            let ys = self.ysize as int;
            let zs = self.zsize as int;
            assert(ys * xs <= xs * ys * zs) by (nonlinear_arith)
                requires 0 <= xs, 0 <= ys, 1 <= zs;
            assert(0 <= ys * xs * z <= ys * xs * z + xs * y + x) by (nonlinear_arith)
                requires 0 <= x, 0 <= y, 0 <= xs, 0 <= ys, 0 <= z;
            assert(0 <= xs * y <= ys * xs * z + xs * y + x) by (nonlinear_arith)
                requires 0 <= x, 0 <= z, 0 <= ys, 0 <= xs, 0 <= y;
        }
        (self.ysize * self.xsize * z + self.xsize * y + x) as usize
    }

    pub fn get(&self, x: u32, y: u32, z: u32) -> (r: GridCell)
        requires
            self.wf(),
            self@.contains(x as int, y as int, z as int),
        ensures
            r == self@.cell(x as int, y as int, z as int),
    {
        self.grid_cells[self.to_id(x, y, z)]
    }

    pub fn set(&mut self, x: u32, y: u32, z: u32, cell: GridCell)
        requires
            old(self).wf(),
            old(self)@.contains(x as int, y as int, z as int),
        ensures
            final(self).wf(),
            final(self)@ == old(self)@.with_cell(x as int, y as int, z as int, cell),
    {
        let id = self.to_id(x, y, z);
        self.grid_cells.set(id, cell);
    }

    /// The coordinates of every cell of material `m`, in increasing `(x, y, z)` order.
    pub fn cells_of(&self, m: Material) -> (r: Vec<(u32, u32, u32)>)
        requires
            self.wf(),
        ensures
            forall|t: int|
                0 <= t < r@.len() ==> self@.contains((#[trigger] r@[t]).0 as int, r@[t].1 as int, r@[t].2 as int)
                    && self@.cell(r@[t].0 as int, r@[t].1 as int, r@[t].2 as int).type_code == m,
            forall|a: u32, b: u32, c: u32|
                self@.contains(a as int, b as int, c as int) && #[trigger] self@.cell(a as int, b as int, c as int).type_code
                    == m ==> exists|t: int| 0 <= t < r@.len() && r@[t] == (a, b, c),
            forall|t1: int, t2: int| 0 <= t1 < t2 < r@.len() ==> lex_lt(#[trigger] r@[t1], #[trigger] r@[t2]),
    {
        let ghost g = self@;
        let mut out: Vec<(u32, u32, u32)> = Vec::new();
        let mut x: u32 = 0;
        while x < self.xsize
            invariant
                self.wf(),
                g == self@,
                x <= self.xsize,
                lists_cells_before(g, m, out@, x, 0, 0),
            decreases self.xsize - x,
        {
            let mut y: u32 = 0;
            while y < self.ysize
                invariant
                    self.wf(),
                    g == self@,
                    x < self.xsize,
                    y <= self.ysize,
                    lists_cells_before(g, m, out@, x, y, 0),
                decreases self.ysize - y,
            {
                let mut z: u32 = 0;
                while z < self.zsize
                    invariant
                        self.wf(),
                        g == self@,
                        x < self.xsize,
                        y < self.ysize,
                        z <= self.zsize,
                        lists_cells_before(g, m, out@, x, y, z),
                    decreases self.zsize - z,
                {
                    let ghost before = out@;
                    if self.get(x, y, z).type_code == m {
                        out.push((x, y, z));
                        proof {
                            assert forall|a: u32, b: u32, c: u32|
                                g.contains(a as int, b as int, c as int) && #[trigger] g.cell(a as int, b as int, c as int).type_code
                                    == m && lex_lt((a, b, c), (x, y, (z + 1) as u32)) implies exists|t: int|
                                0 <= t < out@.len() && out@[t] == (a, b, c) by {
                                if (a, b, c) == (x, y, z) {
                                    assert(out@[before.len() as int] == (a, b, c));
                                } else {
                                    let t = choose|t: int| 0 <= t < before.len() && before[t] == (a, b, c);
                                    assert(out@[t] == (a, b, c));
                                }
                            }
                        }
                    } else {
                        proof {
                            assert forall|a: u32, b: u32, c: u32|
                                g.contains(a as int, b as int, c as int) && #[trigger] g.cell(a as int, b as int, c as int).type_code
                                    == m && lex_lt((a, b, c), (x, y, (z + 1) as u32)) implies exists|t: int|
                                0 <= t < out@.len() && out@[t] == (a, b, c) by {
                                assert((a, b, c) != (x, y, z));
                            }
                        }
                    }
                    z = z + 1;
                }
                proof {
                    assert forall|a: u32, b: u32, c: u32|
                        g.contains(a as int, b as int, c as int) && #[trigger] g.cell(a as int, b as int, c as int).type_code
                            == m && lex_lt((a, b, c), (x, (y + 1) as u32, 0)) implies exists|t: int|
                        0 <= t < out@.len() && out@[t] == (a, b, c) by {
                        assert(lex_lt((a, b, c), (x, y, z)));
                    }
                }
                y = y + 1;
            }
            proof {
                assert forall|a: u32, b: u32, c: u32|
                    g.contains(a as int, b as int, c as int) && #[trigger] g.cell(a as int, b as int, c as int).type_code == m
                        && lex_lt((a, b, c), ((x + 1) as u32, 0, 0)) implies exists|t: int|
                    0 <= t < out@.len() && out@[t] == (a, b, c) by {
                    assert(lex_lt((a, b, c), (x, y, 0)));
                }
            }
            x = x + 1;
        }
        proof {
            assert forall|a: u32, b: u32, c: u32|
                g.contains(a as int, b as int, c as int) && #[trigger] g.cell(a as int, b as int, c as int).type_code == m
                    implies exists|t: int| 0 <= t < out@.len() && out@[t] == (a, b, c) by {
                assert(lex_lt((a, b, c), (x, 0, 0)));
            }
        }
        out
    }

    /// The dimensions, for the compute side.
    pub fn gen_metadata(&self) -> (r: GridMetadata)
        ensures
            r.xsize == self@.xsize && r.ysize == self@.ysize && r.zsize == self@.zsize,
    {
        GridMetadata { xsize: self.xsize, ysize: self.ysize, zsize: self.zsize }
    }

    /// Every cell, in flat order.
    pub fn gen_data(&self) -> (r: Vec<GridCell>)
        ensures
            r@ == self@.cells,
    {
        crate::arena::copy_vec(&self.grid_cells)
    }

    /// A second grid with the same cells and dimensions.
    pub fn duplicate(&self) -> (r: GridBuffer)
        requires
            self.wf(),
        ensures
            r.wf(),
            r@ == self@,
    {
        GridBuffer {
            grid_cells: crate::arena::copy_vec(&self.grid_cells),
            xsize: self.xsize,
            ysize: self.ysize,
            zsize: self.zsize,
        }
    }
}

} // verus!
