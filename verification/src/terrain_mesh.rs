//! The mesh of a terrain tile: how its vertices are joined, where each is taken
//! from, and how the images that it is made of are read.
use vstd::prelude::*;

verus! {

/// How many cells a side of the mesh has.
pub const GRID_N: u32 = 32;

/// How many cells a side of the coarse grid of heights has.
pub const HEIGHT_N: usize = 16;

pub const HEIGHT_STRIDE: usize = 17;

/// The vertices of the grid.
pub const CORE_VERTS: u32 = 1089;

/// The vertices of the skirt, one below each vertex of the border.
pub const SKIRT_VERTS: u32 = 128;

pub const TOTAL_VERTS: u32 = 1217;

pub const TOTAL_INDICES: u32 = 6912;

/// The bytes of a vertex.
pub const VERTEX_SIZE: u32 = 32;

/// The bytes of a slot that holds a mesh.
pub const SLOT_SIZE: u32 = 39168;

/// The sizes fit each other: a slot holds every vertex of a mesh and is the least
/// multiple of 256 bytes that does.
pub proof fn lemma_mesh_sizes()
    ensures
        CORE_VERTS == (GRID_N + 1) * (GRID_N + 1),
        SKIRT_VERTS == 4 * GRID_N,
        TOTAL_VERTS == CORE_VERTS + SKIRT_VERTS,
        TOTAL_INDICES == GRID_N * GRID_N * 6 + GRID_N * 4 * 6,
        TOTAL_VERTS * VERTEX_SIZE <= SLOT_SIZE < TOTAL_VERTS * VERTEX_SIZE + 256,
        SLOT_SIZE % 256 == 0,
        HEIGHT_STRIDE == HEIGHT_N + 1,
{
}

/// The `p`-th vertex of the border, all the way round: along the first row, down
/// the last column, back along the last row and up the first column.
pub open spec fn border_cell(p: int) -> (int, int) {
    if p < 32 {
        (p, 0)
    } else if p < 64 {
        (32, p - 32)
    } else if p < 96 {
        (32 - (p - 64), 32)
    } else {
        (0, 32 - (p - 96))
    }
}

/// The column and row of the `p`-th vertex of the border.
pub fn perimeter_cell(p: u32) -> (cell: (u32, u32))
    requires
        p < SKIRT_VERTS,
    ensures
        cell.0 == border_cell(p as int).0,
        cell.1 == border_cell(p as int).1,
        cell.0 <= GRID_N,
        cell.1 <= GRID_N,
{
    let n: u32 = GRID_N;
    if p < n {
        (p, 0)
    } else if p < 2 * n {
        (n, p - n)
    } else if p < 3 * n {
        (n - (p - 2 * n), n)
    } else {
        (0, n - (p - 3 * n))
    }
}

/// Each vertex of the border comes up once, and next to the one before it.
pub proof fn lemma_border_goes_round(p: int, q: int)
    requires
        0 <= p < SKIRT_VERTS,
        0 <= q < SKIRT_VERTS,
    ensures
        border_cell(p) == border_cell(q) <==> p == q,
        ({
            let (x, y) = border_cell(p);
            let (nx, ny) = border_cell((p + 1) % 128);
            &&& x == 0 || x == 32 || y == 0 || y == 32
            &&& (nx == x && (ny == y + 1 || ny == y - 1)) || (ny == y && (nx == x + 1 || nx == x
                - 1))
        }),
{
}

/// The border is walked from the first vertex of the grid to the last by way of the
/// first row and the last column, and back by way of the last row and the first column.
pub proof fn lemma_border_there_and_back(p: int)
    requires
        0 <= p < SKIRT_VERTS,
    ensures
        ({
            let (x, y) = border_cell(p);
            &&& p <= 64 ==> x + y == p && x >= y
            &&& p >= 64 ==> x + y == 128 - p && x <= y
        }),
{
}

/// The `k`-th corner of the two triangles of the cell at column `x`, row `y`.
pub open spec fn cell_corner(x: int, y: int, k: int) -> int {
    let i00 = y * 33 + x;
    if k == 0 {
        i00
    } else if k == 1 || k == 4 {
        i00 + 33
    } else if k == 2 || k == 3 {
        i00 + 1
    } else {
        i00 + 34
    }
}

/// The `k`-th corner of the two triangles of the skirt below the border between
/// its `p`-th vertex and the next.
pub open spec fn skirt_corner(p: int, k: int) -> int {
    let q = (p + 1) % 128;
    let (cx, cy) = border_cell(p);
    let (qx, qy) = border_cell(q);
    if k == 0 || k == 3 {
        cy * 33 + cx
    } else if k == 1 {
        qy * 33 + qx
    } else if k == 2 || k == 4 {
        CORE_VERTS + q
    } else {
        CORE_VERTS + p
    }
}

/// The `i`-th index of the mesh: the cells row by row, then the skirt.
pub open spec fn index_at(i: int) -> int {
    if i < 6144 {
        cell_corner(i / 6 % 32, i / 6 / 32, i % 6)
    } else {
        skirt_corner((i - 6144) / 6, (i - 6144) % 6)
    }
}

/// Every index is that of a vertex of the mesh, and those of the cells are vertices
/// of the grid.
pub proof fn lemma_indices_in_mesh(i: int)
    requires
        0 <= i < TOTAL_INDICES,
    ensures
        0 <= index_at(i) < TOTAL_VERTS,
        i < 6144 ==> index_at(i) < CORE_VERTS,
{
    if i < 6144 {
        let cell = i / 6;
        assert(0 <= cell < 1024);
        assert(0 <= cell / 32 < 32);
        assert(0 <= cell % 32 < 32);
    } else {
        let p = (i - 6144) / 6;
        assert(0 <= p < 128);
    }
}

/// The indices of every mesh.
pub open spec fn mesh_indices() -> Seq<u16> {
    Seq::new(TOTAL_INDICES as nat, |i: int| index_at(i) as u16)
}

/// The indices of every mesh.
pub fn build_indices() -> (idx: Vec<u16>)
    ensures
        idx@ == mesh_indices(),
        forall|i: int| 0 <= i < idx@.len() ==> #[trigger] idx@[i] < TOTAL_VERTS,
{
    let mut idx: Vec<u16> = Vec::new();
    let mut cell: u32 = 0;
    while cell < 1024
        invariant
            cell <= 1024,
            idx@.len() == 6 * cell,
            forall|i: int| 0 <= i < idx@.len() ==> #[trigger] idx@[i] == index_at(i),
        decreases 1024 - cell,
    {
        let x: u32 = cell % 32;
        let y: u32 = cell / 32;
        let i00: u16 = (y * 33 + x) as u16;
        let i10: u16 = i00 + 1;
        let i01: u16 = i00 + 33;
        let i11: u16 = i01 + 1;
        let ghost before = idx@;
        let ghost n = 6 * cell as int;
        assert(forall|k: int| 0 <= k < 6 ==> #[trigger] index_at(n + k) == cell_corner(
            x as int,
            y as int,
            k,
        )) by {
            assert forall|k: int| 0 <= k < 6 implies #[trigger] index_at(n + k) == cell_corner(
                x as int,
                y as int,
                k,
            ) by {
                assert((n + k) / 6 == cell);
                assert((n + k) % 6 == k);
            }
        }
        idx.push(i00);
        idx.push(i01);
        idx.push(i10);
        idx.push(i10);
        idx.push(i01);
        idx.push(i11);
        assert forall|i: int| 0 <= i < idx@.len() implies #[trigger] idx@[i] == index_at(i) by {
            if i < n {
                assert(idx@[i] == before[i]);
            } else {
                assert(index_at(n + (i - n)) == cell_corner(x as int, y as int, i - n));
            }
        }
        cell = cell + 1;
    }
    let mut p: u32 = 0;
    while p < 128
        invariant
            p <= 128,
            idx@.len() == 6144 + 6 * p,
            forall|i: int| 0 <= i < idx@.len() ==> #[trigger] idx@[i] == index_at(i),
        decreases 128 - p,
    {
        let q: u32 = (p + 1) % 128;
        let (cx, cy) = perimeter_cell(p);
        let (qx, qy) = perimeter_cell(q);
        let c0: u16 = (cy * 33 + cx) as u16;
        let c1: u16 = (qy * 33 + qx) as u16;
        let s0: u16 = (CORE_VERTS + p) as u16;
        let s1: u16 = (CORE_VERTS + q) as u16;
        let ghost before = idx@;
        let ghost n = 6144 + 6 * p as int;
        assert(forall|k: int| 0 <= k < 6 ==> #[trigger] index_at(n + k) == skirt_corner(p as int, k))
            by {
            assert forall|k: int| 0 <= k < 6 implies #[trigger] index_at(n + k) == skirt_corner(
                p as int,
                k,
            ) by {
                assert((n + k - 6144) / 6 == p);
                assert((n + k - 6144) % 6 == k);
            }
        }
        idx.push(c0);
        idx.push(c1);
        idx.push(s1);
        idx.push(c0);
        idx.push(s1);
        idx.push(s0);
        assert forall|i: int| 0 <= i < idx@.len() implies #[trigger] idx@[i] == index_at(i) by {
            if i < n {
                assert(idx@[i] == before[i]);
            } else {
                assert(index_at(n + (i - n)) == skirt_corner(p as int, i - n));
            }
        }
        p = p + 1;
    }
    assert(idx@ =~= mesh_indices());
    assert forall|i: int| 0 <= i < idx@.len() implies #[trigger] idx@[i] < TOTAL_VERTS by {
        lemma_indices_in_mesh(i);
    }
    idx
}

/// The grid is covered: the cell at column `x`, row `y` has two triangles of its own,
/// one between its own vertex, the one below and the next in the row, and one between
/// that next, the one below and the one below that next.
pub proof fn lemma_cells_covered(x: int, y: int)
    requires
        0 <= x < 32,
        0 <= y < 32,
    ensures
        mesh_indices().len() == 6912,
        ({
            let idx = mesh_indices();
            let n = 6 * (32 * y + x);
            let own = 33 * y + x;
            &&& idx[n] == own
            &&& idx[n + 1] == own + 33
            &&& idx[n + 2] == own + 1
            &&& idx[n + 3] == own + 1
            &&& idx[n + 4] == own + 33
            &&& idx[n + 5] == own + 34
        }),
{
    let n = 6 * (32 * y + x);
    assert forall|k: int| 0 <= k < 6 implies #[trigger] index_at(n + k) == cell_corner(x, y, k) by {
        assert((n + k) / 6 == 32 * y + x);
        assert((n + k) % 6 == k);
        assert((32 * y + x) % 32 == x);
        assert((32 * y + x) / 32 == y);
    }
    assert(index_at(n + 0) == cell_corner(x, y, 0));
    assert(index_at(n + 1) == cell_corner(x, y, 1));
    assert(index_at(n + 2) == cell_corner(x, y, 2));
    assert(index_at(n + 3) == cell_corner(x, y, 3));
    assert(index_at(n + 4) == cell_corner(x, y, 4));
    assert(index_at(n + 5) == cell_corner(x, y, 5));
}

/// The skirt hangs from the border without a gap: its `p`-th wall is two triangles
/// between two vertices of the border and the vertices of the skirt below them, and
/// the next wall begins where it ends. The last ends where the first begins.
pub proof fn lemma_skirt_closed(p: int)
    requires
        0 <= p < 128,
    ensures
        ({
            let idx = mesh_indices();
            let n = 6144 + 6 * p;
            let q = if p == 127 {
                0
            } else {
                p + 1
            };
            &&& idx[n] < 1089
            &&& idx[n + 1] == idx[6144 + 6 * q]
            &&& idx[n + 2] == 1089 + q
            &&& idx[n + 3] == idx[n]
            &&& idx[n + 4] == 1089 + q
            &&& idx[n + 5] == 1089 + p
        }),
{
    let q = if p == 127 {
        0
    } else {
        p + 1
    };
    lemma_skirt_corners(p);
    lemma_skirt_corners(q);
}

proof fn lemma_skirt_corners(p: int)
    requires
        0 <= p < 128,
    ensures
        forall|k: int|
            0 <= k < 6 ==> #[trigger] mesh_indices()[6144 + 6 * p + k] == skirt_corner(p, k),
        mesh_indices()[6144 + 6 * p] == skirt_corner(p, 0),
{
    let n = 6144 + 6 * p;
    assert forall|k: int| 0 <= k < 6 implies #[trigger] mesh_indices()[n + k] == skirt_corner(p, k) by {
        assert((n + k - 6144) / 6 == p);
        assert((n + k - 6144) % 6 == k);
        lemma_indices_in_mesh(n + k);
    }
    assert(mesh_indices()[n + 0] == skirt_corner(p, 0));
}

/// The surface has no rim above the skirt: where a wall of the skirt goes along the
/// border one way, a triangle of a cell goes the other way.
pub proof fn lemma_skirt_joins_cells(p: int)
    requires
        0 <= p < 128,
    ensures
        exists|t: int, a: int, b: int|
            #![trigger mesh_indices()[3 * t + a], mesh_indices()[3 * t + b]]
            0 <= t < 2048 && 0 <= a < 3 && 0 <= b < 3 && (b == a + 1 || b == a - 2)
                && mesh_indices()[3 * t + a] == mesh_indices()[6144 + 6 * p + 1]
                && mesh_indices()[3 * t + b] == mesh_indices()[6144 + 6 * p],
{
    let idx = mesh_indices();
    lemma_skirt_corners(p);
    assert(idx[6144 + 6 * p + 1] == skirt_corner(p, 1));
    let (x, y, from, to): (int, int, int, int) = if p < 32 {
        (p, 0, 2, 0)
    } else if p < 64 {
        (31, p - 32, 5, 3)
    } else if p < 96 {
        (95 - p, 31, 4, 5)
    } else {
        (0, 127 - p, 0, 1)
    };
    lemma_cells_covered(x, y);
    let n = 6 * (32 * y + x);
    let t = 2 * (32 * y + x) + from / 3;
    let a = from % 3;
    let b = to % 3;
    assert(3 * t + a == n + from && 3 * t + b == n + to);
    assert(idx[3 * t + a] == idx[n + from] && idx[3 * t + b] == idx[n + to]);
}

/// The corners of a cell of the grid: its own vertex, the next in the row, the one
/// below and the one below that next.
pub fn cell_vertices(x: u32, y: u32) -> (corners: (usize, usize, usize, usize))
    requires
        x < GRID_N,
        y < GRID_N,
    ensures
        corners.0 == cell_corner(x as int, y as int, 0),
        corners.1 == cell_corner(x as int, y as int, 2),
        corners.2 == cell_corner(x as int, y as int, 1),
        corners.3 == cell_corner(x as int, y as int, 5),
        corners.3 < CORE_VERTS,
{
    let i00: usize = (y * 33 + x) as usize;
    (i00, i00 + 1, i00 + 33, i00 + 34)
}

/// The places on the grid of half as many cells that a vertex lies between, along
/// one side.
pub open spec fn coarse_between(x: int) -> (int, int) {
    if x % 2 == 0 {
        (x, x)
    } else {
        (x - 1, x + 1)
    }
}

/// The vertices of the grid of half as many cells between which a vertex lies:
/// their middle is where it goes when the tile merges.
pub fn coarse_parents(x: usize, y: usize) -> (parents: (usize, usize, usize, usize))
    requires
        x <= GRID_N,
        y <= GRID_N,
    ensures
        ({
            let (x0, x1) = coarse_between(x as int);
            let (y0, y1) = coarse_between(y as int);
            &&& parents.0 == y0 * 33 + x0
            &&& parents.1 == y0 * 33 + x1
            &&& parents.2 == y1 * 33 + x0
            &&& parents.3 == y1 * 33 + x1
        }),
        parents.0 < CORE_VERTS && parents.1 < CORE_VERTS && parents.2 < CORE_VERTS && parents.3
            < CORE_VERTS,
{
    let x0: usize = if x % 2 == 0 {
        x
    } else {
        x - 1
    };
    let x1: usize = if x % 2 == 0 {
        x
    } else {
        x + 1
    };
    let y0: usize = if y % 2 == 0 {
        y
    } else {
        y - 1
    };
    let y1: usize = if y % 2 == 0 {
        y
    } else {
        y + 1
    };
    (y0 * 33 + x0, y0 * 33 + x1, y1 * 33 + x0, y1 * 33 + x1)
}

/// A vertex of the coarse grid stays where it is when the tile merges.
pub proof fn lemma_coarse_vertices_stay(x: int)
    ensures
        coarse_between(x).0 % 2 == 0,
        coarse_between(x).1 % 2 == 0,
        coarse_between(x).0 + coarse_between(x).1 == 2 * x,
        coarse_between(x).0 <= coarse_between(x).1 <= coarse_between(x).0 + 2,
        x % 2 == 0 ==> coarse_between(x) == (x, x),
{
}

/// Whether the height of a vertex is kept in the coarse grid of heights.
pub fn keeps_height(x: usize, y: usize) -> (keeps: bool)
    ensures
        keeps == (x % 2 == 0 && y % 2 == 0),
{
    let step: usize = (GRID_N as usize + 1) / HEIGHT_N;
    x % step == 0 && y % step == 0
}

/// The texture coordinate of a column or row: its part of the side, in parts of
/// 65535, rounded down.
pub fn vertex_uv(x: u32) -> (uv: u16)
    requires
        x <= GRID_N,
    ensures
        uv == x * 65535 / 32,
        x == 0 ==> uv == 0,
        x == GRID_N ==> uv == u16::MAX,
{
    (x * 65535 / GRID_N) as u16
}

/// The vertex of the grid that the `p`-th vertex of the skirt hangs below.
pub fn skirt_source(p: u32) -> (vertex: usize)
    requires
        p < SKIRT_VERTS,
    ensures
        vertex == skirt_corner(p as int, 0),
        vertex < CORE_VERTS,
{
    let (cx, cy) = perimeter_cell(p);
    (cy * 33 + cx) as usize
}

/// Heights in parts of 256 to the meter, row by row.
pub struct Heightmap {
    pub w: usize,
    pub h: usize,
    pub data: Vec<i32>,
}

impl Heightmap {
    /// Whether there is a height for each column of each row, and one at the least.
    pub open spec fn wf(&self) -> bool {
        &&& 0 < self.w
        &&& 0 < self.h
        &&& self.data@.len() == self.w * self.h
    }

    /// The height at column `x`, row `y`.
    pub open spec fn at(&self, x: int, y: int) -> i32 {
        self.data@[y * self.w + x]
    }

    /// The heights between which a place that lies at or after column `x0`, row
    /// `y0` is interpolated: there, in the next column, in the next row, and in
    /// both. Past the last column or row, the last is taken again.
    pub fn corners(&self, x0: usize, y0: usize) -> (heights: (i32, i32, i32, i32))
        requires
            self.wf(),
            x0 < self.w,
            y0 < self.h,
        ensures
            ({
                let x1 = if x0 + 1 < self.w {
                    x0 + 1
                } else {
                    self.w - 1
                };
                let y1 = if y0 + 1 < self.h {
                    y0 + 1
                } else {
                    self.h - 1
                };
                &&& heights.0 == self.at(x0 as int, y0 as int)
                &&& heights.1 == self.at(x1, y0 as int)
                &&& heights.2 == self.at(x0 as int, y1)
                &&& heights.3 == self.at(x1, y1)
            }),
            heights.0 == self.data@[y0 * self.w + x0],
            x0 + 1 < self.w ==> heights.1 == self.data@[y0 * self.w + x0 + 1],
            y0 + 1 < self.h ==> heights.2 == self.data@[(y0 + 1) * self.w + x0],
            x0 + 1 < self.w && y0 + 1 < self.h ==> heights.3 == self.data@[(y0 + 1) * self.w + x0
                + 1],
            x0 + 1 == self.w ==> heights.1 == heights.0 && heights.3 == heights.2,
            y0 + 1 == self.h ==> heights.2 == heights.0 && heights.3 == heights.1,
    {
        let x1: usize = if x0 + 1 < self.w {
            x0 + 1
        } else {
            self.w - 1
        };
        let y1: usize = if y0 + 1 < self.h {
            y0 + 1
        } else {
            self.h - 1
        };
        proof {
            lemma_cell_in_rows(x0 as int, y0 as int, self.w as int, self.h as int);
            lemma_cell_in_rows(x1 as int, y0 as int, self.w as int, self.h as int);
            lemma_cell_in_rows(x0 as int, y1 as int, self.w as int, self.h as int);
            lemma_cell_in_rows(x1 as int, y1 as int, self.w as int, self.h as int);
            assert(self.data.len() == self.w * self.h);
        }
        (
            self.data[y0 * self.w + x0],
            self.data[y0 * self.w + x1],
            self.data[y1 * self.w + x0],
            self.data[y1 * self.w + x1],
        )
    }
}

proof fn lemma_cell_in_rows(x: int, y: int, w: int, h: int)
    by (nonlinear_arith)
    requires
        0 <= x < w,
        0 <= y < h,
    ensures
        0 <= y * w,
        0 <= y * w + x < w * h,
{
}

} // verus!
