//! Shapes drawn over the globe: how their triangles are joined, and the batches
//! that they are drawn in.
use vstd::prelude::*;

verus! {

/// The bytes between the uniforms of two batches.
pub const BATCH_STRIDE: u64 = 256;

/// How many batches have a uniform.
pub const MAX_BATCHES: u64 = 4096;

/// The uniform of the debug lines.
pub const DEBUG_SLOT: u32 = 4095;

/// The uniform of the inside of the selection.
pub const SELECT_FILL_SLOT: u32 = 4094;

/// The uniform of the edge of the selection. Those below are for everything else.
pub const SELECT_EDGE_SLOT: u32 = 4093;

/// How many cells a side of the selection has.
pub const SELECT_GRID: u32 = 16;

/// How many dashes a side of the selection has.
pub const SELECT_EDGE_STEPS: u32 = 12;

pub const SELECT_FILL_COLOR: u32 = 0xb9bc_c82e;

pub const SELECT_EDGE_COLOR: u32 = 0xe4e7_f0ff;

/// How many rings of cells a marker has.
pub const MARKER_RINGS: u32 = 12;

/// How many cells a ring of a marker has.
pub const MARKER_SEGMENTS: u32 = 20;

/// A color from its number: red in the highest byte, alpha in the lowest.
pub fn unpack_color(rgba: u32) -> (color: [u8; 4])
    ensures
        color@ == seq![
            (rgba / 0x100_0000) as u8,
            (rgba / 0x1_0000 % 0x100) as u8,
            (rgba / 0x100 % 0x100) as u8,
            (rgba % 0x100) as u8,
        ],
{
    let color: [u8; 4] = [
        (rgba / 0x100_0000) as u8,
        (rgba / 0x1_0000 % 0x100) as u8,
        (rgba / 0x100 % 0x100) as u8,
        (rgba % 0x100) as u8,
    ];
    assert(color@ =~= seq![
        (rgba / 0x100_0000) as u8,
        (rgba / 0x1_0000 % 0x100) as u8,
        (rgba / 0x100 % 0x100) as u8,
        (rgba % 0x100) as u8,
    ]);
    color
}

/// The `k`-th corner of the two triangles of the cell at column `x`, row `y` of a
/// grid with `stride` vertices to the row.
pub open spec fn quad_corner(x: int, y: int, stride: int, k: int) -> int {
    if k == 0 || k == 3 {
        y * stride + x
    } else if k == 1 {
        y * stride + x + 1
    } else if k == 2 || k == 4 {
        (y + 1) * stride + x + 1
    } else {
        (y + 1) * stride + x
    }
}

/// The indices of a grid of `rows` times `cols` cells, row by row.
pub open spec fn grid_indices_of(rows: nat, cols: nat) -> Seq<u32> {
    Seq::new(
        6 * (rows * cols),
        |i: int|
            quad_corner(
                i / 6 % cols as int,
                i / 6 / cols as int,
                cols as int + 1,
                i % 6,
            ) as u32,
    )
}

proof fn lemma_quad_in_grid(x: int, y: int, rows: int, cols: int, k: int)
    requires
        0 <= x < cols,
        0 <= y < rows,
        0 <= k < 6,
    ensures
        0 <= quad_corner(x, y, cols + 1, k) < (rows + 1) * (cols + 1),
{
    let s = cols + 1;
    assert(0 <= y * s && (y + 1) * s <= rows * s && (y + 1) * s == y * s + s && (rows + 1) * s
        == rows * s + s) by (nonlinear_arith)
        requires
            0 <= y < rows,
            s > 0,
    ;
}

/// Every index of a grid is that of one of its vertices.
pub proof fn lemma_grid_indices_in_grid(rows: nat, cols: nat, i: int)
    requires
        (rows + 1) * (cols + 1) <= u32::MAX,
        0 <= i < grid_indices_of(rows, cols).len(),
    ensures
        grid_indices_of(rows, cols)[i] < (rows + 1) * (cols + 1),
{
    let cell = i / 6;
    assert(0 <= cell < rows * cols);
    assert(cols > 0 && rows > 0) by (nonlinear_arith)
        requires
            0 <= cell < rows * cols,
    ;
    lemma_cell_split(cell, rows as int, cols as int);
    lemma_quad_in_grid(cell % cols as int, cell / cols as int, rows as int, cols as int, i % 6);
}

proof fn lemma_cell_split(cell: int, rows: int, cols: int)
    requires
        0 <= cell < rows * cols,
        cols > 0,
    ensures
        0 <= cell / cols < rows,
        0 <= cell % cols < cols,
        cell == cell / cols * cols + cell % cols,
{
    vstd::arithmetic::div_mod::lemma_fundamental_div_mod(cell, cols);
    vstd::arithmetic::div_mod::lemma_div_pos_is_pos(cell, cols);
    vstd::arithmetic::mul::lemma_mul_is_commutative(cols, cell / cols);
    assert(cell / cols < rows) by (nonlinear_arith)
        requires
            cell == cell / cols * cols + cell % cols,
            cell < rows * cols,
            0 <= cell % cols,
            cols > 0,
    ;
}

fn push_quad(out: &mut Vec<u32>, a: u32, b: u32, c: u32, d: u32)
    ensures
        final(out)@ == old(out)@ + seq![a, b, c, a, c, d],
{
    out.push(a);
    out.push(b);
    out.push(c);
    out.push(a);
    out.push(c);
    out.push(d);
    assert(out@ =~= old(out)@ + seq![a, b, c, a, c, d]);
}

/// The indices of a grid of `rows` times `cols` cells.
pub fn grid_indices(rows: u32, cols: u32) -> (indices: Vec<u32>)
    requires
        0 < cols < 0x1000,
        rows < 0x1000,
    ensures
        indices@ == grid_indices_of(rows as nat, cols as nat),
{
    let ghost all = grid_indices_of(rows as nat, cols as nat);
    assert(rows * cols <= 0x1000 * 0x1000) by (nonlinear_arith)
        requires
            rows < 0x1000,
            cols < 0x1000,
    ;
    let mut indices: Vec<u32> = Vec::new();
    let cells: u32 = rows * cols;
    let mut cell: u32 = 0;
    while cell < cells
        invariant
            cells == rows * cols,
            0 < cols < 0x1000,
            rows < 0x1000,
            cell <= cells,
            all == grid_indices_of(rows as nat, cols as nat),
            indices@ == all.take(6 * cell as int),
            all.len() == 6 * cells,
        decreases cells - cell,
    {
        let x: u32 = cell % cols;
        let y: u32 = cell / cols;
        let stride: u32 = cols + 1;
        proof {
            lemma_cell_split(cell as int, rows as int, cols as int);
            assert((y + 1) * stride <= 0x1000 * 0x1000) by (nonlinear_arith)
                requires
                    y + 1 <= 0x1000,
                    stride <= 0x1000,
            ;
            assert((y + 1) * stride == y * stride + stride) by (nonlinear_arith);
            assert(0 <= y * stride) by (nonlinear_arith);
        }
        let a: u32 = y * stride + x;
        let b: u32 = a + 1;
        let d: u32 = (y + 1) * stride + x;
        let c: u32 = d + 1;
        push_quad(&mut indices, a, b, c, d);
        proof {
            assert forall|k: int| 0 <= k < 6 implies #[trigger] all[6 * cell + k] == quad_corner(
                x as int,
                y as int,
                stride as int,
                k,
            ) by {
                assert((6 * cell + k) / 6 == cell);
                assert((6 * cell + k) % 6 == k);
            }
            let next = all.take(6 * (cell + 1));
            assert forall|i: int| 0 <= i < next.len() implies #[trigger] next[i] == indices@[i] by {
                if i >= 6 * cell {
                    let k = i - 6 * cell;
                    assert(all[6 * cell + k] == quad_corner(
                        x as int,
                        y as int,
                        stride as int,
                        k,
                    ));
                }
            }
            assert(indices@ =~= next);
        }
        cell = cell + 1;
    }
    assert(all.take(6 * cell as int) =~= all);
    indices
}

/// A grid is covered: the cell at column `x`, row `y` has two triangles of its own,
/// both between its own vertex and the one across, on either side.
pub proof fn lemma_grid_covered(rows: nat, cols: nat, x: int, y: int)
    requires
        (rows + 1) * (cols + 1) <= u32::MAX,
        0 <= x < cols,
        0 <= y < rows,
    ensures
        grid_indices_of(rows, cols).len() == 6 * (rows * cols),
        ({
            let indices = grid_indices_of(rows, cols);
            let n = 6 * (y * cols + x);
            let own = y * (cols + 1) + x;
            &&& n + 6 <= indices.len()
            &&& indices[n] == own
            &&& indices[n + 1] == own + 1
            &&& indices[n + 2] == own + cols + 2
            &&& indices[n + 3] == own
            &&& indices[n + 4] == own + cols + 2
            &&& indices[n + 5] == own + cols + 1
        }),
{
    let all = grid_indices_of(rows, cols);
    let cell = y * cols + x;
    let s = cols + 1;
    vstd::arithmetic::div_mod::lemma_fundamental_div_mod_converse(
        cell,
        cols as int,
        y,
        x,
    );
    assert(cell + 1 <= rows * cols) by (nonlinear_arith)
        requires
            cell == y * cols + x,
            0 <= x < cols,
            0 <= y < rows,
    ;
    assert((y + 1) * s == y * s + s) by (nonlinear_arith);
    assert forall|k: int| 0 <= k < 6 implies #[trigger] all[6 * cell + k] == quad_corner(
        x as int,
        y as int,
        s as int,
        k,
    ) by {
        assert((6 * cell + k) / 6 == cell);
        assert((6 * cell + k) % 6 == k);
        lemma_quad_in_grid(x as int, y as int, rows as int, cols as int, k);
    }
    assert(all[6 * cell + 0] == quad_corner(x as int, y as int, s as int, 0));
    assert(all[6 * cell + 1] == quad_corner(x as int, y as int, s as int, 1));
    assert(all[6 * cell + 2] == quad_corner(x as int, y as int, s as int, 2));
    assert(all[6 * cell + 3] == quad_corner(x as int, y as int, s as int, 3));
    assert(all[6 * cell + 4] == quad_corner(x as int, y as int, s as int, 4));
    assert(all[6 * cell + 5] == quad_corner(x as int, y as int, s as int, 5));
}

/// The indices of a polygon with `ring` corners: `top` for its top, and where it is
/// extruded two triangles for each of its walls.
pub open spec fn polygon_indices_of(ring: nat, top: Seq<usize>, extruded: bool) -> Seq<u32> {
    top.map_values(|t: usize| t as u32) + (if extruded {
        wall_indices_of(ring, ring)
    } else {
        Seq::empty()
    })
}

/// The indices of the first `n` walls of a polygon with `ring` corners: the four
/// corners of each follow those of the top.
pub open spec fn wall_indices_of(ring: nat, n: nat) -> Seq<u32>
    decreases n,
{
    if n == 0 {
        Seq::empty()
    } else {
        let base = ring + 4 * (n - 1);
        wall_indices_of(ring, (n - 1) as nat) + seq![
            base as u32,
            (base + 1) as u32,
            (base + 2) as u32,
            base as u32,
            (base + 2) as u32,
            (base + 3) as u32,
        ]
    }
}

/// The vertices of a polygon with `ring` corners.
pub open spec fn polygon_vertices(ring: nat, extruded: bool) -> nat {
    if extruded {
        5 * ring
    } else {
        ring
    }
}

proof fn lemma_wall_indices(ring: nat, n: nat)
    requires
        5 * ring <= u32::MAX,
        n <= ring,
    ensures
        wall_indices_of(ring, n).len() == 6 * n,
        forall|i: int|
            0 <= i < wall_indices_of(ring, n).len() ==> ring <= #[trigger] wall_indices_of(
                ring,
                n,
            )[i] < ring + 4 * n,
    decreases n,
{
    if n > 0 {
        lemma_wall_indices(ring, (n - 1) as nat);
    }
}

/// Where the top uses the corners of the ring alone, every index of a polygon is
/// that of one of its vertices.
pub proof fn lemma_polygon_indices_in_polygon(ring: nat, top: Seq<usize>, extruded: bool, i: int)
    requires
        polygon_vertices(ring, extruded) <= u32::MAX,
        forall|k: int| 0 <= k < top.len() ==> #[trigger] top[k] < ring,
        0 <= i < polygon_indices_of(ring, top, extruded).len(),
    ensures
        polygon_indices_of(ring, top, extruded)[i] < polygon_vertices(ring, extruded),
{
    if extruded {
        lemma_wall_indices(ring, ring);
    }
    if i >= top.len() {
        assert(extruded);
        assert(polygon_indices_of(ring, top, extruded)[i] == wall_indices_of(ring, ring)[i
            - top.len()]);
    } else {
        assert(polygon_indices_of(ring, top, extruded)[i] == top[i] as u32);
    }
}

proof fn lemma_wall_joined(ring: nat, n: nat, m: int)
    requires
        5 * ring <= u32::MAX,
        0 <= m < n <= ring,
    ensures
        wall_indices_of(ring, n).len() == 6 * n,
        ({
            let wall = wall_indices_of(ring, n);
            let base = ring + 4 * m;
            &&& wall[6 * m] == base
            &&& wall[6 * m + 1] == base + 1
            &&& wall[6 * m + 2] == base + 2
            &&& wall[6 * m + 3] == base
            &&& wall[6 * m + 4] == base + 2
            &&& wall[6 * m + 5] == base + 3
        }),
    decreases n,
{
    lemma_wall_indices(ring, n);
    lemma_wall_indices(ring, (n - 1) as nat);
    if m < n - 1 {
        lemma_wall_joined(ring, (n - 1) as nat, m);
    }
}

/// Every wall of an extruded polygon is there: after the top, the `n`-th wall is two
/// triangles that share a diagonal of its own four vertices, and the last wall ends
/// with the last vertex. A flat polygon is its top alone.
pub proof fn lemma_every_wall_there(ring: nat, top: Seq<usize>, extruded: bool, n: int)
    requires
        polygon_vertices(ring, extruded) <= u32::MAX,
        0 <= n < ring,
    ensures
        ({
            let indices = polygon_indices_of(ring, top, extruded);
            let at = top.len() + 6 * n;
            let base = ring + 4 * n;
            &&& forall|i: int|
                0 <= i < top.len() && top[i] <= u32::MAX ==> #[trigger] indices[i] == top[i]
            &&& !extruded ==> indices.len() == top.len() && polygon_vertices(ring, extruded)
                == ring
            &&& extruded ==> {
                &&& indices.len() == top.len() + 6 * ring
                &&& polygon_vertices(ring, extruded) == ring + 4 * ring
                &&& indices[at] == base
                &&& indices[at + 1] == base + 1
                &&& indices[at + 2] == base + 2
                &&& indices[at + 3] == base
                &&& indices[at + 4] == base + 2
                &&& indices[at + 5] == base + 3
            }
        }),
{
    let indices = polygon_indices_of(ring, top, extruded);
    if extruded {
        lemma_wall_joined(ring, ring, n);
        let wall = wall_indices_of(ring, ring);
        assert forall|k: int| 0 <= k < 6 implies #[trigger] indices[top.len() + 6 * n + k] == wall[6
            * n + k] by {}
        assert(indices[top.len() + 6 * n + 0] == wall[6 * n + 0]);
    }
}

/// The indices of a polygon with `ring` corners.
pub fn polygon_indices(ring: usize, top: &Vec<usize>, extruded: bool) -> (indices: Vec<u32>)
    requires
        polygon_vertices(ring as nat, extruded) <= u32::MAX,
    ensures
        indices@ == polygon_indices_of(ring as nat, top@, extruded),
{
    let mut indices: Vec<u32> = Vec::new();
    let ghost tops = top@.map_values(|t: usize| t as u32);
    let mut i: usize = 0;
    while i < top.len()
        invariant
            i <= top@.len(),
            tops == top@.map_values(|t: usize| t as u32),
            indices@ == tops.take(i as int),
        decreases top@.len() - i,
    {
        indices.push(top[i] as u32);
        i = i + 1;
        assert(indices@ =~= tops.take(i as int));
    }
    assert(tops.take(i as int) =~= tops);
    if extruded {
        let mut n: usize = 0;
        assert(indices@ =~= tops + wall_indices_of(ring as nat, 0));
        while n < ring
            invariant
                5 * ring <= u32::MAX,
                n <= ring,
                indices@ == tops + wall_indices_of(ring as nat, n as nat),
            decreases ring - n,
        {
            let base: u32 = (ring + 4 * n) as u32;
            push_quad(&mut indices, base, base + 1, base + 2, base + 3);
            n = n + 1;
            assert(indices@ =~= tops + wall_indices_of(ring as nat, n as nat));
        }
    } else {
        assert(indices@ =~= tops + Seq::<u32>::empty());
    }
    indices
}

/// Where the dashes round a selection meet, in twelfths of its sides: twelve to a side,
/// along the first side, up the second, and back along the others.
pub open spec fn edge_point(i: nat) -> (int, int) {
    if i < 12 {
        (i as int, 0)
    } else if i < 24 {
        (12, i - 12)
    } else if i < 36 {
        (36 - i, 12)
    } else {
        (0, 48 - i)
    }
}

/// The dashes go round the selection without a gap: each is a twelfth of a side long, the
/// next begins where it ends, and the last ends where the first begins.
pub proof fn lemma_edge_goes_round(i: nat)
    requires
        i < 48,
    ensures
        ({
            let a = edge_point(i);
            let b = edge_point(i + 1);
            ||| a.0 == b.0 && (a.1 - b.1 == 1 || b.1 - a.1 == 1)
            ||| a.1 == b.1 && (a.0 - b.0 == 1 || b.0 - a.0 == 1)
        }),
        edge_point(48) == edge_point(0),
{
}

/// The dashes go from the first corner of the selection to the one across by way of the
/// first two sides, and back by way of the others.
pub proof fn lemma_edge_there_and_back(i: nat)
    requires
        i <= 48,
    ensures
        ({
            let (s, t) = edge_point(i);
            &&& i <= 24 ==> s + t == i && s >= t
            &&& i >= 24 ==> s + t == 48 - i && s <= t
        }),
{
}

/// No two dashes begin at the same point, and all lie on the border.
pub proof fn lemma_edge_points_apart(i: nat, j: nat)
    requires
        i < j < 48,
    ensures
        edge_point(i) != edge_point(j),
        ({
            let a = edge_point(i);
            0 <= a.0 <= 12 && 0 <= a.1 <= 12 && (a.0 == 0 || a.0 == 12 || a.1 == 0 || a.1 == 12)
        }),
{
}

/// Where the dashes round a selection meet, in twelfths of its sides.
pub fn selection_edge(i: u32) -> (at: (u32, u32))
    requires
        i <= 48,
    ensures
        at.0 == edge_point(i as nat).0,
        at.1 == edge_point(i as nat).1,
{
    if i < 12 {
        (i, 0)
    } else if i < 24 {
        (12, i - 12)
    } else if i < 36 {
        (36 - i, 12)
    } else {
        (0, 48 - i)
    }
}

/// How many sides a tube has when so many are asked for.
pub open spec fn sides_of(sides: u32) -> u32 {
    if sides < 3 {
        3
    } else if sides > 64 {
        64
    } else {
        sides
    }
}

/// A tube has between three and 64 sides: as many as are asked for, or as near to it as
/// may be.
pub proof fn lemma_sides_as_asked(sides: u32, other: u32)
    requires
        3 <= other <= 64,
    ensures
        3 <= sides_of(sides) <= 64,
        sides <= sides_of(sides) ==> sides_of(sides) - sides <= other - sides || other < sides,
        3 <= sides <= 64 ==> sides_of(sides) == sides,
        sides > 64 ==> sides_of(sides) >= other,
        sides < 3 ==> sides_of(sides) <= other,
{
}

/// How many sides a tube has when so many are asked for.
pub fn tube_sides(sides: u32) -> (clamped: u32)
    ensures
        clamped == sides_of(sides),
{
    if sides < 3 {
        3
    } else if sides > 64 {
        64
    } else {
        sides
    }
}

/// The `k`-th corner of the two triangles between side `s` of ring `i` of a tube and
/// the next side and ring.
pub open spec fn tube_corner(i: int, s: int, sides: int, k: int) -> int {
    let n = (s + 1) % sides;
    if k == 0 || k == 3 {
        i * sides + s
    } else if k == 1 {
        i * sides + n
    } else if k == 2 || k == 4 {
        (i + 1) * sides + n
    } else {
        (i + 1) * sides + s
    }
}

/// The indices between the rings of a tube of `count` rings.
pub open spec fn tube_wall_of(count: nat, sides: nat) -> Seq<u32> {
    Seq::new(
        (6 * ((count - 1) * sides)) as nat,
        |i: int|
            tube_corner(
                i / 6 / sides as int,
                i / 6 % sides as int,
                sides as int,
                i % 6,
            ) as u32,
    )
}

/// The indices of an end of a tube around vertex `center`: that of the first ring
/// turns one way, that of the last the other.
pub open spec fn tube_cap_of(center: int, ring: int, sides: nat, first: bool) -> Seq<u32> {
    Seq::new(
        3 * sides,
        |i: int|
            {
                let s = i / 3;
                let a = ring * sides + s;
                let b = ring * sides + (s + 1) % sides as int;
                if i % 3 == 0 {
                    center as u32
                } else if (i % 3 == 1) == first {
                    b as u32
                } else {
                    a as u32
                }
            },
    )
}

/// The indices of a tube of `count` rings with `sides` vertices each, which are
/// followed by the middles of its two ends.
pub open spec fn tube_indices_of(count: nat, sides: nat) -> Seq<u32> {
    tube_wall_of(count, sides) + tube_cap_of((count * sides) as int, 0, sides, true) + tube_cap_of(
        (count * sides) as int + 1,
        count - 1,
        sides,
        false,
    )
}

proof fn lemma_side_of_ring(i: int, s: int, count: int, sides: int)
    by (nonlinear_arith)
    requires
        0 <= i < count,
        0 <= s < sides,
    ensures
        0 <= i * sides,
        0 <= i * sides + s < count * sides,
{
}

/// Every index of a tube is that of one of its vertices.
pub proof fn lemma_tube_indices_in_tube(count: nat, sides: nat, i: int)
    requires
        count >= 2,
        3 <= sides,
        count * sides + 2 <= u32::MAX,
        0 <= i < tube_indices_of(count, sides).len(),
    ensures
        tube_indices_of(count, sides)[i] < count * sides + 2,
{
    let wall = tube_wall_of(count, sides);
    let first = tube_cap_of((count * sides) as int, 0, sides, true);
    if i < wall.len() {
        let cell = i / 6;
        lemma_cell_split(cell, count - 1, sides as int);
        let r = cell / sides as int;
        let s = cell % sides as int;
        let n = (s + 1) % sides as int;
        lemma_side_of_ring(r, s, count as int, sides as int);
        lemma_side_of_ring(r, n, count as int, sides as int);
        lemma_side_of_ring(r + 1, s, count as int, sides as int);
        lemma_side_of_ring(r + 1, n, count as int, sides as int);
        assert(tube_indices_of(count, sides)[i] == wall[i]);
    } else {
        let j = if i < wall.len() + first.len() {
            i - wall.len()
        } else {
            i - wall.len() - first.len()
        };
        let s = j / 3;
        lemma_side_of_ring(0, s, count as int, sides as int);
        lemma_side_of_ring(0, (s + 1) % sides as int, count as int, sides as int);
        lemma_side_of_ring(count - 1, s, count as int, sides as int);
        lemma_side_of_ring(count - 1, (s + 1) % sides as int, count as int, sides as int);
    }
}

proof fn lemma_side_after(s: int, sides: int)
    requires
        0 <= s < sides,
    ensures
        (s + 1) % sides == side_after(s, sides),
{
    if s + 1 < sides {
        vstd::arithmetic::div_mod::lemma_small_mod((s + 1) as nat, sides as nat);
    } else {
        vstd::arithmetic::div_mod::lemma_mod_self_0(sides);
    }
}

/// The side after the last is the first.
pub open spec fn side_after(s: int, sides: int) -> int {
    if s + 1 == sides {
        0
    } else {
        s + 1
    }
}

/// The wall of a tube has no gap: between each side of each ring and the same side of
/// the next ring there are two triangles, which reach to the side after it. After the
/// last side comes the first again.
pub proof fn lemma_tube_wall_closed(count: nat, sides: nat, i: int, s: int)
    requires
        count >= 2,
        3 <= sides,
        count * sides + 2 <= u32::MAX,
        0 <= i,
        i + 1 < count,
        0 <= s < sides,
    ensures
        tube_indices_of(count, sides).len() == 6 * ((count - 1) * sides) + 6 * sides,
        ({
            let indices = tube_indices_of(count, sides);
            let n = 6 * (i * sides + s);
            let here = i * sides;
            let there = (i + 1) * sides;
            let t = side_after(s, sides as int);
            &&& n + 6 <= 6 * ((count - 1) * sides)
            &&& indices[n] == here + s
            &&& indices[n + 1] == here + t
            &&& indices[n + 2] == there + t
            &&& indices[n + 3] == here + s
            &&& indices[n + 4] == there + t
            &&& indices[n + 5] == there + s
        }),
{
    let indices = tube_indices_of(count, sides);
    let wall = tube_wall_of(count, sides);
    let cell = i * sides + s;
    let t = side_after(s, sides as int);
    lemma_side_after(s, sides as int);
    lemma_side_of_ring(i as int, s as int, count - 1, sides as int);
    vstd::arithmetic::mul::lemma_mul_is_commutative(count - 1, sides as int);
    vstd::arithmetic::div_mod::lemma_fundamental_div_mod_converse(
        cell,
        sides as int,
        i,
        s,
    );
    lemma_side_of_ring(i as int, s as int, count as int, sides as int);
    lemma_side_of_ring(i as int, t as int, count as int, sides as int);
    lemma_side_of_ring(i + 1, s as int, count as int, sides as int);
    lemma_side_of_ring(i + 1, t as int, count as int, sides as int);
    assert(wall.len() == 6 * ((count - 1) * sides));
    assert forall|k: int| 0 <= k < 6 implies #[trigger] indices[6 * cell + k] == tube_corner(
        i as int,
        s as int,
        sides as int,
        k,
    ) by {
        assert((6 * cell + k) / 6 == cell);
        assert((6 * cell + k) % 6 == k);
        assert(indices[6 * cell + k] == wall[6 * cell + k]);
    }
    assert(indices[6 * cell + 0] == tube_corner(i as int, s as int, sides as int, 0));
    assert(indices[6 * cell + 1] == tube_corner(i as int, s as int, sides as int, 1));
    assert(indices[6 * cell + 2] == tube_corner(i as int, s as int, sides as int, 2));
    assert(indices[6 * cell + 3] == tube_corner(i as int, s as int, sides as int, 3));
    assert(indices[6 * cell + 4] == tube_corner(i as int, s as int, sides as int, 4));
    assert(indices[6 * cell + 5] == tube_corner(i as int, s as int, sides as int, 5));
}

/// Both ends of a tube are closed: a triangle goes from the middle of the end to each
/// side and the one after it, round the first ring one way and round the last ring the
/// other.
pub proof fn lemma_tube_ends_closed(count: nat, sides: nat, s: int)
    requires
        count >= 2,
        3 <= sides,
        count * sides + 2 <= u32::MAX,
        0 <= s < sides,
    ensures
        ({
            let indices = tube_indices_of(count, sides);
            let first = 6 * ((count - 1) * sides) + 3 * s;
            let last = first + 3 * sides;
            let ring = (count - 1) * sides;
            let t = side_after(s, sides as int);
            &&& indices[first] == count * sides
            &&& indices[first + 1] == t
            &&& indices[first + 2] == s
            &&& indices[last] == count * sides + 1
            &&& indices[last + 1] == ring + s
            &&& indices[last + 2] == ring + t
        }),
{
    let indices = tube_indices_of(count, sides);
    let wall = tube_wall_of(count, sides);
    let near = tube_cap_of((count * sides) as int, 0, sides, true);
    let far = tube_cap_of((count * sides) as int + 1, count - 1, sides, false);
    let t = side_after(s, sides as int);
    lemma_side_after(s, sides as int);
    lemma_side_of_ring(0, s as int, count as int, sides as int);
    lemma_side_of_ring(0, t as int, count as int, sides as int);
    lemma_side_of_ring(count - 1, s as int, count as int, sides as int);
    lemma_side_of_ring(count - 1, t as int, count as int, sides as int);
    assert((count - 1) * sides >= 0) by (nonlinear_arith)
        requires
            count >= 2,
            sides >= 3,
    ;
    assert(0 * sides == 0);
    let n = wall.len() as int;
    assert(n == 6 * ((count - 1) * sides));
    assert forall|k: int| 0 <= k < 3 implies #[trigger] indices[n + 3 * s + k] == near[3 * s + k] && (
    3 * s + k) / 3 == s && (3 * s + k) % 3 == k by {}
    assert forall|k: int| 0 <= k < 3 implies #[trigger] indices[n + 3 * sides + 3 * s + k] == far[3 * s
        + k] by {}
    assert(indices[n + 3 * s + 0] == near[3 * s + 0]);
    assert(indices[n + 3 * s + 1] == near[3 * s + 1]);
    assert(indices[n + 3 * s + 2] == near[3 * s + 2]);
    assert(indices[n + 3 * sides + 3 * s + 0] == far[3 * s + 0]);
    assert(indices[n + 3 * sides + 3 * s + 1] == far[3 * s + 1]);
    assert(indices[n + 3 * sides + 3 * s + 2] == far[3 * s + 2]);
}

fn push_tube_cap(out: &mut Vec<u32>, center: u32, ring: u32, count: u32, sides: u32, first: bool)
    requires
        3 <= sides,
        ring < count,
        count * sides <= u32::MAX,
    ensures
        final(out)@ == old(out)@ + tube_cap_of(center as int, ring as int, sides as nat, first),
{
    let ghost before = out@;
    let ghost cap = tube_cap_of(center as int, ring as int, sides as nat, first);
    let mut s: u32 = 0;
    assert(before + cap.take(0) =~= before);
    while s < sides
        invariant
            3 <= sides,
            ring < count,
            count * sides <= u32::MAX,
            s <= sides,
            cap == tube_cap_of(center as int, ring as int, sides as nat, first),
            out@ == before + cap.take(3 * s as int),
        decreases sides - s,
    {
        let n: u32 = if s + 1 == sides {
            0
        } else {
            s + 1
        };
        proof {
            lemma_side_of_ring(ring as int, s as int, count as int, sides as int);
            lemma_side_of_ring(ring as int, n as int, count as int, sides as int);
            if s + 1 < sides {
                vstd::arithmetic::div_mod::lemma_small_mod((s + 1) as nat, sides as nat);
            } else {
                vstd::arithmetic::div_mod::lemma_mod_self_0(sides as int);
            }
            assert((s + 1) % (sides as int) == n);
            assert((3 * s) / 3 == s && (3 * s + 1) / 3 == s && (3 * s + 2) / 3 == s);
        }
        let a: u32 = ring * sides + s;
        let b: u32 = ring * sides + n;
        out.push(center);
        if first {
            out.push(b);
            out.push(a);
        } else {
            out.push(a);
            out.push(b);
        }
        proof {
            let next = before + cap.take(3 * (s + 1));
            assert(cap[3 * s as int] == center);
            assert(cap[3 * s + 1] == (if first {
                b
            } else {
                a
            }));
            assert(cap[3 * s + 2] == (if first {
                a
            } else {
                b
            }));
            assert(out@ =~= next);
        }
        s = s + 1;
    }
    assert(cap.take(3 * s as int) =~= cap);
}

/// The indices of a tube of `count` rings with `sides` vertices each.
pub fn tube_indices(count: u32, sides: u32) -> (indices: Vec<u32>)
    requires
        count >= 2,
        3 <= sides,
        count * sides + 2 <= u32::MAX,
    ensures
        indices@ == tube_indices_of(count as nat, sides as nat),
{
    let ghost wall = tube_wall_of(count as nat, sides as nat);
    let mut indices: Vec<u32> = Vec::new();
    assert((count - 1) * sides <= count * sides && 0 <= (count - 1) * sides) by (nonlinear_arith)
        requires
            count >= 2,
            sides >= 3,
    ;
    let cells: u32 = (count - 1) * sides;
    let mut cell: u32 = 0;
    while cell < cells
        invariant
            cells == (count - 1) * sides,
            count >= 2,
            3 <= sides,
            count * sides + 2 <= u32::MAX,
            cell <= cells,
            wall == tube_wall_of(count as nat, sides as nat),
            wall.len() == 6 * cells,
            indices@ == wall.take(6 * cell as int),
        decreases cells - cell,
    {
        let i: u32 = cell / sides;
        let s: u32 = cell % sides;
        let n: u32 = if s + 1 == sides {
            0
        } else {
            s + 1
        };
        proof {
            lemma_cell_split(cell as int, count - 1, sides as int);
            lemma_side_of_ring(i as int, s as int, count as int, sides as int);
            lemma_side_of_ring(i as int, n as int, count as int, sides as int);
            lemma_side_of_ring(i + 1, s as int, count as int, sides as int);
            lemma_side_of_ring(i + 1, n as int, count as int, sides as int);
            if s + 1 < sides {
                vstd::arithmetic::div_mod::lemma_small_mod((s + 1) as nat, sides as nat);
            } else {
                vstd::arithmetic::div_mod::lemma_mod_self_0(sides as int);
            }
            assert((s + 1) % (sides as int) == n);
        }
        let a: u32 = i * sides + s;
        let b: u32 = i * sides + n;
        let c: u32 = (i + 1) * sides + n;
        let d: u32 = (i + 1) * sides + s;
        push_quad(&mut indices, a, b, c, d);
        proof {
            assert forall|k: int| 0 <= k < 6 implies #[trigger] wall[6 * cell + k] == tube_corner(
                i as int,
                s as int,
                sides as int,
                k,
            ) by {
                assert((6 * cell + k) / 6 == cell);
                assert((6 * cell + k) % 6 == k);
            }
            let next = wall.take(6 * (cell + 1));
            assert forall|j: int| 0 <= j < next.len() implies #[trigger] next[j] == indices@[j] by {
                if j >= 6 * cell {
                    let k = j - 6 * cell;
                    assert(wall[6 * cell + k] == tube_corner(
                        i as int,
                        s as int,
                        sides as int,
                        k,
                    ));
                }
            }
            assert(indices@ =~= next);
        }
        cell = cell + 1;
    }
    assert(wall.take(6 * cell as int) =~= wall);
    let ring_total: u32 = count * sides;
    push_tube_cap(&mut indices, ring_total, 0, count, sides, true);
    push_tube_cap(&mut indices, ring_total + 1, count - 1, count, sides, false);
    indices
}

/// What a batch draws, and how many indices or instances of it.
#[derive(Copy, Clone, PartialEq, Eq, Debug, Structural)]
pub enum BatchKind {
    Polygon { count: u32 },
    Tube { count: u32 },
    Line { count: u32 },
    Icon { count: u32 },
    Dash { count: u32 },
}

/// Something that is drawn at once, with the uniform that says where.
#[derive(Copy, Clone, PartialEq, Eq, Debug, Structural)]
pub struct Batch {
    pub kind: BatchKind,
    pub slot: u32,
    pub vertices: u32,
    pub triangles: u32,
}

/// The batches that are drawn, and the sheet that icons are cut from.
pub struct VectorRenderer {
    pub icon_cols: u32,
    pub icon_rows: u32,
    pub icon_sheet_loaded: bool,
    pub batches: Vec<Batch>,
    pub debug: Option<Batch>,
    pub markers: Vec<Batch>,
    pub selection: Option<(Batch, Batch)>,
    pub next_slot: u32,
}

/// What a renderer holds, by value.
#[verifier::ext_equal]
pub struct VectorView {
    pub icon_cols: u32,
    pub icon_rows: u32,
    pub icon_sheet_loaded: bool,
    pub batches: Seq<Batch>,
    pub debug: Option<Batch>,
    pub markers: Seq<Batch>,
    pub selection: Option<(Batch, Batch)>,
    pub next_slot: u32,
}

impl View for VectorRenderer {
    type V = VectorView;

    open spec fn view(&self) -> VectorView {
        VectorView {
            icon_cols: self.icon_cols,
            icon_rows: self.icon_rows,
            icon_sheet_loaded: self.icon_sheet_loaded,
            batches: self.batches@,
            debug: self.debug,
            markers: self.markers@,
            selection: self.selection,
            next_slot: self.next_slot,
        }
    }
}

/// The uniform that is handed out after `slot`: the first follows the last.
pub open spec fn slot_after(slot: u32) -> u32 {
    ((slot + 1) % SELECT_EDGE_SLOT as int) as u32
}

/// The uniform that is handed out after `n` others from `slot` on.
pub open spec fn slot_after_many(slot: u32, n: nat) -> u32
    decreases n,
{
    if n == 0 {
        slot
    } else {
        slot_after(slot_after_many(slot, (n - 1) as nat))
    }
}

/// As many batches as there are uniforms for them get one each.
pub proof fn lemma_slots_come_round(slot: u32, n: nat)
    requires
        slot < SELECT_EDGE_SLOT,
    ensures
        slot_after_many(slot, n) == (slot + n) % SELECT_EDGE_SLOT as int,
    decreases n,
{
    if n > 0 {
        lemma_slots_come_round(slot, (n - 1) as nat);
    }
}

/// The uniforms of two batches do not overlap, and lie within the buffer.
pub proof fn lemma_uniforms_apart(a: u32, b: u32)
    requires
        a < MAX_BATCHES,
        b < MAX_BATCHES,
        a != b,
    ensures
        a * BATCH_STRIDE + 16 <= BATCH_STRIDE * MAX_BATCHES,
        a * BATCH_STRIDE + 16 <= b * BATCH_STRIDE || b * BATCH_STRIDE + 16 <= a * BATCH_STRIDE,
{
}

/// How something is drawn.
#[derive(Copy, Clone, PartialEq, Eq, Debug, Structural)]
pub enum Pipeline {
    /// Shaded triangles.
    Surface,
    /// Segments of lines.
    Line,
    /// Cells of the sheet.
    Icon,
    /// Triangles over everything else.
    OverlayFill,
    /// Dashed segments over everything else.
    OverlayDash,
}

/// Which batch is meant.
#[derive(Copy, Clone, PartialEq, Eq, Debug, Structural)]
pub enum BatchPlace {
    Shape(usize),
    Marker(usize),
    Debug,
    SelectFill,
    SelectEdge,
}

/// One drawing: which batch, how, where its uniform begins, and how many indices or
/// instances of it.
#[derive(Copy, Clone, PartialEq, Eq, Debug, Structural)]
pub struct Draw {
    pub pipeline: Pipeline,
    pub place: BatchPlace,
    pub offset: u32,
    pub count: u32,
}

/// How many indices or instances of a batch are drawn by a pipeline, where that
/// pipeline draws such batches.
pub open spec fn drawn_by(kind: BatchKind, pipeline: Pipeline) -> Option<u32> {
    match (pipeline, kind) {
        (Pipeline::Surface, BatchKind::Polygon { count }) => Some(count),
        (Pipeline::Surface, BatchKind::Tube { count }) => Some(count),
        (Pipeline::Line, BatchKind::Line { count }) => Some(count),
        (Pipeline::Icon, BatchKind::Icon { count }) => Some(count),
        (Pipeline::OverlayFill, BatchKind::Polygon { count }) => Some(count),
        (Pipeline::OverlayDash, BatchKind::Dash { count }) => Some(count),
        _ => None,
    }
}

/// What a pipeline draws of one batch: nothing, or the whole of it.
pub open spec fn draw_of(batch: Batch, pipeline: Pipeline, place: BatchPlace) -> Seq<Draw> {
    match drawn_by(batch.kind, pipeline) {
        Some(count) => seq![
            Draw { pipeline, place, offset: (batch.slot * BATCH_STRIDE) as u32, count },
        ],
        None => Seq::empty(),
    }
}

/// The place of a batch in the list of the shapes or in that of the markers.
pub open spec fn place_of(marker: bool, index: usize) -> BatchPlace {
    if marker {
        BatchPlace::Marker(index)
    } else {
        BatchPlace::Shape(index)
    }
}

/// What a pipeline draws of the first `n` batches of a list, in their order.
pub open spec fn draws_of(
    batches: Seq<Batch>,
    pipeline: Pipeline,
    marker: bool,
    n: nat,
) -> Seq<Draw>
    decreases n,
{
    if n == 0 {
        Seq::empty()
    } else {
        draws_of(batches, pipeline, marker, (n - 1) as nat) + draw_of(
            batches[n - 1],
            pipeline,
            place_of(marker, (n - 1) as usize),
        )
    }
}

impl VectorView {
    /// Whether every batch has a uniform of its kind: those of the shapes and the
    /// markers are not those of the debug lines or the selection.
    pub open spec fn wf(self) -> bool {
        &&& self.icon_cols > 0
        &&& self.icon_rows > 0
        &&& self.next_slot < SELECT_EDGE_SLOT
        &&& forall|i: int|
            0 <= i < self.batches.len() ==> (#[trigger] self.batches[i]).slot < SELECT_EDGE_SLOT
        &&& forall|i: int|
            0 <= i < self.markers.len() ==> (#[trigger] self.markers[i]).slot < SELECT_EDGE_SLOT
        &&& self.debug matches Some(b) ==> b.slot == DEBUG_SLOT
        &&& self.selection matches Some(s) ==> s.0.slot == SELECT_FILL_SLOT && s.1.slot
            == SELECT_EDGE_SLOT
    }

    /// What is drawn in a frame, in order: surfaces and then markers, lines and then
    /// debug lines, icons, and over all of these the selection.
    pub open spec fn draws(self) -> Seq<Draw> {
        draws_of(self.batches, Pipeline::Surface, false, self.batches.len()) + draws_of(
            self.markers,
            Pipeline::Surface,
            true,
            self.markers.len(),
        ) + draws_of(self.batches, Pipeline::Line, false, self.batches.len()) + (match self.debug {
            Some(b) => draw_of(b, Pipeline::Line, BatchPlace::Debug),
            None => Seq::empty(),
        }) + draws_of(self.batches, Pipeline::Icon, false, self.batches.len()) + (
        match self.selection {
            Some(s) => draw_of(s.0, Pipeline::OverlayFill, BatchPlace::SelectFill) + draw_of(
                s.1,
                Pipeline::OverlayDash,
                BatchPlace::SelectEdge,
            ),
            None => Seq::empty(),
        })
    }
}

/// Where the uniform of a slot begins.
pub fn uniform_offset(slot: u32) -> (offset: u32)
    requires
        slot < MAX_BATCHES,
    ensures
        offset == slot * BATCH_STRIDE,
{
    slot * 256
}

/// How many indices or instances of a batch a pipeline draws, where it draws it.
fn drawn_count(kind: &BatchKind, pipeline: Pipeline) -> (count: Option<u32>)
    ensures
        count == drawn_by(*kind, pipeline),
{
    match (pipeline, kind) {
        (Pipeline::Surface, BatchKind::Polygon { count }) => Some(*count),
        (Pipeline::Surface, BatchKind::Tube { count }) => Some(*count),
        (Pipeline::Line, BatchKind::Line { count }) => Some(*count),
        (Pipeline::Icon, BatchKind::Icon { count }) => Some(*count),
        (Pipeline::OverlayFill, BatchKind::Polygon { count }) => Some(*count),
        (Pipeline::OverlayDash, BatchKind::Dash { count }) => Some(*count),
        _ => None,
    }
}

/// Appends what a pipeline draws of one batch.
fn push_draw(batch: &Batch, pipeline: Pipeline, place: BatchPlace, out: &mut Vec<Draw>)
    requires
        batch.slot < MAX_BATCHES,
    ensures
        final(out)@ == old(out)@ + draw_of(*batch, pipeline, place),
{
    match drawn_count(&batch.kind, pipeline) {
        Some(count) => {
            let offset: u32 = uniform_offset(batch.slot);
            out.push(Draw { pipeline, place, offset, count });
        },
        None => {},
    }
    assert(out@ =~= old(out)@ + draw_of(*batch, pipeline, place));
}

/// Appends what a pipeline draws of a list of batches.
fn push_draws(batches: &Vec<Batch>, pipeline: Pipeline, marker: bool, out: &mut Vec<Draw>)
    requires
        forall|i: int| 0 <= i < batches@.len() ==> (#[trigger] batches@[i]).slot < MAX_BATCHES,
    ensures
        final(out)@ == old(out)@ + draws_of(batches@, pipeline, marker, batches@.len()),
{
    let mut i: usize = 0;
    while i < batches.len()
        invariant
            i <= batches@.len(),
            forall|j: int| 0 <= j < batches@.len() ==> (#[trigger] batches@[j]).slot < MAX_BATCHES,
            out@ == old(out)@ + draws_of(batches@, pipeline, marker, i as nat),
        decreases batches@.len() - i,
    {
        let place: BatchPlace = if marker {
            BatchPlace::Marker(i)
        } else {
            BatchPlace::Shape(i)
        };
        push_draw(&batches[i], pipeline, place, out);
        i = i + 1;
        assert(out@ =~= old(out)@ + draws_of(batches@, pipeline, marker, i as nat));
    }
}

/// The cell of the sheet that an icon is cut from: its column and row. The first
/// icon follows the last.
pub open spec fn icon_cell_of(icon: u32, cols: u32, rows: u32) -> (int, int) {
    let i = icon as int % (cols * rows);
    (i % cols as int, i / cols as int)
}

/// A batch of `count` instances of two triangles.
pub open spec fn instanced(kind: BatchKind, slot: u32, count: u32) -> Batch {
    Batch { kind, slot, vertices: (count * 6) as u32, triangles: (count * 2) as u32 }
}

/// A batch of triangles between `vertices` vertices.
pub open spec fn indexed(kind: BatchKind, slot: u32, vertices: nat, indices: nat) -> Batch {
    Batch {
        kind,
        slot,
        vertices: vertices as u32,
        triangles: (indices as u32 / 3) as u32,
    }
}

/// How many of the first `n` batches are of a kind.
pub open spec fn count_kind(batches: Seq<Batch>, of: spec_fn(BatchKind) -> bool) -> nat {
    batches.filter(|b: Batch| of(b.kind)).len()
}

/// The sum of something over the batches.
pub open spec fn sum_over(batches: Seq<Batch>, part: spec_fn(Batch) -> u32) -> nat
    decreases batches.len(),
{
    if batches.len() == 0 {
        0
    } else {
        sum_over(batches.drop_last(), part) + part(batches.last()) as nat
    }
}

/// A number, as far as the type counts.
pub open spec fn at_most_u32(n: nat) -> u32 {
    if n <= u32::MAX {
        n as u32
    } else {
        u32::MAX
    }
}

/// A shape that was added: its place among the batches, its uniform and its
/// indices, if it has any.
pub struct Added {
    pub index: usize,
    pub slot: u32,
    pub indices: Vec<u32>,
}

impl VectorRenderer {
    /// A renderer that draws nothing, with a sheet of a single icon.
    pub fn new() -> (renderer: Self)
        ensures
            renderer@.wf(),
            renderer@ == (VectorView {
                icon_cols: 1,
                icon_rows: 1,
                icon_sheet_loaded: false,
                batches: Seq::empty(),
                debug: None,
                markers: Seq::empty(),
                selection: None,
                next_slot: 0,
            }),
    {
        VectorRenderer {
            icon_cols: 1,
            icon_rows: 1,
            icon_sheet_loaded: false,
            batches: Vec::new(),
            debug: None,
            markers: Vec::new(),
            selection: None,
            next_slot: 0,
        }
    }

    /// Cuts icons from a sheet of `cols` times `rows` from now on. Tells whether it
    /// does: a sheet without pixels, or with too few bytes, is left aside.
    pub fn set_icon_sheet(
        &mut self,
        width: u32,
        height: u32,
        bytes: usize,
        cols: u32,
        rows: u32,
    ) -> (taken: bool)
        requires
            old(self)@.wf(),
        ensures
            final(self)@.wf(),
            taken == (width > 0 && height > 0 && bytes >= width * height * 4),
            final(self)@ == (if taken {
                VectorView {
                    icon_cols: if cols > 0 {
                        cols
                    } else {
                        1
                    },
                    icon_rows: if rows > 0 {
                        rows
                    } else {
                        1
                    },
                    icon_sheet_loaded: true,
                    ..old(self)@
                }
            } else {
                old(self)@
            }),
    {
        assert(0 <= width * height <= 0xffff_ffff * 0xffff_ffff) by (nonlinear_arith)
            requires
                width <= 0xffff_ffff,
                height <= 0xffff_ffff,
        ;
        if width == 0 || height == 0 || (bytes as u128) < width as u128 * height as u128 * 4 {
            return false;
        }
        self.icon_cols = if cols > 0 {
            cols
        } else {
            1
        };
        self.icon_rows = if rows > 0 {
            rows
        } else {
            1
        };
        self.icon_sheet_loaded = true;
        true
    }

    /// The column and row of the sheet that an icon is cut from.
    pub fn icon_cell(&self, icon: u32) -> (cell: (u32, u32))
        requires
            self@.wf(),
        ensures
            cell.0 == icon_cell_of(icon, self.icon_cols, self.icon_rows).0,
            cell.1 == icon_cell_of(icon, self.icon_cols, self.icon_rows).1,
            cell.0 < self.icon_cols,
            cell.1 < self.icon_rows,
    {
        let cols: u64 = self.icon_cols as u64;
        let rows: u64 = self.icon_rows as u64;
        assert(0 < cols * rows <= 0xffff_ffff * 0xffff_ffff) by (nonlinear_arith)
            requires
                0 < cols <= 0xffff_ffff,
                0 < rows <= 0xffff_ffff,
        ;
        let cells: u64 = cols * rows;
        let i: u64 = icon as u64 % cells;
        proof {
            vstd::arithmetic::mul::lemma_mul_is_commutative(cols as int, rows as int);
            lemma_cell_split(i as int, rows as int, cols as int);
        }
        ((i % cols) as u32, (i / cols) as u32)
    }

    fn take_slot(&mut self) -> (slot: u32)
        requires
            old(self)@.wf(),
        ensures
            final(self)@.wf(),
            slot == old(self)@.next_slot,
            final(self)@ == (VectorView { next_slot: slot_after(slot), ..old(self)@ }),
    {
        let slot: u32 = self.next_slot;
        self.next_slot = (self.next_slot + 1) % SELECT_EDGE_SLOT;
        slot
    }

    /// How many polygons, tubes, lines and batches of icons there are, and how many
    /// vertices and triangles in all.
    pub fn totals(&self) -> (totals: (u32, u32, u32, u32, u32, u32))
        ensures
            totals.0 == at_most_u32(count_kind(self@.batches, |k: BatchKind| k is Polygon)),
            totals.1 == at_most_u32(count_kind(self@.batches, |k: BatchKind| k is Tube)),
            totals.2 == at_most_u32(count_kind(self@.batches, |k: BatchKind| k is Line)),
            totals.3 == at_most_u32(count_kind(self@.batches, |k: BatchKind| k is Icon)),
            totals.4 == at_most_u32(sum_over(self@.batches, |b: Batch| b.vertices)),
            totals.5 == at_most_u32(sum_over(self@.batches, |b: Batch| b.triangles)),
    {
        let mut polygons: u32 = 0;
        let mut tubes: u32 = 0;
        let mut lines: u32 = 0;
        let mut icons: u32 = 0;
        let mut vertices: u32 = 0;
        let mut triangles: u32 = 0;
        let mut i: usize = 0;
        proof {
            reveal(Seq::filter);
        }
        while i < self.batches.len()
            invariant
                i <= self.batches@.len(),
                polygons == at_most_u32(
                    count_kind(self.batches@.take(i as int), |k: BatchKind| k is Polygon),
                ),
                tubes == at_most_u32(
                    count_kind(self.batches@.take(i as int), |k: BatchKind| k is Tube),
                ),
                lines == at_most_u32(
                    count_kind(self.batches@.take(i as int), |k: BatchKind| k is Line),
                ),
                icons == at_most_u32(
                    count_kind(self.batches@.take(i as int), |k: BatchKind| k is Icon),
                ),
                vertices == at_most_u32(
                    sum_over(self.batches@.take(i as int), |b: Batch| b.vertices),
                ),
                triangles == at_most_u32(
                    sum_over(self.batches@.take(i as int), |b: Batch| b.triangles),
                ),
            decreases self.batches@.len() - i,
        {
            proof {
                reveal(Seq::filter);
                assert(self.batches@.take(i + 1).drop_last() =~= self.batches@.take(i as int));
            }
            let batch: Batch = self.batches[i];
            match batch.kind {
                BatchKind::Polygon { count } => {
                    polygons = polygons.saturating_add(1);
                },
                BatchKind::Tube { count } => {
                    tubes = tubes.saturating_add(1);
                },
                BatchKind::Line { count } => {
                    lines = lines.saturating_add(1);
                },
                BatchKind::Icon { count } => {
                    icons = icons.saturating_add(1);
                },
                BatchKind::Dash { count } => {},
            }
            vertices = vertices.saturating_add(batch.vertices);
            triangles = triangles.saturating_add(batch.triangles);
            i = i + 1;
        }
        assert(self.batches@.take(i as int) =~= self.batches@);
        (polygons, tubes, lines, icons, vertices, triangles)
    }

    /// Draws a selection from now on, and gives the indices of its inside.
    pub fn set_selection(&mut self) -> (indices: Vec<u32>)
        requires
            old(self)@.wf(),
        ensures
            final(self)@.wf(),
            indices@ == grid_indices_of(SELECT_GRID as nat, SELECT_GRID as nat),
            final(self)@ == (VectorView {
                selection: Some(
                    (
                        indexed(
                            BatchKind::Polygon { count: 1536 },
                            SELECT_FILL_SLOT,
                            289,
                            1536,
                        ),
                        instanced(BatchKind::Dash { count: 48 }, SELECT_EDGE_SLOT, 48),
                    ),
                ),
                ..old(self)@
            }),
    {
        let indices: Vec<u32> = grid_indices(SELECT_GRID, SELECT_GRID);
        let fill = Batch {
            kind: BatchKind::Polygon { count: 1536 },
            slot: SELECT_FILL_SLOT,
            vertices: 289,
            triangles: 512,
        };
        let edge = Batch {
            kind: BatchKind::Dash { count: 4 * SELECT_EDGE_STEPS },
            slot: SELECT_EDGE_SLOT,
            vertices: 24 * SELECT_EDGE_STEPS,
            triangles: 8 * SELECT_EDGE_STEPS,
        };
        self.selection = Some((fill, edge));
        indices
    }

    pub fn clear_selection(&mut self)
        requires
            old(self)@.wf(),
        ensures
            final(self)@.wf(),
            final(self)@ == (VectorView { selection: None, ..old(self)@ }),
    {
        self.selection = None;
    }

    /// Adds a marker: tells its place among the markers, its uniform and its
    /// indices.
    pub fn add_marker(&mut self) -> (added: Added)
        requires
            old(self)@.wf(),
        ensures
            final(self)@.wf(),
            added.index == old(self)@.markers.len(),
            added.slot == old(self)@.next_slot,
            added.indices@ == grid_indices_of(MARKER_RINGS as nat, MARKER_SEGMENTS as nat),
            final(self)@ == (VectorView {
                next_slot: slot_after(old(self)@.next_slot),
                markers: old(self)@.markers.push(
                    indexed(
                        BatchKind::Polygon { count: 1440 },
                        old(self)@.next_slot,
                        273,
                        1440,
                    ),
                ),
                ..old(self)@
            }),
    {
        let slot: u32 = self.take_slot();
        let indices: Vec<u32> = grid_indices(MARKER_RINGS, MARKER_SEGMENTS);
        let index: usize = self.markers.len();
        self.markers.push(
            Batch { kind: BatchKind::Polygon { count: 1440 }, slot, vertices: 273, triangles: 480 },
        );
        Added { index, slot, indices }
    }

    /// The uniform of a marker that is to be drawn anew, if there is that marker.
    pub fn set_marker(&self, index: usize) -> (slot: Option<u32>)
        ensures
            slot == (if index < self@.markers.len() {
                Some(self@.markers[index as int].slot)
            } else {
                None
            }),
    {
        if index < self.markers.len() {
            Some(self.markers[index].slot)
        } else {
            None
        }
    }

    pub fn clear_markers(&mut self)
        requires
            old(self)@.wf(),
        ensures
            final(self)@.wf(),
            final(self)@ == (VectorView { markers: Seq::empty(), ..old(self)@ }),
    {
        self.markers = Vec::new();
    }

    /// Draws `count` debug lines from now on: none at all where there are none.
    pub fn set_debug_lines(&mut self, count: u32)
        requires
            old(self)@.wf(),
            count * 6 <= u32::MAX,
        ensures
            final(self)@.wf(),
            final(self)@ == (VectorView {
                debug: if count == 0 {
                    None
                } else {
                    Some(instanced(BatchKind::Line { count }, DEBUG_SLOT, count))
                },
                ..old(self)@
            }),
    {
        if count == 0 {
            self.debug = None;
            return;
        }
        self.debug = Some(
            Batch {
                kind: BatchKind::Line { count },
                slot: DEBUG_SLOT,
                vertices: count * 6,
                triangles: count * 2,
            },
        );
    }

    pub fn clear_debug_lines(&mut self)
        requires
            old(self)@.wf(),
        ensures
            final(self)@.wf(),
            final(self)@ == (VectorView { debug: None, ..old(self)@ }),
    {
        self.debug = None;
    }

    /// Draws no shapes any more. Their uniforms are handed out from the first again.
    pub fn clear(&mut self)
        requires
            old(self)@.wf(),
        ensures
            final(self)@.wf(),
            final(self)@ == (VectorView { batches: Seq::empty(), next_slot: 0, ..old(self)@ }),
    {
        self.batches = Vec::new();
        self.next_slot = 0;
    }

    fn push_batch(&mut self, kind: BatchKind, vertices: u32, triangles: u32) -> (place: (
        usize,
        u32,
    ))
        requires
            old(self)@.wf(),
        ensures
            final(self)@.wf(),
            place.0 == old(self)@.batches.len(),
            place.1 == old(self)@.next_slot,
            final(self)@ == (VectorView {
                next_slot: slot_after(old(self)@.next_slot),
                batches: old(self)@.batches.push(
                    Batch { kind, slot: old(self)@.next_slot, vertices, triangles },
                ),
                ..old(self)@
            }),
    {
        let slot: u32 = self.take_slot();
        let index: usize = self.batches.len();
        self.batches.push(Batch { kind, slot, vertices, triangles });
        (index, slot)
    }

    /// Adds a polygon with `ring` corners, whose top is made of the triangles `top`:
    /// none where it has less than three corners or its top could not be made.
    pub fn add_polygon(&mut self, ring: usize, top: Option<&Vec<usize>>, extruded: bool) -> (added:
        Option<Added>)
        requires
            old(self)@.wf(),
            polygon_vertices(ring as nat, extruded) <= u32::MAX,
        ensures
            final(self)@.wf(),
            added is Some <==> ring >= 3 && top is Some,
            match added {
                Some(a) => {
                    let indices = polygon_indices_of(ring as nat, top->0@, extruded);
                    &&& a.index == old(self)@.batches.len()
                    &&& a.slot == old(self)@.next_slot
                    &&& a.indices@ == indices
                    &&& final(self)@ == (VectorView {
                        next_slot: slot_after(old(self)@.next_slot),
                        batches: old(self)@.batches.push(
                            indexed(
                                BatchKind::Polygon { count: indices.len() as u32 },
                                a.slot,
                                polygon_vertices(ring as nat, extruded),
                                indices.len(),
                            ),
                        ),
                        ..old(self)@
                    })
                },
                None => final(self)@ == old(self)@,
            },
    {
        if ring < 3 {
            return None;
        }
        match top {
            Some(top) => {
                let indices: Vec<u32> = polygon_indices(ring, top, extruded);
                let vertices: u32 = if extruded {
                    5 * ring as u32
                } else {
                    ring as u32
                };
                let count: u32 = indices.len() as u32;
                let (index, slot) = self.push_batch(
                    BatchKind::Polygon { count },
                    vertices,
                    count / 3,
                );
                Some(Added { index, slot, indices })
            },
            None => None,
        }
    }

    /// Adds a tube along `count` points: none where there are less than two, or its
    /// radius is none.
    pub fn add_tube(&mut self, count: usize, thick: bool, sides: u32) -> (added: Option<Added>)
        requires
            old(self)@.wf(),
            thick ==> count * sides_of(sides) + 2 <= u32::MAX,
        ensures
            final(self)@.wf(),
            added is Some <==> count >= 2 && thick,
            match added {
                Some(a) => {
                    let around = sides_of(sides);
                    let indices = tube_indices_of(count as nat, around as nat);
                    &&& a.index == old(self)@.batches.len()
                    &&& a.slot == old(self)@.next_slot
                    &&& a.indices@ == indices
                    &&& final(self)@ == (VectorView {
                        next_slot: slot_after(old(self)@.next_slot),
                        batches: old(self)@.batches.push(
                            indexed(
                                BatchKind::Tube { count: indices.len() as u32 },
                                a.slot,
                                (count * around + 2) as nat,
                                indices.len(),
                            ),
                        ),
                        ..old(self)@
                    })
                },
                None => final(self)@ == old(self)@,
            },
    {
        if count < 2 || !thick {
            return None;
        }
        let around: u32 = tube_sides(sides);
        assert(count <= count * around) by (nonlinear_arith)
            requires
                around >= 1,
        ;
        let indices: Vec<u32> = tube_indices(count as u32, around);
        let vertices: u32 = count as u32 * around + 2;
        let total: u32 = indices.len() as u32;
        let (index, slot) = self.push_batch(BatchKind::Tube { count: total }, vertices, total / 3);
        Some(Added { index, slot, indices })
    }

    /// Adds a line along `count` points: none where there are less than two.
    pub fn add_line(&mut self, count: usize) -> (added: Option<(usize, u32)>)
        requires
            old(self)@.wf(),
            6 * count <= u32::MAX,
        ensures
            final(self)@.wf(),
            added == (if count >= 2 {
                Some((old(self).batches.len(), old(self)@.next_slot))
            } else {
                None
            }),
            final(self)@ == (if count >= 2 {
                let segments = (count - 1) as u32;
                VectorView {
                    next_slot: slot_after(old(self)@.next_slot),
                    batches: old(self)@.batches.push(
                        instanced(
                            BatchKind::Line { count: segments },
                            old(self)@.next_slot,
                            segments,
                        ),
                    ),
                    ..old(self)@
                }
            } else {
                old(self)@
            }),
    {
        if count < 2 {
            return None;
        }
        let segments: u32 = (count - 1) as u32;
        Some(self.push_batch(BatchKind::Line { count: segments }, segments * 6, segments * 2))
    }

    /// Adds icons at `count` points: none where there are none. Tells also the cell
    /// of the sheet that they are cut from.
    pub fn add_icons(&mut self, count: usize, icon: u32) -> (added: Option<(usize, u32, (u32, u32))>)
        requires
            old(self)@.wf(),
            6 * count <= u32::MAX,
        ensures
            final(self)@.wf(),
            added is Some <==> count > 0,
            added matches Some(a) ==> {
                &&& a.0 == old(self)@.batches.len()
                &&& a.1 == old(self)@.next_slot
                &&& a.2.0 == icon_cell_of(icon, old(self).icon_cols, old(self).icon_rows).0
                &&& a.2.1 == icon_cell_of(icon, old(self).icon_cols, old(self).icon_rows).1
            },
            final(self)@ == (if count > 0 {
                VectorView {
                    next_slot: slot_after(old(self)@.next_slot),
                    batches: old(self)@.batches.push(
                        instanced(
                            BatchKind::Icon { count: count as u32 },
                            old(self)@.next_slot,
                            count as u32,
                        ),
                    ),
                    ..old(self)@
                }
            } else {
                old(self)@
            }),
    {
        if count == 0 {
            return None;
        }
        let cell: (u32, u32) = self.icon_cell(icon);
        let n: u32 = count as u32;
        let (index, slot) = self.push_batch(BatchKind::Icon { count: n }, n * 6, n * 2);
        Some((index, slot, cell))
    }

    /// What is drawn in a frame, in order.
    pub fn draw(&self) -> (draws: Vec<Draw>)
        requires
            self@.wf(),
        ensures
            draws@ == self@.draws(),
    {
        let mut draws: Vec<Draw> = Vec::new();
        push_draws(&self.batches, Pipeline::Surface, false, &mut draws);
        push_draws(&self.markers, Pipeline::Surface, true, &mut draws);
        push_draws(&self.batches, Pipeline::Line, false, &mut draws);
        match &self.debug {
            Some(batch) => push_draw(batch, Pipeline::Line, BatchPlace::Debug, &mut draws),
            None => {},
        }
        push_draws(&self.batches, Pipeline::Icon, false, &mut draws);
        match &self.selection {
            Some((fill, edge)) => {
                push_draw(fill, Pipeline::OverlayFill, BatchPlace::SelectFill, &mut draws);
                push_draw(edge, Pipeline::OverlayDash, BatchPlace::SelectEdge, &mut draws);
            },
            None => {},
        }
        assert(draws@ =~= self@.draws());
        draws
    }
}

/// Nothing is drawn of a renderer that holds nothing.
pub proof fn lemma_empty_draws_nothing(view: VectorView)
    requires
        view.batches.len() == 0,
        view.markers.len() == 0,
        view.debug is None,
        view.selection is None,
    ensures
        view.draws() =~= Seq::<Draw>::empty(),
{
}

/// How often a batch is drawn in a list.
pub open spec fn times_drawn(draws: Seq<Draw>, place: BatchPlace) -> nat
    decreases draws.len(),
{
    if draws.len() == 0 {
        0
    } else {
        times_drawn(draws.drop_last(), place) + (if draws.last().place == place {
            1nat
        } else {
            0
        })
    }
}

/// A place is drawn as often in two lists together as in each.
proof fn lemma_times_drawn_joined(a: Seq<Draw>, b: Seq<Draw>, place: BatchPlace)
    ensures
        times_drawn(a + b, place) == times_drawn(a, place) + times_drawn(b, place),
    decreases b.len(),
{
    if b.len() == 0 {
        assert(a + b =~= a);
    } else {
        assert((a + b).drop_last() =~= a + b.drop_last());
        lemma_times_drawn_joined(a, b.drop_last(), place);
    }
}

/// A pipeline draws a batch once at its own place, or not at all.
proof fn lemma_times_draw_of(batch: Batch, pipeline: Pipeline, at: BatchPlace, place: BatchPlace)
    ensures
        times_drawn(draw_of(batch, pipeline, at), place) == (if at == place && drawn_by(
            batch.kind,
            pipeline,
        ) is Some {
            1nat
        } else {
            0
        }),
{
    let drawn = draw_of(batch, pipeline, at);
    if drawn.len() > 0 {
        assert(drawn.drop_last() =~= Seq::<Draw>::empty());
        assert(times_drawn(drawn.drop_last(), place) == 0);
        assert(drawn.last().place == at);
    }
}

/// A pipeline draws each batch of a list once, if it draws such batches, and draws
/// nothing that stands elsewhere.
proof fn lemma_times_draws_of(
    batches: Seq<Batch>,
    pipeline: Pipeline,
    marker: bool,
    n: nat,
    place: BatchPlace,
)
    requires
        n <= batches.len() <= usize::MAX,
    ensures
        forall|i: usize|
            place == #[trigger] place_of(marker, i) ==> times_drawn(
                draws_of(batches, pipeline, marker, n),
                place,
            ) == (if i < n && drawn_by(batches[i as int].kind, pipeline) is Some {
                1nat
            } else {
                0
            }),
        (forall|i: usize| place != #[trigger] place_of(marker, i)) ==> times_drawn(
            draws_of(batches, pipeline, marker, n),
            place,
        ) == 0,
    decreases n,
{
    if n > 0 {
        let last = (n - 1) as usize;
        lemma_times_draws_of(batches, pipeline, marker, (n - 1) as nat, place);
        lemma_times_drawn_joined(
            draws_of(batches, pipeline, marker, (n - 1) as nat),
            draw_of(batches[n - 1], pipeline, place_of(marker, last)),
            place,
        );
        lemma_times_draw_of(batches[n - 1], pipeline, place_of(marker, last), place);
    }
}

/// How often a place is drawn in a frame is the sum over the parts of the frame.
proof fn lemma_times_drawn_in_frame(view: VectorView, place: BatchPlace)
    ensures
        times_drawn(view.draws(), place) == times_drawn(
            draws_of(view.batches, Pipeline::Surface, false, view.batches.len()),
            place,
        ) + times_drawn(
            draws_of(view.markers, Pipeline::Surface, true, view.markers.len()),
            place,
        ) + times_drawn(
            draws_of(view.batches, Pipeline::Line, false, view.batches.len()),
            place,
        ) + (match view.debug {
            Some(b) => times_drawn(draw_of(b, Pipeline::Line, BatchPlace::Debug), place),
            None => 0,
        }) + times_drawn(
            draws_of(view.batches, Pipeline::Icon, false, view.batches.len()),
            place,
        ) + (match view.selection {
            Some(s) => times_drawn(
                draw_of(s.0, Pipeline::OverlayFill, BatchPlace::SelectFill),
                place,
            ) + times_drawn(draw_of(s.1, Pipeline::OverlayDash, BatchPlace::SelectEdge), place),
            None => 0,
        }),
{
    let a = draws_of(view.batches, Pipeline::Surface, false, view.batches.len());
    let b = draws_of(view.markers, Pipeline::Surface, true, view.markers.len());
    let c = draws_of(view.batches, Pipeline::Line, false, view.batches.len());
    let d = match view.debug {
        Some(b) => draw_of(b, Pipeline::Line, BatchPlace::Debug),
        None => Seq::empty(),
    };
    let e = draws_of(view.batches, Pipeline::Icon, false, view.batches.len());
    let f = match view.selection {
        Some(s) => draw_of(s.0, Pipeline::OverlayFill, BatchPlace::SelectFill) + draw_of(
            s.1,
            Pipeline::OverlayDash,
            BatchPlace::SelectEdge,
        ),
        None => Seq::empty(),
    };
    lemma_times_drawn_joined(a, b, place);
    lemma_times_drawn_joined(a + b, c, place);
    lemma_times_drawn_joined(a + b + c, d, place);
    lemma_times_drawn_joined(a + b + c + d, e, place);
    lemma_times_drawn_joined(a + b + c + d + e, f, place);
    match view.selection {
        Some(s) => lemma_times_drawn_joined(
            draw_of(s.0, Pipeline::OverlayFill, BatchPlace::SelectFill),
            draw_of(s.1, Pipeline::OverlayDash, BatchPlace::SelectEdge),
            place,
        ),
        None => {},
    }
}

/// Every shape is drawn once in a frame: polygons and tubes as surfaces, lines as
/// lines, icons as icons.
pub proof fn lemma_shape_drawn_once(view: VectorView, i: usize)
    requires
        view.batches.len() <= usize::MAX,
        view.markers.len() <= usize::MAX,
        i < view.batches.len(),
        view.batches[i as int].kind !is Dash,
    ensures
        times_drawn(view.draws(), BatchPlace::Shape(i)) == 1,
{
    let place = place_of(false, i);
    lemma_times_drawn_in_frame(view, place);
    lemma_times_draws_of(view.batches, Pipeline::Surface, false, view.batches.len(), place);
    lemma_times_draws_of(view.markers, Pipeline::Surface, true, view.markers.len(), place);
    lemma_times_draws_of(view.batches, Pipeline::Line, false, view.batches.len(), place);
    lemma_times_draws_of(view.batches, Pipeline::Icon, false, view.batches.len(), place);
    lemma_times_not_elsewhere(view, place);
}

/// Every marker is drawn once in a frame.
pub proof fn lemma_marker_drawn_once(view: VectorView, i: usize)
    requires
        view.batches.len() <= usize::MAX,
        view.markers.len() <= usize::MAX,
        i < view.markers.len(),
        view.markers[i as int].kind is Polygon || view.markers[i as int].kind is Tube,
    ensures
        times_drawn(view.draws(), BatchPlace::Marker(i)) == 1,
{
    let place = place_of(true, i);
    lemma_times_drawn_in_frame(view, place);
    lemma_times_draws_of(view.batches, Pipeline::Surface, false, view.batches.len(), place);
    lemma_times_draws_of(view.markers, Pipeline::Surface, true, view.markers.len(), place);
    lemma_times_draws_of(view.batches, Pipeline::Line, false, view.batches.len(), place);
    lemma_times_draws_of(view.batches, Pipeline::Icon, false, view.batches.len(), place);
    lemma_times_not_elsewhere(view, place);
}

/// The debug lines and the selection are drawn at their own places only.
proof fn lemma_times_not_elsewhere(view: VectorView, place: BatchPlace)
    requires
        place is Shape || place is Marker,
    ensures
        view.debug matches Some(b) ==> times_drawn(
            draw_of(b, Pipeline::Line, BatchPlace::Debug),
            place,
        ) == 0,
        view.selection matches Some(s) ==> times_drawn(
            draw_of(s.0, Pipeline::OverlayFill, BatchPlace::SelectFill),
            place,
        ) == 0 && times_drawn(draw_of(s.1, Pipeline::OverlayDash, BatchPlace::SelectEdge), place)
            == 0,
{
    match view.debug {
        Some(b) => lemma_times_draw_of(b, Pipeline::Line, BatchPlace::Debug, place),
        None => {},
    }
    match view.selection {
        Some(s) => {
            lemma_times_draw_of(s.0, Pipeline::OverlayFill, BatchPlace::SelectFill, place);
            lemma_times_draw_of(s.1, Pipeline::OverlayDash, BatchPlace::SelectEdge, place);
        },
        None => {},
    }
}

proof fn lemma_draws_of_right(
    batches: Seq<Batch>,
    pipeline: Pipeline,
    marker: bool,
    n: nat,
    i: int,
) -> (k: int)
    requires
        n <= batches.len() <= usize::MAX,
        0 <= i < draws_of(batches, pipeline, marker, n).len(),
    ensures
        0 <= k < n,
        ({
            let draw = draws_of(batches, pipeline, marker, n)[i];
            &&& draw.pipeline == pipeline
            &&& draw.place == place_of(marker, k as usize)
            &&& draw.offset == (batches[k].slot * BATCH_STRIDE) as u32
            &&& drawn_by(batches[k].kind, pipeline) == Some(draw.count)
        }),
    decreases n,
{
    let m = (n - 1) as nat;
    let before = draws_of(batches, pipeline, marker, m);
    if i < before.len() {
        lemma_draws_of_right(batches, pipeline, marker, m, i)
    } else {
        m as int
    }
}

/// Whether a drawing is of a batch: with its uniform, and all of it, polygons and tubes as
/// surfaces, lines as lines and icons as icons.
pub open spec fn draws_batch(draw: Draw, batch: Batch) -> bool {
    &&& draw.offset == 256 * batch.slot
    &&& match batch.kind {
        BatchKind::Polygon { count } => draw.pipeline == Pipeline::Surface && draw.count == count,
        BatchKind::Tube { count } => draw.pipeline == Pipeline::Surface && draw.count == count,
        BatchKind::Line { count } => draw.pipeline == Pipeline::Line && draw.count == count,
        BatchKind::Icon { count } => draw.pipeline == Pipeline::Icon && draw.count == count,
        BatchKind::Dash { count } => false,
    }
}

/// Whether a drawing is of the batch that it says it is of.
pub open spec fn draw_right(view: VectorView, draw: Draw) -> bool {
    match draw.place {
        BatchPlace::Shape(n) => n < view.batches.len() && draws_batch(draw, view.batches[n as int]),
        BatchPlace::Marker(n) => n < view.markers.len() && draws_batch(
            draw,
            view.markers[n as int],
        ),
        BatchPlace::Debug => view.debug is Some && draws_batch(draw, view.debug->0),
        BatchPlace::SelectFill => {
            &&& view.selection matches Some(pair) && draw.offset == 256 * pair.0.slot
                && pair.0.kind == (BatchKind::Polygon { count: draw.count })
            &&& draw.pipeline == Pipeline::OverlayFill
        },
        BatchPlace::SelectEdge => {
            &&& view.selection matches Some(pair) && draw.offset == 256 * pair.1.slot
                && pair.1.kind == (BatchKind::Dash { count: draw.count })
            &&& draw.pipeline == Pipeline::OverlayDash
        },
    }
}

/// The place of a pipeline among those of a frame: surfaces lie under lines, those under
/// icons, and the selection lies over all.
pub open spec fn layer_of(pipeline: Pipeline) -> int {
    match pipeline {
        Pipeline::Surface => 0,
        Pipeline::Line => 1,
        Pipeline::Icon => 2,
        Pipeline::OverlayFill => 3,
        Pipeline::OverlayDash => 4,
    }
}

proof fn lemma_draw_right(view: VectorView, i: int)
    requires
        view.wf(),
        view.batches.len() <= usize::MAX,
        view.markers.len() <= usize::MAX,
        0 <= i < view.draws().len(),
    ensures
        draw_right(view, view.draws()[i]),
        ({
            let surfaces = draws_of(view.batches, Pipeline::Surface, false, view.batches.len()).len()
                + draws_of(view.markers, Pipeline::Surface, true, view.markers.len()).len();
            let debug = match view.debug {
                Some(b) => draw_of(b, Pipeline::Line, BatchPlace::Debug).len(),
                None => 0,
            };
            let lines = surfaces + draws_of(
                view.batches,
                Pipeline::Line,
                false,
                view.batches.len(),
            ).len() + debug;
            let icons = lines + draws_of(
                view.batches,
                Pipeline::Icon,
                false,
                view.batches.len(),
            ).len();
            let fill = icons + (match view.selection {
                Some(s) => draw_of(s.0, Pipeline::OverlayFill, BatchPlace::SelectFill).len(),
                None => 0,
            });
            layer_of(view.draws()[i].pipeline) == (if i < surfaces {
                0int
            } else if i < lines {
                1
            } else if i < icons {
                2
            } else if i < fill {
                3
            } else {
                4
            })
        }),
{
    let n = view.batches.len();
    let a = draws_of(view.batches, Pipeline::Surface, false, n);
    let b = draws_of(view.markers, Pipeline::Surface, true, view.markers.len());
    let c = draws_of(view.batches, Pipeline::Line, false, n);
    let d = match view.debug {
        Some(b) => draw_of(b, Pipeline::Line, BatchPlace::Debug),
        None => Seq::empty(),
    };
    let e = draws_of(view.batches, Pipeline::Icon, false, n);
    let draw = view.draws()[i];
    let (na, nb, nc, nd, ne) = (
        a.len() as int,
        b.len() as int,
        c.len() as int,
        d.len() as int,
        e.len() as int,
    );
    if i < na {
        assert(draw == a[i]);
        let k = lemma_draws_of_right(view.batches, Pipeline::Surface, false, n, i);
    } else if i < na + nb {
        assert(draw == b[i - na]);
        let k = lemma_draws_of_right(
            view.markers,
            Pipeline::Surface,
            true,
            view.markers.len(),
            i - na,
        );
    } else if i < na + nb + nc {
        assert(draw == c[i - na - nb]);
        let k = lemma_draws_of_right(view.batches, Pipeline::Line, false, n, i - na - nb);
    } else if i < na + nb + nc + nd {
        assert(draw == d[i - na - nb - nc]);
    } else if i < na + nb + nc + nd + ne {
        assert(draw == e[i - na - nb - nc - nd]);
        let k = lemma_draws_of_right(
            view.batches,
            Pipeline::Icon,
            false,
            n,
            i - na - nb - nc - nd,
        );
    } else {
        let pair = view.selection->0;
        let f = draw_of(pair.0, Pipeline::OverlayFill, BatchPlace::SelectFill);
        let g = draw_of(pair.1, Pipeline::OverlayDash, BatchPlace::SelectEdge);
        let k = i - na - nb - nc - nd - ne;
        assert(draw == (f + g)[k]);
    }
}

/// Every drawing of a frame is of the batch that it names: as what that is, with its uniform,
/// and the whole of it. No drawing comes before one that lies under it.
pub proof fn lemma_draws_match_batches(view: VectorView, i: int, j: int)
    requires
        view.wf(),
        view.batches.len() <= usize::MAX,
        view.markers.len() <= usize::MAX,
        0 <= i <= j < view.draws().len(),
    ensures
        draw_right(view, view.draws()[i]),
        layer_of(view.draws()[i].pipeline) <= layer_of(view.draws()[j].pipeline),
{
    lemma_draw_right(view, i);
    lemma_draw_right(view, j);
}

/// An icon is cut from the cell that one comes to by counting row by row, beginning anew after
/// the last.
pub proof fn lemma_cells_counted_by_row(icon: u32, cols: u32, rows: u32)
    requires
        cols > 0,
        rows > 0,
    ensures
        ({
            let (col, row) = icon_cell_of(icon, cols, rows);
            &&& 0 <= col < cols
            &&& row * cols + col == icon as int % (cols * rows)
            &&& icon < cols * rows ==> row * cols + col == icon
        }),
{
    assert(cols * rows > 0) by (nonlinear_arith)
        requires
            cols > 0,
            rows > 0,
    ;
    let i = icon as int % (cols * rows);
    vstd::arithmetic::div_mod::lemma_fundamental_div_mod(i, cols as int);
    vstd::arithmetic::mul::lemma_mul_is_commutative(i / cols as int, cols as int);
    vstd::arithmetic::div_mod::lemma_mod_bound(icon as int, cols * rows);
    if icon < cols * rows {
        vstd::arithmetic::div_mod::lemma_small_mod(icon as nat, (cols * rows) as nat);
    }
}

/// The sum over two lots of batches is that over the one and that over the other, and the sum
/// over a single batch is what it adds.
pub proof fn lemma_sums_add_up(a: Seq<Batch>, b: Seq<Batch>, part: spec_fn(Batch) -> u32)
    ensures
        sum_over(a + b, part) == sum_over(a, part) + sum_over(b, part),
        a.len() == 1 ==> sum_over(a, part) == part(a[0]),
        sum_over(a, part) <= u32::MAX ==> at_most_u32(sum_over(a, part)) == sum_over(a, part),
    decreases b.len(),
{
    if b.len() > 0 {
        assert((a + b).drop_last() =~= a + b.drop_last());
        lemma_sums_add_up(a, b.drop_last(), part);
    } else {
        assert(a + b =~= a);
    }
    if a.len() == 1 {
        reveal_with_fuel(sum_over, 2);
        assert(a.drop_last() =~= Seq::empty());
    }
}

/// An instance counts as six vertices and two triangles, and three indices as a triangle, as
/// far as the counts go.
pub proof fn lemma_batch_sizes(kind: BatchKind, slot: u32, count: u32, vertices: nat, indices: nat)
    ensures
        6 * count <= u32::MAX ==> instanced(kind, slot, count).vertices == 6 * count && instanced(
            kind,
            slot,
            count,
        ).triangles == 2 * count,
        vertices <= u32::MAX ==> indexed(kind, slot, vertices, indices).vertices == vertices,
        indices <= u32::MAX && indices % 3 == 0 ==> 3 * indexed(
            kind,
            slot,
            vertices,
            indices,
        ).triangles == indices,
        instanced(kind, slot, count).kind == kind && instanced(kind, slot, count).slot == slot,
        indexed(kind, slot, vertices, indices).kind == kind,
        indexed(kind, slot, vertices, indices).slot == slot,
{
}

/// A polygon has a vertex for each of its corners, and one that is extruded four more for
/// each of its walls.
pub proof fn lemma_polygon_vertices_counted(ring: nat, extruded: bool)
    ensures
        polygon_vertices(ring, extruded) == ring + (if extruded {
            4 * ring
        } else {
            0
        }),
{
}

/// The batches of a kind in two lots are those in the one and those in the other, and a single
/// batch counts if it is of the kind.
pub proof fn lemma_kinds_add_up(a: Seq<Batch>, b: Seq<Batch>, of: spec_fn(BatchKind) -> bool)
    ensures
        count_kind(a + b, of) == count_kind(a, of) + count_kind(b, of),
        a.len() == 1 ==> count_kind(a, of) == (if of(a[0].kind) {
            1nat
        } else {
            0
        }),
        count_kind(a, of) <= u32::MAX ==> at_most_u32(count_kind(a, of)) == count_kind(a, of),
    decreases b.len(),
{
    reveal(Seq::filter);
    if b.len() > 0 {
        assert((a + b).drop_last() =~= a + b.drop_last());
        assert((a + b).last() == b.last());
        lemma_kinds_add_up(a, b.drop_last(), of);
    } else {
        assert(a + b =~= a);
    }
    if a.len() == 1 {
        assert(a.drop_last() =~= Seq::empty());
        reveal_with_fuel(Seq::filter, 2);
    }
}

} // verus!
