//! Linear indices of three-dimensional boxes of cells.

use vstd::prelude::*;

verus! {

/// The index of cell `(x, y, z)` in a box that is `nx` wide and `ny` high, x fastest.
pub open spec fn index3(x: int, y: int, z: int, nx: int, ny: int) -> int {
    x + y * nx + z * (nx * ny)
}

/// The cell lies in the box of the given sizes.
pub open spec fn in_box(x: int, y: int, z: int, nx: int, ny: int, nz: int) -> bool {
    0 <= x < nx && 0 <= y < ny && 0 <= z < nz
}

/// The x coordinate of the cell with index `i`.
pub open spec fn coord_x(i: int, nx: int) -> int {
    i % nx
}

/// The y coordinate of the cell with index `i`.
pub open spec fn coord_y(i: int, nx: int, ny: int) -> int {
    (i / nx) % ny
}

/// The z coordinate of the cell with index `i`.
pub open spec fn coord_z(i: int, nx: int, ny: int) -> int {
    i / (nx * ny)
}

/// How many blocks of edge `b` cover `s` cells.
pub open spec fn ceil_div(s: int, b: int) -> int {
    (s + b - 1) / b
}

/// The index of a cell of the box is in range, and gives the coordinates back.
pub proof fn lemma_index3(x: int, y: int, z: int, nx: int, ny: int, nz: int)
    requires
        in_box(x, y, z, nx, ny, nz),
    ensures
        0 <= index3(x, y, z, nx, ny) < nx * ny * nz,
        coord_x(index3(x, y, z, nx, ny), nx) == x,
        coord_y(index3(x, y, z, nx, ny), nx, ny) == y,
        coord_z(index3(x, y, z, nx, ny), nx, ny) == z,
        0 <= y * nx,
        0 <= z * (nx * ny),
        0 < nx * ny,
        y * nx + x < nx * ny,
{
    let i = index3(x, y, z, nx, ny);
    let r = y + z * ny;
    assert(i == r * nx + x) by (nonlinear_arith)
        requires
            i == x + y * nx + z * (nx * ny),
            r == y + z * ny,
    ;
    vstd::arithmetic::div_mod::lemma_fundamental_div_mod_converse(i, nx, r, x);
    assert(r == z * ny + y);
    vstd::arithmetic::div_mod::lemma_fundamental_div_mod_converse(r, ny, z, y);
    assert(0 < nx * ny) by (nonlinear_arith)
        requires
            0 < nx,
            0 < ny,
    ;
    assert(0 <= y * nx + x < nx * ny) by (nonlinear_arith)
        requires
            0 <= x < nx,
            0 <= y < ny,
    ;
    assert(0 <= y * nx) by (nonlinear_arith)
        requires
            0 <= y,
            0 < nx,
    ;
    assert(0 <= z * (nx * ny)) by (nonlinear_arith)
        requires
            0 <= z,
            0 < nx * ny,
    ;
    assert(i == z * (nx * ny) + (y * nx + x));
    vstd::arithmetic::div_mod::lemma_fundamental_div_mod_converse(i, nx * ny, z, y * nx + x);
    assert(z * (nx * ny) + nx * ny <= nx * ny * nz) by (nonlinear_arith)
        requires
            z + 1 <= nz,
            0 < nx * ny,
    ;
}

/// The coordinates of an index in range are a cell of the box, and give the index back.
pub proof fn lemma_coords3(i: int, nx: int, ny: int, nz: int)
    requires
        0 <= i < nx * ny * nz,
        0 <= nx,
        0 <= ny,
        0 <= nz,
    ensures
        in_box(coord_x(i, nx), coord_y(i, nx, ny), coord_z(i, nx, ny), nx, ny, nz),
        index3(coord_x(i, nx), coord_y(i, nx, ny), coord_z(i, nx, ny), nx, ny) == i,
        coord_z(i, nx, ny) == (i / nx) / ny,
{
    assert(0 < nx && 0 < ny && 0 < nz) by (nonlinear_arith)
        requires
            0 < nx * ny * nz,
            0 <= nx,
            0 <= ny,
            0 <= nz,
    ;
    let x = i % nx;
    let q = i / nx;
    let y = q % ny;
    let z = q / ny;
    vstd::arithmetic::div_mod::lemma_fundamental_div_mod(i, nx);
    vstd::arithmetic::div_mod::lemma_fundamental_div_mod(q, ny);
    vstd::arithmetic::div_mod::lemma_mod_bound(i, nx);
    vstd::arithmetic::div_mod::lemma_mod_bound(q, ny);
    vstd::arithmetic::div_mod::lemma_div_pos_is_pos(i, nx);
    vstd::arithmetic::div_mod::lemma_div_pos_is_pos(q, ny);
    assert(i == index3(x, y, z, nx, ny)) by (nonlinear_arith)
        requires
            i == nx * q + x,
            q == ny * z + y,
    ;
    assert(z < nz) by (nonlinear_arith)
        requires
            x + y * nx + z * (nx * ny) < nx * ny * nz,
            0 <= x,
            0 <= y,
            0 < nx,
            0 < ny,
    ;
    lemma_index3(x, y, z, nx, ny, nz);
}

/// A box has no negative number of cells.
pub proof fn lemma_coords3_count(nx: int, ny: int, nz: int)
    requires
        0 <= nx,
        0 <= ny,
        0 <= nz,
    ensures
        0 <= nx * ny * nz,
{
    assert(0 <= nx * ny) by (nonlinear_arith)
        requires
            0 <= nx,
            0 <= ny,
    ;
    assert(0 <= nx * ny * nz) by (nonlinear_arith)
        requires
            0 <= nx * ny,
            0 <= nz,
    ;
}

/// Different cells have different indices.
pub proof fn lemma_index3_injective(
    x: int,
    y: int,
    z: int,
    x2: int,
    y2: int,
    z2: int,
    nx: int,
    ny: int,
    nz: int,
)
    requires
        in_box(x, y, z, nx, ny, nz),
        in_box(x2, y2, z2, nx, ny, nz),
        index3(x, y, z, nx, ny) == index3(x2, y2, z2, nx, ny),
    ensures
        x == x2,
        y == y2,
        z == z2,
{
    lemma_index3(x, y, z, nx, ny, nz);
    lemma_index3(x2, y2, z2, nx, ny, nz);
}

/// A cell of a covered axis lies in one of the covering blocks.
pub proof fn lemma_ceil_div(x: int, s: int, b: int)
    requires
        0 <= x < s,
        0 < b,
    ensures
        0 <= x / b < ceil_div(s, b),
        0 <= x % b < b,
        x == b * (x / b) + x % b,
{
    vstd::arithmetic::div_mod::lemma_fundamental_div_mod(x, b);
    vstd::arithmetic::div_mod::lemma_mod_bound(x, b);
    vstd::arithmetic::div_mod::lemma_div_pos_is_pos(x, b);
    vstd::arithmetic::div_mod::lemma_div_is_ordered(x + b, s + b - 1, b);
    vstd::arithmetic::div_mod::lemma_div_plus_one(x, b);
}

/// The number of covering blocks: enough, and none to spare.
pub proof fn lemma_ceil_div_bounds(s: int, b: int)
    requires
        0 <= s,
        0 < b,
    ensures
        0 <= ceil_div(s, b) <= s,
        s <= b * ceil_div(s, b) < s + b,
{
    let q = ceil_div(s, b);
    vstd::arithmetic::div_mod::lemma_fundamental_div_mod(s + b - 1, b);
    vstd::arithmetic::div_mod::lemma_mod_bound(s + b - 1, b);
    vstd::arithmetic::div_mod::lemma_div_pos_is_pos(s + b - 1, b);
    assert(q <= s) by (nonlinear_arith)
        requires
            b * q <= s + b - 1,
            0 < b,
            0 <= s,
    ;
}

/// The block and the offset in it of `b * k + v`.
pub proof fn lemma_block_split(k: int, v: int, b: int)
    requires
        0 <= v < b,
    ensures
        (b * k + v) / b == k,
        (b * k + v) % b == v,
{
    assert(b * k + v == k * b + v) by (nonlinear_arith);
    vstd::arithmetic::div_mod::lemma_fundamental_div_mod_converse(b * k + v, b, k, v);
}

/// Calls `f` for every cell of a cube of edge `b`, x fastest.
pub fn map_cube<R, F: Fn(usize, usize, usize) -> R>(b: usize, f: &F) -> (r: Vec<R>)
    requires
        b * b * b <= usize::MAX,
        forall|x: usize, y: usize, z: usize|
            x < b && y < b && z < b ==> #[trigger] call_requires(*f, (x, y, z)),
    ensures
        r@.len() == b * b * b,
        forall|x: usize, y: usize, z: usize|
            x < b && y < b && z < b ==> call_ensures(
                *f,
                (x, y, z),
                r@[#[trigger] index3(x as int, y as int, z as int, b as int, b as int)],
            ),
{
    let ghost n = b as int;
    proof {
        if b > 0 {
            assert(n * n <= n * n * n) by (nonlinear_arith)
                requires
                    1 <= n,
            ;
        }
    }
    let total: usize = b * b * b;
    let mut r: Vec<R> = Vec::with_capacity(total);
    let mut t: usize = 0;
    while t < total
        invariant
            n == b,
            total == n * n * n,
            t <= total,
            forall|x: usize, y: usize, z: usize|
                x < b && y < b && z < b ==> #[trigger] call_requires(*f, (x, y, z)),
            r@.len() == t,
            forall|i: int|
                0 <= i < t ==> call_ensures(
                    *f,
                    (
                        coord_x(i, n) as usize,
                        coord_y(i, n, n) as usize,
                        coord_z(i, n, n) as usize,
                    ),
                    #[trigger] r@[i],
                ),
        decreases total - t,
    {
        proof {
            lemma_coords3(t as int, n, n, n);
        }
        let x: usize = t % b;
        let y: usize = (t / b) % b;
        let z: usize = (t / b) / b;
        r.push(f(x, y, z));
        t = t + 1;
    }
    proof {
        assert forall|x: usize, y: usize, z: usize| x < b && y < b && z < b implies call_ensures(
            *f,
            (x, y, z),
            r@[#[trigger] index3(x as int, y as int, z as int, b as int, b as int)],
        ) by {
            lemma_index3(x as int, y as int, z as int, n, n, n);
        }
    }
    r
}

/// Cells are numbered x fastest, then y, then z: the first cell has index zero, and a step along x, y
/// or z moves the index by one, by a row of `nx`, or by a slice of `nx * ny`.
pub proof fn law_index_steps(x: int, y: int, z: int, nx: int, ny: int)
    ensures
        index3(0, 0, 0, nx, ny) == 0,
        index3(x + 1, y, z, nx, ny) - index3(x, y, z, nx, ny) == 1,
        index3(x, y + 1, z, nx, ny) - index3(x, y, z, nx, ny) == nx,
        index3(x, y, z + 1, nx, ny) - index3(x, y, z, nx, ny) == nx * ny,
{
    assert((y + 1) * nx - y * nx == nx && (z + 1) * (nx * ny) - z * (nx * ny) == nx * ny)
        by (nonlinear_arith);
}

/// The coordinates of the index of a cell are those of the cell.
pub proof fn law_coords_of_cell(x: int, y: int, z: int, nx: int, ny: int, nz: int)
    requires
        0 <= x < nx,
        0 <= y < ny,
        0 <= z < nz,
    ensures
        0 <= x + nx * y + nx * ny * z < nx * ny * nz,
        index3(x, y, z, nx, ny) == x + nx * y + nx * ny * z,
        coord_x(x + nx * y + nx * ny * z, nx) == x,
        coord_y(x + nx * y + nx * ny * z, nx, ny) == y,
        coord_z(x + nx * y + nx * ny * z, nx, ny) == z,
{
    lemma_index3(x, y, z, nx, ny, nz);
    assert(x + nx * y + nx * ny * z == index3(x, y, z, nx, ny)) by (nonlinear_arith)
        requires
            index3(x, y, z, nx, ny) == x + y * nx + z * (nx * ny),
    ;
}

/// The coordinates of an index are those of a cell, and the index is that of the cell.
pub proof fn law_cell_of_index(i: int, nx: int, ny: int, nz: int)
    requires
        0 < nx,
        0 < ny,
        0 < nz,
        0 <= i < nx * ny * nz,
    ensures
        0 <= coord_x(i, nx) < nx,
        0 <= coord_y(i, nx, ny) < ny,
        0 <= coord_z(i, nx, ny) < nz,
        coord_x(i, nx) + nx * coord_y(i, nx, ny) + nx * ny * coord_z(i, nx, ny) == i,
{
    lemma_coords3(i, nx, ny, nz);
    let (a, b, c) = (coord_x(i, nx), coord_y(i, nx, ny), coord_z(i, nx, ny));
    assert(a + nx * b + nx * ny * c == a + b * nx + c * (nx * ny)) by (nonlinear_arith);
}

/// `ceil_div(s, b)` blocks of edge `b` cover `s` cells, and one less would not.
pub proof fn law_ceil_div_least(s: int, b: int)
    requires
        0 <= s,
        0 < b,
    ensures
        s <= b * ceil_div(s, b),
        0 < s ==> b * (ceil_div(s, b) - 1) < s,
        s == 0 ==> ceil_div(s, b) == 0,
{
    lemma_ceil_div_bounds(s, b);
    let q = ceil_div(s, b);
    assert(b * (q - 1) == b * q - b) by (nonlinear_arith);
}

} // verus!
