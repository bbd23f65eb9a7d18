//! What rendering decides on whole numbers: pixels and their order, slice planes, and the walk of a
//! ray over the block lattice.

use vstd::prelude::*;

verus! {

/// The axis normal to a slice plane.
#[derive(Clone, Copy, Debug, PartialEq, Eq, Structural)]
pub enum SliceAxis {
    X,
    Y,
    Z,
}

/// The point of a slice: the offset along its axis, and `u` and `v` along the other two, in their
/// order.
pub open spec fn slice_at<T>(axis: SliceAxis, u: T, v: T, offset: T) -> (T, T, T) {
    match axis {
        SliceAxis::X => (offset, u, v),
        SliceAxis::Y => (u, offset, v),
        SliceAxis::Z => (u, v, offset),
    }
}

/// The position of pixel `(u, v)` of a slice at plane coordinate `offset`.
pub fn slice_point<T: Copy>(axis: SliceAxis, u: T, v: T, offset: T) -> (r: (T, T, T))
    ensures
        r == slice_at(axis, u, v, offset),
{
    match axis {
        SliceAxis::X => (offset, u, v),
        SliceAxis::Y => (u, offset, v),
        SliceAxis::Z => (u, v, offset),
    }
}

/// The four bytes of pixel `x` in a row.
pub open spec fn pixel_at(row: Seq<u8>, x: int) -> Seq<u8> {
    row.subrange(4 * x, 4 * x + 4)
}

/// The row holds the first `n` pixels of line `y`.
pub open spec fn is_row<F: Fn(usize, usize) -> [u8; 4]>(pixel: &F, y: int, n: int, row: Seq<u8>) -> bool {
    &&& row.len() == 4 * n
    &&& forall|x: int|
        0 <= x < n ==> is_pixel(pixel, x, y, #[trigger] pixel_at(row, x))
}

/// `p` is what `pixel` gives for `(x, y)`.
pub open spec fn is_pixel<F: Fn(usize, usize) -> [u8; 4]>(pixel: &F, x: int, y: int, p: Seq<u8>) -> bool {
    exists|c: [u8; 4]| c@ == p && #[trigger] call_ensures(*pixel, (x as usize, y as usize), c)
}

fn paint_row<F: Fn(usize, usize) -> [u8; 4]>(width: usize, y: usize, pixel: &F) -> (r: Vec<u8>)
    requires
        forall|x: usize| x < width ==> #[trigger] call_requires(*pixel, (x, y)),
    ensures
        is_row(pixel, y as int, width as int, r@),
{
    let mut row: Vec<u8> = Vec::new();
    let mut x: usize = 0;
    while x < width
        invariant
            x <= width,
            forall|x: usize| x < width ==> #[trigger] call_requires(*pixel, (x, y)),
            is_row(pixel, y as int, x as int, row@),
        decreases width - x,
    {
        let ghost before = row@;
        let c: [u8; 4] = pixel(x, y);
        row.push(c[0]);
        row.push(c[1]);
        row.push(c[2]);
        row.push(c[3]);
        proof {
            assert(pixel_at(row@, x as int) =~= c@);
            assert(call_ensures(*pixel, ((x as int) as usize, (y as int) as usize), c));
            assert(is_pixel(pixel, x as int, y as int, pixel_at(row@, x as int)));
            assert forall|k: int| 0 <= k < x + 1 implies is_pixel(
                pixel,
                k,
                y as int,
                #[trigger] pixel_at(row@, k),
            ) by {
                if k < x {
                    assert(pixel_at(row@, k) =~= pixel_at(before, k));
                    assert(is_pixel(pixel, k, y as int, pixel_at(before, k)));
                }
            }
        }
        x = x + 1;
    }
    row
}

/// The bytes are those of an image of `width * height` pixels, row by row.
pub open spec fn is_painting<F: Fn(usize, usize) -> [u8; 4]>(
    pixel: &F,
    width: int,
    height: int,
    bytes: Seq<u8>,
) -> bool {
    &&& bytes.len() == 4 * width * height
    &&& forall|x: int, y: int|
        0 <= x < width && 0 <= y < height ==> is_pixel(
            pixel,
            x,
            y,
            #[trigger] pixel_at(bytes, y * width + x),
        )
}

/// Paints an image of `width * height` pixels of four bytes, row by row, the rows in parallel.
pub fn paint<F: Fn(usize, usize) -> [u8; 4] + Send + Sync>(
    width: usize,
    height: usize,
    pixel: &F,
) -> (r: Vec<u8>)
    requires
        4 * width * height <= usize::MAX,
        forall|x: usize, y: usize| x < width && y < height ==> #[trigger] call_requires(*pixel, (x, y)),
    ensures
        is_painting(pixel, width as int, height as int, r@),
{
    let work = |y: usize| -> (r: Vec<u8>)
        requires
            forall|x: usize| x < width ==> #[trigger] call_requires(*pixel, (x, y)),
        ensures
            is_row(pixel, y as int, width as int, r@),
    { paint_row(width, y, pixel) };
    let rows: Vec<Vec<u8>> = crate::par::map_index(height, work);
    let ghost w = width as int;
    let mut out: Vec<u8> = Vec::new();
    let mut y: usize = 0;
    while y < height
        invariant
            y <= height,
            w == width,
            rows@.len() == height,
            forall|k: usize|
                k < height ==> is_row(pixel, k as int, w, (#[trigger] rows@[k as int])@),
            out@.len() == 4 * (w * y),
            forall|x: int, k: int|
                0 <= x < w && 0 <= k < y ==> is_pixel(
                    pixel,
                    x,
                    k,
                    #[trigger] pixel_at(out@, k * w + x),
                ),
        decreases height - y,
    {
        let ghost before = out@;
        let row: &Vec<u8> = &rows[y];
        let mut i: usize = 0;
        while i < row.len()
            invariant
                i <= row@.len(),
                out@ == before + row@.take(i as int),
            decreases row@.len() - i,
        {
            out.push(row[i]);
            proof {
                assert(row@.take(i + 1) =~= row@.take(i as int).push(row@[i as int]));
                assert(out@ =~= before + row@.take(i + 1));
            }
            i = i + 1;
        }
        proof {
            assert(row@.take(row@.len() as int) =~= row@);
            assert(is_row(pixel, y as int, w, rows@[y as int]@));
            assert(w * (y + 1) == w * y + w) by (nonlinear_arith);
            assert forall|x: int, k: int| 0 <= x < w && 0 <= k < y + 1 implies is_pixel(
                pixel,
                x,
                k,
                #[trigger] pixel_at(out@, k * w + x),
            ) by {
                assert(0 <= k * w) by (nonlinear_arith)
                    requires
                        0 <= k,
                        0 <= w,
                ;
                if k < y {
                    assert(k * w + w <= w * y) by (nonlinear_arith)
                        requires
                            k + 1 <= y,
                            0 <= w,
                    ;
                    assert(pixel_at(out@, k * w + x) =~= pixel_at(before, k * w + x));
                    assert(is_pixel(pixel, x, k, pixel_at(before, k * w + x)));
                } else {
                    assert(k * w == w * y) by (nonlinear_arith)
                        requires
                            k == y,
                    ;
                    assert(pixel_at(out@, k * w + x) =~= pixel_at(row@, x));
                    assert(is_pixel(pixel, x, k, pixel_at(row@, x)));
                }
            }
        }
        y = y + 1;
    }
    proof {
        assert(4 * (w * height) == 4 * w * height) by (nonlinear_arith);
    }
    out
}

/// Where a ray is on the block lattice.
#[derive(Clone, Copy, Debug, PartialEq, Eq, Structural)]
pub struct BlockCursor {
    pub x: i32,
    pub y: i32,
    pub z: i32,
    pub nx: usize,
    pub ny: usize,
    pub nz: usize,
}

/// `v` moved into `[0, n)`.
pub open spec fn clamped(v: int, n: int) -> int {
    if v < 0 {
        0
    } else if v >= n {
        n - 1
    } else {
        v
    }
}

fn clamp_index(v: i32, n: usize) -> (r: i32)
    requires
        1 <= n <= i32::MAX,
    ensures
        r == clamped(v as int, n as int),
{
    if v < 0 {
        0
    } else if v >= n as i32 {
        n as i32 - 1
    } else {
        v
    }
}

impl BlockCursor {
    /// The lattice can be indexed.
    pub open spec fn wf(&self) -> bool {
        &&& 1 <= self.nx <= i32::MAX
        &&& 1 <= self.ny <= i32::MAX
        &&& 1 <= self.nz <= i32::MAX
        &&& self.nx * self.ny <= usize::MAX
        &&& self.nx * self.ny * self.nz <= usize::MAX
    }

    /// The block lies on the lattice.
    pub open spec fn spec_in_bounds(&self) -> bool {
        crate::layout::in_box(
            self.x as int,
            self.y as int,
            self.z as int,
            self.nx as int,
            self.ny as int,
            self.nz as int,
        )
    }

    /// Enters the lattice in the block nearest to `(x, y, z)`.
    pub fn enter(x: i32, y: i32, z: i32, nx: usize, ny: usize, nz: usize) -> (r: Self)
        requires
            1 <= nx <= i32::MAX,
            1 <= ny <= i32::MAX,
            1 <= nz <= i32::MAX,
        ensures
            r.spec_in_bounds(),
            r.x == clamped(x as int, nx as int),
            r.y == clamped(y as int, ny as int),
            r.z == clamped(z as int, nz as int),
            r.nx == nx,
            r.ny == ny,
            r.nz == nz,
    {
        BlockCursor {
            x: clamp_index(x, nx),
            y: clamp_index(y, ny),
            z: clamp_index(z, nz),
            nx,
            ny,
            nz,
        }
    }

    /// Whether the block lies on the lattice.
    pub fn in_bounds(&self) -> (r: bool)
        requires
            self.wf(),
        ensures
            r == self.spec_in_bounds(),
    {
        self.x >= 0 && self.x < self.nx as i32 && self.y >= 0 && self.y < self.ny as i32 && self.z
            >= 0 && self.z < self.nz as i32
    }

    /// The id of the block.
    pub fn bid(&self) -> (r: usize)
        requires
            self.wf(),
            self.spec_in_bounds(),
        ensures
            r == crate::layout::index3(
                self.x as int,
                self.y as int,
                self.z as int,
                self.nx as int,
                self.ny as int,
            ),
            r < self.nx * self.ny * self.nz,
    {
        let (x, y, z): (usize, usize, usize) = (self.x as usize, self.y as usize, self.z as usize);
        proof {
            let (nx, ny, nz) = (self.nx as int, self.ny as int, self.nz as int);
            crate::layout::lemma_index3(x as int, y as int, z as int, nx, ny, nz);
            assert(0 <= y * nx && 0 <= z * (nx * ny)) by (nonlinear_arith)
                requires
                    0 <= y,
                    0 <= z,
                    1 <= nx,
                    1 <= ny,
            ;
        }
        x + y * self.nx + z * (self.nx * self.ny)
    }

    /// `after` is `before`, moved by `step` along `axis`.
    pub open spec fn is_moved(before: Self, after: Self, axis: int, step: int) -> bool {
        &&& after.x == before.x + if axis == 0 { step } else { 0 }
        &&& after.y == before.y + if axis == 1 { step } else { 0 }
        &&& after.z == before.z + if axis == 2 { step } else { 0 }
        &&& after.nx == before.nx
        &&& after.ny == before.ny
        &&& after.nz == before.nz
    }

    /// Moves one block along `axis`, 0 to 2 for x to z.
    pub fn advance(&mut self, axis: usize, step: i32)
        requires
            axis < 3,
            -1 <= step <= 1,
            old(self).wf(),
            old(self).spec_in_bounds(),
        ensures
            final(self).wf(),
            Self::is_moved(*old(self), *final(self), axis as int, step as int),
    {
        if axis == 0 {
            self.x = self.x + step;
        } else if axis == 1 {
            self.y = self.y + step;
        } else {
            self.z = self.z + step;
        }
    }
}

/// The axis with the least distance, by how the three distances compare; of equal ones the first.
pub open spec fn nearest_axis(x_le_y: bool, x_le_z: bool, y_le_z: bool) -> int {
    if x_le_y && x_le_z {
        0
    } else if y_le_z {
        1
    } else {
        2
    }
}

/// The axis along which a ray leaves its block: the one whose border it meets first, and the earlier
/// one of several. The arguments say how the three border parameters compare.
pub fn exit_axis(x_le_y: bool, x_le_z: bool, y_le_z: bool) -> (r: usize)
    ensures
        r == nearest_axis(x_le_y, x_le_z, y_le_z),
{
    if x_le_y && x_le_z {
        0
    } else if y_le_z {
        1
    } else {
        2
    }
}

/// Blocks left to walk along an axis of `n` blocks for a ray that moves by `step`.
pub open spec fn blocks_left(v: int, n: int, step: int) -> int {
    if step > 0 {
        n - v
    } else if step < 0 {
        v + 1
    } else {
        0
    }
}

/// A ray that keeps its direction leaves the lattice after at most `nx + ny + nz` moves: each move
/// along an axis in which it moves at all leaves one block less to walk, and there are none to begin
/// with beyond that sum.
pub proof fn law_walk_ends(c: BlockCursor, d: BlockCursor, axis: int, step: (int, int, int))
    requires
        c.wf(),
        c.spec_in_bounds(),
        0 <= axis < 3,
        -1 <= step.0 <= 1,
        -1 <= step.1 <= 1,
        -1 <= step.2 <= 1,
        axis == 0 ==> step.0 != 0,
        axis == 1 ==> step.1 != 0,
        axis == 2 ==> step.2 != 0,
        d.x == c.x + if axis == 0 { step.0 } else { 0 },
        d.y == c.y + if axis == 1 { step.1 } else { 0 },
        d.z == c.z + if axis == 2 { step.2 } else { 0 },
    ensures
        walk_left(d, c.nx as int, c.ny as int, c.nz as int, step) == walk_left(
            c,
            c.nx as int,
            c.ny as int,
            c.nz as int,
            step,
        ) - 1,
        0 < walk_left(c, c.nx as int, c.ny as int, c.nz as int, step) <= c.nx + c.ny + c.nz,
{
}

/// Blocks left to walk along all axes.
pub open spec fn walk_left(c: BlockCursor, nx: int, ny: int, nz: int, step: (int, int, int)) -> int {
    blocks_left(c.x as int, nx, step.0) + blocks_left(c.y as int, ny, step.1) + blocks_left(
        c.z as int,
        nz,
        step.2,
    )
}

/// A point of a slice has the offset along the axis of the slice, and going through `u` and `v`
/// moves it along the other two axes, the first by `u` and the second by `v`.
pub proof fn law_slice_axes<T>(u: T, v: T, offset: T, u2: T, v2: T)
    ensures
        slice_at(SliceAxis::X, u, v, offset).0 == offset,
        slice_at(SliceAxis::Y, u, v, offset).1 == offset,
        slice_at(SliceAxis::Z, u, v, offset).2 == offset,
        slice_at(SliceAxis::X, u, v, offset).1 == u && slice_at(SliceAxis::X, u2, v, offset).2 == v,
        slice_at(SliceAxis::Y, u, v2, offset).0 == u && slice_at(SliceAxis::Y, u2, v, offset).2 == v,
        slice_at(SliceAxis::Z, u, v2, offset).0 == u && slice_at(SliceAxis::Z, u2, v, offset).1 == v,
{
}

/// The ray leaves a block through the face that is nearest along it, and through the first of those
/// that are equally near.
pub proof fn law_exit_is_nearest(tx: int, ty: int, tz: int)
    ensures
        ({
            let t = seq![tx, ty, tz];
            let a = nearest_axis(tx <= ty, tx <= tz, ty <= tz);
            &&& 0 <= a < 3
            &&& forall|b: int| 0 <= b < 3 ==> t[a] <= #[trigger] t[b]
            &&& forall|b: int| 0 <= b < a ==> t[a] < #[trigger] t[b]
        }),
{
}

/// The four bytes of a pixel follow each other, and those of the next pixel follow them.
pub proof fn law_pixel_bytes(row: Seq<u8>, x: int, c: int)
    requires
        0 <= x,
        4 * x + 4 <= row.len(),
        0 <= c < 4,
    ensures
        pixel_at(row, x).len() == 4,
        pixel_at(row, x)[c] == row[4 * x + c],
{
}

/// A block outside of the lattice is moved to the nearest one in it, along each axis by itself.
pub proof fn law_clamped_is_nearest(v: int, n: int, w: int)
    requires
        1 <= n,
        0 <= w < n,
    ensures
        0 <= clamped(v, n) < n,
        0 <= v < n ==> clamped(v, n) == v,
        v < 0 ==> v < clamped(v, n) <= w,
        n <= v ==> w <= clamped(v, n) < v,
{
}

/// A ray that moves along an axis is in the lattice for as many blocks as are left to walk, and out
/// of it after that many moves.
pub proof fn law_blocks_left(v: int, n: int, step: int, k: int)
    requires
        0 <= v < n,
        step == 1 || step == -1,
        0 <= k,
    ensures
        k < blocks_left(v, n, step) <==> 0 <= v + step * k < n,
        blocks_left(v, n, 0) == 0,
{
    assert(step * k == k || step * k == -k) by (nonlinear_arith)
        requires
            step == 1 || step == -1,
    ;
    assert(step * k == if step == 1 { k } else { -k }) by (nonlinear_arith)
        requires
            step == 1 || step == -1,
    ;
}

/// The bytes of a painting: those of pixel `(x, y)` stand behind those of the rows before it and of
/// the pixels before it in its row, four each.
pub proof fn law_painting_bytes<F: Fn(usize, usize) -> [u8; 4]>(
    pixel: &F,
    width: int,
    height: int,
    bytes: Seq<u8>,
    x: usize,
    y: usize,
) -> (c: [u8; 4])
    requires
        is_painting(pixel, width, height, bytes),
        x < width,
        y < height,
    ensures
        call_ensures(*pixel, (x, y), c),
        forall|k: int| 0 <= k < 4 ==> #[trigger] c@[k] == bytes[4 * (width * y) + 4 * x + k],
{
    let at = y * width + x;
    let p = pixel_at(bytes, at);
    assert(is_pixel(pixel, x as int, y as int, p));
    let c = choose|c: [u8; 4]|
        c@ == p && #[trigger] call_ensures(*pixel, ((x as int) as usize, (y as int) as usize), c);
    assert(0 <= at && at + 1 <= width * height && width * y == y * width && 4 * width * height == 4 * (
    width * height)) by (nonlinear_arith)
        requires
            at == y * width + x,
            0 <= x < width,
            0 <= y < height,
    ;
    assert forall|k: int| 0 <= k < 4 implies #[trigger] c@[k] == bytes[4 * (width * y) + 4 * x + k] by {
        law_pixel_bytes(bytes, at, k);
    }
    c
}

/// A move goes along its axis and no other: the block id changes by the stride of that axis.
pub proof fn law_move_changes_block(before: BlockCursor, after: BlockCursor, axis: int, step: int)
    requires
        BlockCursor::is_moved(before, after, axis, step),
        0 <= axis < 3,
        -1 <= step <= 1,
    ensures
        ({
            let id = |c: BlockCursor| c.x + c.nx * c.y + c.nx * c.ny * c.z;
            let stride = if axis == 0 {
                1int
            } else if axis == 1 {
                before.nx as int
            } else {
                before.nx * before.ny
            };
            id(after) - id(before) == if step == 1 { stride } else if step == 0 { 0 } else { -stride }
        }),
        after.nx == before.nx && after.ny == before.ny && after.nz == before.nz,
{
    let (nx, ny) = (before.nx as int, before.ny as int);
    let (y, z, y2, z2) = (before.y as int, before.z as int, after.y as int, after.z as int);
    assert(nx * y2 - nx * y == nx * (y2 - y) && nx * ny * z2 - nx * ny * z == nx * ny * (z2 - z))
        by (nonlinear_arith);
    let l = nx * ny;
    assert(nx * (y2 - y) == if y2 - y == 1 {
        nx
    } else if y2 - y == 0 {
        0
    } else {
        -nx
    }) by (nonlinear_arith)
        requires
            -1 <= y2 - y <= 1,
    ;
    assert(l * (z2 - z) == if z2 - z == 1 {
        l
    } else if z2 - z == 0 {
        0
    } else {
        -l
    }) by (nonlinear_arith)
        requires
            -1 <= z2 - z <= 1,
    ;
}

} // verus!
