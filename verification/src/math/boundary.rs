//! Sampling configuration, and how indices beyond the domain border are resolved.

use vstd::prelude::*;

verus! {

/// How a sample beyond the domain border is resolved.
#[derive(Clone, Copy, Debug, PartialEq, Eq, Hash, Structural)]
pub enum BoundaryCondition {
    /// Replicate the edge voxel.
    Clamp,
    /// Mirror at the border: the edge voxel is met twice.
    Neumann,
    /// Read the grid's empty value.
    Dirichlet,
}

/// Whether positions are node- or cell-centered.
#[derive(Clone, Copy, Debug, PartialEq, Eq, Hash, Structural)]
pub enum GridAlignment {
    /// Sample positions coincide with voxel centres.
    Corner,
    /// Voxels live at half-integer positions.
    CellCentered,
}

/// Interpolation stencil order.
#[derive(Clone, Copy, Debug, PartialEq, Eq, Hash, Structural)]
pub enum Interpolation {
    Linear,
    CubicBSpline,
}

/// `g` mirrored into `[0, max]`: -1 goes to 0, -2 to 1, `max + 1` to `max`, `max + 2` to `max - 1`,
/// and so on, with period `2 * (max + 1)`.
pub open spec fn mirrored(g: int, max: int) -> int {
    let period = 2 * (max + 1);
    let r = g % period;
    if r > max { period - 1 - r } else { r }
}

/// Index `g` resolved into `[0, max]`, or nothing where the empty value is to be read.
pub open spec fn resolved(g: int, max: int, bc: BoundaryCondition) -> Option<int> {
    if 0 <= g <= max {
        Some(g)
    } else {
        match bc {
            BoundaryCondition::Clamp => Some(if g < 0 { 0 } else { max }),
            BoundaryCondition::Neumann => Some(mirrored(g, max)),
            BoundaryCondition::Dirichlet => None,
        }
    }
}

/// Indices can be resolved against `max`: there is a voxel, and the mirror period can be represented.
pub open spec fn resolvable(max: int, bc: BoundaryCondition) -> bool {
    match bc {
        BoundaryCondition::Clamp => 0 <= max,
        BoundaryCondition::Neumann => 0 <= max && 2 * (max + 1) <= i32::MAX,
        BoundaryCondition::Dirichlet => true,
    }
}

/// Maps index `g` into `[0, max]`. `None` only comes for `Dirichlet`, where `g` is out of range.
pub fn resolve_axis(g: i32, max: i32, bc: BoundaryCondition) -> (r: Option<i32>)
    requires
        resolvable(max as int, bc),
    ensures
        r is Some == resolved(g as int, max as int, bc) is Some,
        r matches Some(v) ==> resolved(g as int, max as int, bc) == Some(v as int) && 0 <= v <= max,
        r is None ==> bc == BoundaryCondition::Dirichlet && !(0 <= g <= max),
{
    if 0 <= g && g <= max {
        return Some(g);
    }
    match bc {
        BoundaryCondition::Clamp => {
            if g < 0 {
                Some(0)
            } else {
                Some(max)
            }
        },
        BoundaryCondition::Neumann => Some(reflect(g, max)),
        BoundaryCondition::Dirichlet => None,
    }
}

/// Symmetric mirror.
fn reflect(g: i32, max: i32) -> (r: i32)
    requires
        0 <= max,
        2 * (max + 1) <= i32::MAX,
    ensures
        r == mirrored(g as int, max as int),
        0 <= r <= max,
{
    let period: i32 = 2 * (max + 1);
    let r: i32 = match g.checked_rem_euclid(period) {
        Some(r) => r,
        None => 0,
    };
    if r > max {
        period - 1 - r
    } else {
        r
    }
}

/// Whatever comes back from resolving an index lies in the domain, and resolves to itself.
pub proof fn law_resolved_in_domain(g: int, max: int, bc: BoundaryCondition)
    requires
        0 <= max,
        resolved(g, max, bc) is Some,
    ensures
        0 <= resolved(g, max, bc)->0 <= max,
        resolved(resolved(g, max, bc)->0, max, bc) == resolved(g, max, bc),
{
    vstd::arithmetic::div_mod::lemma_mod_bound(g, 2 * (max + 1));
}

/// Every index resolves under `Clamp` and `Neumann`; under `Dirichlet` exactly those of the domain do.
pub proof fn law_resolved_when(g: int, max: int)
    ensures
        resolved(g, max, BoundaryCondition::Clamp) is Some,
        resolved(g, max, BoundaryCondition::Neumann) is Some,
        resolved(g, max, BoundaryCondition::Dirichlet) is Some <==> 0 <= g <= max,
{
}

/// The mirror is symmetric about both borders, and so periodic.
pub proof fn law_mirror_symmetric(g: int, max: int)
    requires
        0 <= max,
    ensures
        mirrored(-1 - g, max) == mirrored(g, max),
        mirrored(2 * max + 1 - g, max) == mirrored(g, max),
        mirrored(g + 2 * (max + 1), max) == mirrored(g, max),
{
    let p = 2 * (max + 1);
    let q = g / p;
    let r = g % p;
    vstd::arithmetic::div_mod::lemma_fundamental_div_mod(g, p);
    vstd::arithmetic::div_mod::lemma_mod_bound(g, p);
    assert(-1 - g == (-1 - q) * p + (p - 1 - r)) by (nonlinear_arith)
        requires
            g == p * q + r,
    ;
    vstd::arithmetic::div_mod::lemma_fundamental_div_mod_converse(-1 - g, p, -1 - q, p - 1 - r);
    assert(p - 1 - g == (0 - q) * p + (p - 1 - r)) by (nonlinear_arith)
        requires
            g == p * q + r,
    ;
    vstd::arithmetic::div_mod::lemma_fundamental_div_mod_converse(p - 1 - g, p, 0 - q, p - 1 - r);
    assert(g + p == (q + 1) * p + r) by (nonlinear_arith)
        requires
            g == p * q + r,
    ;
    vstd::arithmetic::div_mod::lemma_fundamental_div_mod_converse(g + p, p, q + 1, r);
}

/// Coordinates inside the domain are left as they are by every boundary condition.
pub proof fn law_inside_is_kept(g: int, max: int, bc: BoundaryCondition)
    requires
        0 <= g <= max,
    ensures
        resolved(g, max, bc) == Some(g),
{
}

/// Clamping gives the coordinate of the domain that is nearest.
pub proof fn law_clamp_is_nearest(g: int, max: int, v: int)
    requires
        0 <= v <= max,
    ensures
        resolved(g, max, BoundaryCondition::Clamp) is Some,
        ({
            let r = resolved(g, max, BoundaryCondition::Clamp)->0;
            &&& 0 <= r <= max
            &&& g <= r ==> r - g <= (if g <= v { v - g } else { g - v })
            &&& r <= g ==> g - r <= (if g <= v { v - g } else { g - v })
        }),
{
}

/// Reflection is about the outer sides of the first and the last cell: the cell `d` before the domain
/// reads as the cell `d` into it, on both ends, and so on with the period of two domains.
pub proof fn law_neumann_reflects(g: int, max: int)
    requires
        0 <= max,
    ensures
        resolved(-1 - g, max, BoundaryCondition::Neumann) == resolved(
            g,
            max,
            BoundaryCondition::Neumann,
        ),
        resolved(2 * max + 1 - g, max, BoundaryCondition::Neumann) == resolved(
            g,
            max,
            BoundaryCondition::Neumann,
        ),
        resolved(g + 2 * (max + 1), max, BoundaryCondition::Neumann) == resolved(
            g,
            max,
            BoundaryCondition::Neumann,
        ),
        0 <= g <= max ==> resolved(g, max, BoundaryCondition::Neumann) == Some(g),
{
    law_mirror_symmetric(g, max);
    lemma_mirror_inside(g, max);
    lemma_mirror_inside(-1 - g, max);
    lemma_mirror_inside(2 * max + 1 - g, max);
    lemma_mirror_inside(g + 2 * (max + 1), max);
}

proof fn lemma_mirror_inside(g: int, max: int)
    requires
        0 <= max,
    ensures
        0 <= g <= max ==> mirrored(g, max) == g,
{
    if 0 <= g <= max {
        vstd::arithmetic::div_mod::lemma_small_mod(g as nat, (2 * (max + 1)) as nat);
    }
}

/// Beyond a Dirichlet boundary there is nothing.
pub proof fn law_dirichlet_ends(g: int, max: int)
    ensures
        g < 0 || g > max ==> resolved(g, max, BoundaryCondition::Dirichlet) is None,
{
}

} // verus!
