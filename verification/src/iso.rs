use vstd::prelude::*;

verus! {

/// Width of an isometric tile (diamond) in world units.
pub const TILE_WIDTH: i64 = 64;
/// Height of an isometric tile (diamond) in world units.
pub const TILE_HEIGHT: i64 = 32;

/// World-space position of the centre of grid cell `(gx, gy)` under the
/// standard 2:1 isometric mapping (half a tile is 32 units wide and 16 high).
pub open spec fn spec_grid_to_world(gx: int, gy: int) -> (int, int) {
    ((gx - gy) * 32, -(gx + gy) * 16)
}

/// Converts an isometric grid coordinate into 2-D world space:
/// `x = (gx - gy) * TILE_WIDTH / 2` and `y = -(gx + gy) * TILE_HEIGHT / 2`
/// (positive `y` is up).  The values are exact; the renderer turns them
/// into floating point.
pub fn grid_to_world(gx: i32, gy: i32) -> (p: (i64, i64))
    ensures
        p.0 == spec_grid_to_world(gx as int, gy as int).0,
        p.1 == spec_grid_to_world(gx as int, gy as int).1,
{
    let gx = gx as i64;
    let gy = gy as i64;
    ((gx - gy) * (TILE_WIDTH / 2), -(gx + gy) * (TILE_HEIGHT / 2))
}

/// Law: distinct grid cells have distinct world positions, so a world
/// position names at most one cell and the conversion can be inverted.
pub proof fn lemma_grid_to_world_injective(ax: int, ay: int, bx: int, by: int)
    requires
        spec_grid_to_world(ax, ay) == spec_grid_to_world(bx, by),
    ensures
        ax == bx && ay == by,
{
    assert((ax - ay) * 32 == (bx - by) * 32 ==> ax - ay == bx - by) by (nonlinear_arith);
    assert(-(ax + ay) * 16 == -(bx + by) * 16 ==> ax + ay == bx + by) by (nonlinear_arith);
}

/// Law: the inverse of the mapping on the positions it produces: from
/// `u = x / 32` and `v = -y / 16` the cell is
/// `((u + v) / 2, (v - u) / 2)`.
pub proof fn lemma_grid_to_world_inverse(gx: int, gy: int)
    ensures
        ({
            let p = spec_grid_to_world(gx, gy);
            let u = p.0 / 32;
            let v = -p.1 / 16;
            (u + v) / 2 == gx && (v - u) / 2 == gy
        }),
{
    let p = spec_grid_to_world(gx, gy);
    assert(p.0 == 32 * (gx - gy));
    assert(-p.1 == 16 * (gx + gy));
    vstd::arithmetic::div_mod::lemma_div_multiples_vanish(gx - gy, 32);
    vstd::arithmetic::div_mod::lemma_div_multiples_vanish(gx + gy, 16);
    assert((gx - gy) + (gx + gy) == 2 * gx);
    assert((gx + gy) - (gx - gy) == 2 * gy);
    vstd::arithmetic::div_mod::lemma_div_multiples_vanish(gx, 2);
    vstd::arithmetic::div_mod::lemma_div_multiples_vanish(gy, 2);
}

} // verus!
