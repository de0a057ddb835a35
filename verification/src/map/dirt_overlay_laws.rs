//! What stains look like whatever the dirt: each texel weighs the four nearest tiles by their
//! distance, and the dirtier the floor, the darker the stain.
use vstd::prelude::*;

use crate::map::dirt_overlay::{
    blended, dirt_under, eighths_past, opacity, sample, stain_at, tile_before,
};
use crate::map::hypermap::{ChunkCoord, Hypermap};

verus! {

/// Whether the centre of tile `l` is the last one at or before the centre of texel `p`, both
/// in eighths of a tile from the chunk's border: a tile's centre is four eighths into it, and
/// a texel is two eighths wide.
pub open spec fn last_centre_before(l: int, p: int) -> bool {
    8 * l + 4 <= 2 * p + 1 < 8 * (l + 1) + 4
}

/// Eight minus the distance in eighths of a tile between the centres of texel `p` and tile `l`.
pub open spec fn nearness(p: int, l: int) -> int {
    let apart = (2 * p + 1) - (8 * l + 4);
    8 - (if apart < 0 {
        -apart
    } else {
        apart
    })
}

proof fn lemma_place(p: int, l: int)
    requires
        last_centre_before(l, p),
    ensures
        tile_before(p) == l,
        eighths_past(p) == nearness(p, l + 1),
        8 - eighths_past(p) == nearness(p, l),
        0 <= eighths_past(p) < 8,
{
}

/// A texel's dirt is the mean of the four nearest tiles, each weighed by its nearness along
/// the columns and along the rows, measured from texel centre to tile centre.
pub proof fn texels_weigh_near_tiles(
    dirt: Hypermap<u32>,
    coord: ChunkCoord,
    px: int,
    py: int,
    lx: int,
    ly: int,
)
    requires
        last_centre_before(lx, px),
        last_centre_before(ly, py),
    ensures
        dirt_under(dirt, coord, px, py) == {
            let (x, y) = (coord.x * 128 + lx, coord.y * 128 + ly);
            dirt.tile(x, y, 0) * (nearness(px, lx) * nearness(py, ly)) + dirt.tile(x + 1, y, 0) * (
            nearness(px, lx + 1) * nearness(py, ly)) + dirt.tile(x, y + 1, 0) * (nearness(px, lx)
                * nearness(py, ly + 1)) + dirt.tile(x + 1, y + 1, 0) * (nearness(px, lx + 1)
                * nearness(py, ly + 1))
        },
        nearness(px, lx) + nearness(px, lx + 1) == 8,
        nearness(py, ly) + nearness(py, ly + 1) == 8,
{
    lemma_place(px, lx);
    lemma_place(py, ly);
    let (x, y) = (coord.x * 128 + lx, coord.y * 128 + ly);
    assert(sample(dirt, coord, lx + 1, ly) == dirt.tile(x + 1, y, 0)) by {
        assert(coord.x * 128 + (lx + 1) == x + 1);
    }
    assert(sample(dirt, coord, lx, ly + 1) == dirt.tile(x, y + 1, 0)) by {
        assert(coord.y * 128 + (ly + 1) == y + 1);
    }
    assert(sample(dirt, coord, lx + 1, ly + 1) == dirt.tile(x + 1, y + 1, 0)) by {
        assert(coord.x * 128 + (lx + 1) == x + 1);
        assert(coord.y * 128 + (ly + 1) == y + 1);
    }
    lemma_product(
        dirt.tile(x, y, 0) as int,
        dirt.tile(x + 1, y, 0) as int,
        dirt.tile(x, y + 1, 0) as int,
        dirt.tile(x + 1, y + 1, 0) as int,
        eighths_past(px),
        eighths_past(py),
    );
}

proof fn lemma_product(a: int, b: int, c: int, d: int, tx: int, ty: int)
    ensures
        blended(blended(a, b, tx), blended(c, d, tx), ty) == a * ((8 - tx) * (8 - ty)) + b * (tx * (8
            - ty)) + c * ((8 - tx) * ty) + d * (tx * ty),
{
    assert((a * (8 - tx) + b * tx) * (8 - ty) + (c * (8 - tx) + d * tx) * ty == a * ((8 - tx) * (8
        - ty)) + b * (tx * (8 - ty)) + c * ((8 - tx) * ty) + d * (tx * ty)) by (nonlinear_arith);
}

/// Where all rows of tiles are alike, all rows of texels are alike, and a texel's dirt lies on
/// the straight line between the dirt of the tile centres to the west and to the east of it.
pub proof fn alike_rows_stain_alike(
    dirt: Hypermap<u32>,
    coord: ChunkCoord,
    px: int,
    py: int,
    other: int,
    lx: int,
)
    requires
        forall|x: int, y: int, z: int| #[trigger]
            dirt.tile(x, y, 0) == #[trigger] dirt.tile(x, z, 0),
        last_centre_before(lx, px),
    ensures
        dirt_under(dirt, coord, px, py) == dirt_under(dirt, coord, px, other),
        forall|y: int|
            dirt_under(dirt, coord, px, py) == 8 * (#[trigger] dirt.tile(coord.x * 128 + lx, y, 0) * (
            8 - ((2 * px + 1) - (8 * lx + 4))) + dirt.tile(coord.x * 128 + lx + 1, y, 0) * ((2 * px
                + 1) - (8 * lx + 4))),
{
    let x = coord.x * 128 + lx;
    let t = (2 * px + 1) - (8 * lx + 4);
    assert forall|y: int|
        dirt_under(dirt, coord, px, py) == 8 * (#[trigger] dirt.tile(x, y, 0) * (8 - t) + dirt.tile(
            x + 1,
            y,
            0,
        ) * t) by {
        lemma_alike_rows(dirt, coord, px, py, lx, y);
    }
    lemma_alike_rows(dirt, coord, px, py, lx, 0);
    lemma_alike_rows(dirt, coord, px, other, lx, 0);
}

proof fn lemma_alike_rows(
    dirt: Hypermap<u32>,
    coord: ChunkCoord,
    px: int,
    py: int,
    lx: int,
    row: int,
)
    requires
        forall|x: int, y: int, z: int| #[trigger]
            dirt.tile(x, y, 0) == #[trigger] dirt.tile(x, z, 0),
        last_centre_before(lx, px),
    ensures
        dirt_under(dirt, coord, px, py) == 8 * (dirt.tile(coord.x * 128 + lx, row, 0) * (8 - ((2 * px
            + 1) - (8 * lx + 4))) + dirt.tile(coord.x * 128 + lx + 1, row, 0) * ((2 * px + 1) - (8
            * lx + 4))),
{
    let ly = (2 * py + 5) / 8 - 1;
    texels_weigh_near_tiles(dirt, coord, px, py, lx, ly);
    let (x, y) = (coord.x * 128 + lx, coord.y * 128 + ly);
    assert(dirt.tile(x, y, 0) == dirt.tile(x, row, 0));
    assert(dirt.tile(x, y + 1, 0) == dirt.tile(x, row, 0));
    assert(dirt.tile(x + 1, y, 0) == dirt.tile(x + 1, row, 0));
    assert(dirt.tile(x + 1, y + 1, 0) == dirt.tile(x + 1, row, 0));
    let (a, b) = (dirt.tile(x, row, 0) as int, dirt.tile(x + 1, row, 0) as int);
    let (n0, n1) = (nearness(px, lx), nearness(px, lx + 1));
    let (m0, m1) = (nearness(py, ly), nearness(py, ly + 1));
    assert(a * (n0 * m0) + b * (n1 * m0) + a * (n0 * m1) + b * (n1 * m1) == 8 * (a * n0 + b * n1))
        by (nonlinear_arith)
        requires
            m0 + m1 == 8,
    ;
}

/// Where all columns of tiles are alike, all columns of texels are alike, and a texel's dirt
/// lies on the straight line between the dirt of the tile centres to the north and to the
/// south of it.
pub proof fn alike_columns_stain_alike(
    dirt: Hypermap<u32>,
    coord: ChunkCoord,
    px: int,
    other: int,
    py: int,
    ly: int,
)
    requires
        forall|x: int, y: int, z: int| #[trigger]
            dirt.tile(x, y, 0) == #[trigger] dirt.tile(z, y, 0),
        last_centre_before(ly, py),
    ensures
        dirt_under(dirt, coord, px, py) == dirt_under(dirt, coord, other, py),
        forall|x: int|
            dirt_under(dirt, coord, px, py) == 8 * (#[trigger] dirt.tile(x, coord.y * 128 + ly, 0) * (
            8 - ((2 * py + 1) - (8 * ly + 4))) + dirt.tile(x, coord.y * 128 + ly + 1, 0) * ((2 * py
                + 1) - (8 * ly + 4))),
{
    let y = coord.y * 128 + ly;
    let t = (2 * py + 1) - (8 * ly + 4);
    assert forall|x: int|
        dirt_under(dirt, coord, px, py) == 8 * (#[trigger] dirt.tile(x, y, 0) * (8 - t) + dirt.tile(
            x,
            y + 1,
            0,
        ) * t) by {
        lemma_alike_columns(dirt, coord, px, py, ly, x);
    }
    lemma_alike_columns(dirt, coord, px, py, ly, 0);
    lemma_alike_columns(dirt, coord, other, py, ly, 0);
}

proof fn lemma_alike_columns(
    dirt: Hypermap<u32>,
    coord: ChunkCoord,
    px: int,
    py: int,
    ly: int,
    column: int,
)
    requires
        forall|x: int, y: int, z: int| #[trigger]
            dirt.tile(x, y, 0) == #[trigger] dirt.tile(z, y, 0),
        last_centre_before(ly, py),
    ensures
        dirt_under(dirt, coord, px, py) == 8 * (dirt.tile(column, coord.y * 128 + ly, 0) * (8 - ((2
            * py + 1) - (8 * ly + 4))) + dirt.tile(column, coord.y * 128 + ly + 1, 0) * ((2 * py + 1)
            - (8 * ly + 4))),
{
    let lx = (2 * px + 5) / 8 - 1;
    texels_weigh_near_tiles(dirt, coord, px, py, lx, ly);
    let (x, y) = (coord.x * 128 + lx, coord.y * 128 + ly);
    assert(dirt.tile(x, y, 0) == dirt.tile(column, y, 0));
    assert(dirt.tile(x, y + 1, 0) == dirt.tile(column, y + 1, 0));
    assert(dirt.tile(x + 1, y, 0) == dirt.tile(column, y, 0));
    assert(dirt.tile(x + 1, y + 1, 0) == dirt.tile(column, y + 1, 0));
    let (a, b) = (dirt.tile(column, y, 0) as int, dirt.tile(column, y + 1, 0) as int);
    let (n0, n1) = (nearness(px, lx), nearness(px, lx + 1));
    let (m0, m1) = (nearness(py, ly), nearness(py, ly + 1));
    assert(a * (n0 * m0) + a * (n1 * m0) + b * (n0 * m1) + b * (n1 * m1) == 8 * (a * m0 + b * m1))
        by (nonlinear_arith)
        requires
            n0 + n1 == 8,
    ;
}

/// A clean floor shows no stain and a fully dirty one a black stain; in between the opacity is
/// the share of dirt, to the nearest byte, and dirtier floors are never less opaque.
pub proof fn dirtier_is_darker(less: int, more: int)
    requires
        0 <= less <= more,
    ensures
        opacity(0) == 0,
        more >= 64_000_000 ==> opacity(more) == 255,
        more <= 64_000_000 ==> -32_000_000 < opacity(more) * 64_000_000 - more * 255 <= 32_000_000,
        0 <= opacity(less) <= opacity(more) <= 255,
{
}

/// Stains are black, and a chunk without dirt data shows none; elsewhere the alpha byte is the
/// share of the dirt under the texel, to the nearest byte.
pub proof fn stains_are_black(dirt: Hypermap<u32>, coord: ChunkCoord, px: int, py: int)
    ensures
        stain_at(dirt, coord, px, py).len() == 4,
        stain_at(dirt, coord, px, py)[0] == 0,
        stain_at(dirt, coord, px, py)[1] == 0,
        stain_at(dirt, coord, px, py)[2] == 0,
        !dirt.has(coord) ==> stain_at(dirt, coord, px, py)[3] == 0,
        dirt.has(coord) && dirt_under(dirt, coord, px, py) >= 64_000_000 ==> stain_at(
            dirt,
            coord,
            px,
            py,
        )[3] == 255,
        dirt.has(coord) && dirt_under(dirt, coord, px, py) <= 64_000_000 ==> -32_000_000 < stain_at(
            dirt,
            coord,
            px,
            py,
        )[3] * 64_000_000 - dirt_under(dirt, coord, px, py) * 255 <= 32_000_000,
{
    let (lx, ly) = ((2 * px + 5) / 8 - 1, (2 * py + 5) / 8 - 1);
    texels_weigh_near_tiles(dirt, coord, px, py, lx, ly);
    let (x, y) = (coord.x * 128 + lx, coord.y * 128 + ly);
    let (n0, n1) = (nearness(px, lx), nearness(px, lx + 1));
    let (m0, m1) = (nearness(py, ly), nearness(py, ly + 1));
    let (a, b) = (dirt.tile(x, y, 0) as int, dirt.tile(x + 1, y, 0) as int);
    let (c, d) = (dirt.tile(x, y + 1, 0) as int, dirt.tile(x + 1, y + 1, 0) as int);
    assert(0 <= a * (n0 * m0) + b * (n1 * m0) + c * (n0 * m1) + d * (n1 * m1)) by (nonlinear_arith)
        requires
            0 <= n0,
            0 <= n1,
            0 <= m0,
            0 <= m1,
            0 <= a,
            0 <= b,
            0 <= c,
            0 <= d,
    ;
    dirtier_is_darker(0, dirt_under(dirt, coord, px, py));
}

} // verus!
