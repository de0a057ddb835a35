//! What the meshes show whatever the cells: which box stands on which edge of a wall, where it
//! stands, and what ground the floor covers.
use vstd::prelude::*;

use crate::map::hypermap_world::mesh::{
    floor_quad, on_ground, placed_slabs, road_quads, slab_quads, wall_slabs, winding, MeshBuffers,
    Point3, Quad, Slab, WallShapes,
};
use crate::map::world_map::{
    CellType, WallCorner, WallMask, MASK_EAST, MASK_NORTH, MASK_SOUTH, MASK_WEST,
};

verus! {

/// Whether the box is the shape, put in the middle of the cell at these world coordinates and
/// lifted to this height.
pub open spec fn stands_in(slab: Slab, shape: Slab, wx: int, wz: int, height: int) -> bool {
    &&& slab.half == shape.half
    &&& slab.center.x == shape.center.x + wx * 1000 + 500
    &&& slab.center.y == shape.center.y + height
    &&& slab.center.z == shape.center.z + wz * 1000 + 500
}

/// Whether some box of the list is the shape in the middle of that cell.
pub open spec fn some_stands_in(
    slabs: Seq<Slab>,
    shape: Slab,
    wx: int,
    wz: int,
    height: int,
) -> bool {
    exists|i: int| 0 <= i < slabs.len() && stands_in(#[trigger] slabs[i], shape, wx, wz, height)
}

/// Whether the height is one that a floor of the world can have.
pub open spec fn reachable(height: int) -> bool {
    -0x1000_0000_0000_0000 <= height <= 0x1000_0000_0000_0000
}

proof fn lemma_moved(shape: Slab, other: Slab, x: int, y: int, z: int)
    requires
        shape.near(),
        other.near(),
        -0x1_0000_0000 <= x <= 0x1_0000_0000,
        -0x1_0000_0000 <= z <= 0x1_0000_0000,
        reachable(y),
    ensures
        stands_in(shape.moved(x * 1000 + 500, y, z * 1000 + 500), shape, x, z, y),
        stands_in(shape.moved(x * 1000 + 500, y, z * 1000 + 500), other, x, z, y) ==> shape == other,
{
}

/// A wall has its slabs on its edges: in the middle of the cell stands the shape of the north
/// edge just where the wall has a north edge, and likewise for the south, the east and the west
/// edge; the four shapes are different.
pub proof fn slabs_stand_on_their_edges(
    shapes: WallShapes,
    placed: (i32, i32, i32, CellType),
    mask: WallMask,
    origin_x: i32,
    origin_y: i32,
    floor_height: int,
)
    requires
        shapes.near(),
        placed.3 == CellType::Wall(mask),
        reachable(placed.2 * floor_height),
        shapes.north != shapes.south,
        shapes.north != shapes.east,
        shapes.north != shapes.west,
        shapes.south != shapes.east,
        shapes.south != shapes.west,
        shapes.east != shapes.west,
    ensures
        ({
            let slabs = placed_slabs(
                shapes,
                placed,
                origin_x as int,
                origin_y as int,
                floor_height,
            );
            let (x, z) = (origin_x + placed.0, origin_y + placed.1);
            let y = placed.2 * floor_height;
            &&& some_stands_in(slabs, shapes.north, x, z, y) <==> mask.edges() & MASK_NORTH != 0
            &&& some_stands_in(slabs, shapes.south, x, z, y) <==> mask.edges() & MASK_SOUTH != 0
            &&& some_stands_in(slabs, shapes.east, x, z, y) <==> mask.edges() & MASK_EAST != 0
            &&& some_stands_in(slabs, shapes.west, x, z, y) <==> mask.edges() & MASK_WEST != 0
            &&& slabs.len() == (if mask.edges() & MASK_NORTH != 0 {
                1int
            } else {
                0
            }) + (if mask.edges() & MASK_SOUTH != 0 {
                1int
            } else {
                0
            }) + (if mask.edges() & MASK_EAST != 0 {
                1int
            } else {
                0
            }) + (if mask.edges() & MASK_WEST != 0 {
                1int
            } else {
                0
            })
        }),
{
    let (x, z) = (origin_x + placed.0, origin_y + placed.1);
    let y = placed.2 * floor_height;
    lemma_edge(shapes, placed, mask, origin_x, origin_y, floor_height, shapes.north);
    lemma_edge(shapes, placed, mask, origin_x, origin_y, floor_height, shapes.south);
    lemma_edge(shapes, placed, mask, origin_x, origin_y, floor_height, shapes.east);
    lemma_edge(shapes, placed, mask, origin_x, origin_y, floor_height, shapes.west);
}

proof fn lemma_edge(
    shapes: WallShapes,
    placed: (i32, i32, i32, CellType),
    mask: WallMask,
    origin_x: i32,
    origin_y: i32,
    floor_height: int,
    shape: Slab,
)
    requires
        shapes.near(),
        shape.near(),
        placed.3 == CellType::Wall(mask),
        reachable(placed.2 * floor_height),
    ensures
        some_stands_in(
            placed_slabs(shapes, placed, origin_x as int, origin_y as int, floor_height),
            shape,
            origin_x + placed.0,
            origin_y + placed.1,
            placed.2 * floor_height,
        ) <==> shapes.of_cell(placed.3).contains(shape),
        shapes.of_cell(placed.3).contains(shape) <==> {
            ||| mask.edges() & MASK_NORTH != 0 && shape == shapes.north
            ||| mask.edges() & MASK_SOUTH != 0 && shape == shapes.south
            ||| mask.edges() & MASK_EAST != 0 && shape == shapes.east
            ||| mask.edges() & MASK_WEST != 0 && shape == shapes.west
        },
{
    let slabs = placed_slabs(shapes, placed, origin_x as int, origin_y as int, floor_height);
    let list = shapes.of_cell(placed.3);
    let (x, z) = (origin_x + placed.0, origin_y + placed.1);
    let y = placed.2 * floor_height;
    let bits = mask.edges();
    let n: int = if bits & MASK_NORTH != 0 {
        1
    } else {
        0
    };
    let s: int = n + (if bits & MASK_SOUTH != 0 {
        1int
    } else {
        0
    });
    let e: int = s + (if bits & MASK_EAST != 0 {
        1int
    } else {
        0
    });
    if bits & MASK_NORTH != 0 {
        assert(list[0] == shapes.north);
    }
    if bits & MASK_SOUTH != 0 {
        assert(list[n] == shapes.south);
    }
    if bits & MASK_EAST != 0 {
        assert(list[s] == shapes.east);
    }
    if bits & MASK_WEST != 0 {
        assert(list[e] == shapes.west);
    }
    assert forall|i: int| 0 <= i < list.len() implies (#[trigger] list[i]).near() && (stands_in(
        slabs[i],
        shape,
        x,
        z,
        y,
    ) <==> list[i] == shape) by {
        assert(list[i] == shapes.north || list[i] == shapes.south || list[i] == shapes.east
            || list[i] == shapes.west);
        assert(slabs[i] == list[i].moved(x * 1000 + 500, y, z * 1000 + 500));
        lemma_moved(list[i], shape, x, y, z);
    }
    if some_stands_in(slabs, shape, x, z, y) {
        let i = choose|i: int| 0 <= i < slabs.len() && stands_in(#[trigger] slabs[i], shape, x, z, y);
        assert(list[i] == shape);
    }
    if list.contains(shape) {
        let i = choose|i: int| 0 <= i < list.len() && list[i] == shape;
        assert(stands_in(slabs[i], shape, x, z, y));
    }
}

/// A pillar stands in its corner of the cell, alone; and only walls and pillars have boxes.
pub proof fn pillars_stand_in_their_corners(
    shapes: WallShapes,
    placed: (i32, i32, i32, CellType),
    origin_x: i32,
    origin_y: i32,
    floor_height: int,
)
    requires
        shapes.near(),
        reachable(placed.2 * floor_height),
    ensures
        ({
            let slabs = placed_slabs(
                shapes,
                placed,
                origin_x as int,
                origin_y as int,
                floor_height,
            );
            let (x, z) = (origin_x + placed.0, origin_y + placed.1);
            let y = placed.2 * floor_height;
            &&& placed.3 is Corner ==> slabs.len() == 1
            &&& placed.3 == CellType::Corner(WallCorner::Nw) ==> stands_in(
                slabs[0],
                shapes.corner_nw,
                x,
                z,
                y,
            )
            &&& placed.3 == CellType::Corner(WallCorner::Ne) ==> stands_in(
                slabs[0],
                shapes.corner_ne,
                x,
                z,
                y,
            )
            &&& placed.3 == CellType::Corner(WallCorner::Sw) ==> stands_in(
                slabs[0],
                shapes.corner_sw,
                x,
                z,
                y,
            )
            &&& placed.3 == CellType::Corner(WallCorner::Se) ==> stands_in(
                slabs[0],
                shapes.corner_se,
                x,
                z,
                y,
            )
            &&& !(placed.3 is Corner) && !(placed.3 is Wall) ==> slabs.len() == 0
        }),
{
    let (x, z) = (origin_x + placed.0, origin_y + placed.1);
    let y = placed.2 * floor_height;
    if let CellType::Corner(corner) = placed.3 {
        lemma_moved(shapes.pillar(corner), shapes.pillar(corner), x, y, z);
    }
}

/// The boxes of a list of cells are those of its cells and no others.
pub proof fn walls_show_every_cell(
    shapes: WallShapes,
    cells: Seq<(i32, i32, i32, CellType)>,
    origin_x: int,
    origin_y: int,
    floor_height: int,
    slab: Slab,
)
    ensures
        wall_slabs(shapes, cells, origin_x, origin_y, floor_height).contains(slab) <==> exists|i: int|
            0 <= i < cells.len() && placed_slabs(
                shapes,
                #[trigger] cells[i],
                origin_x,
                origin_y,
                floor_height,
            ).contains(slab),
    decreases cells.len(),
{
    let all = wall_slabs(shapes, cells, origin_x, origin_y, floor_height);
    if cells.len() > 0 {
        let rest = cells.drop_last();
        let before = wall_slabs(shapes, rest, origin_x, origin_y, floor_height);
        let here = placed_slabs(shapes, cells.last(), origin_x, origin_y, floor_height);
        walls_show_every_cell(shapes, rest, origin_x, origin_y, floor_height, slab);
        if before.contains(slab) {
            let k = choose|k: int| 0 <= k < before.len() && before[k] == slab;
            assert(all[k] == slab);
            let i = choose|i: int|
                0 <= i < rest.len() && placed_slabs(
                    shapes,
                    #[trigger] rest[i],
                    origin_x,
                    origin_y,
                    floor_height,
                ).contains(slab);
            assert(cells[i] == rest[i]);
        }
        if here.contains(slab) {
            let k = choose|k: int| 0 <= k < here.len() && here[k] == slab;
            assert(all[before.len() + k] == slab);
            assert(cells[cells.len() - 1] == cells.last());
        }
        if all.contains(slab) {
            let k = choose|k: int| 0 <= k < all.len() && all[k] == slab;
            if k < before.len() {
                assert(before[k] == slab);
            } else {
                assert(here[k - before.len()] == slab);
            }
        }
        if exists|i: int|
            0 <= i < cells.len() && placed_slabs(
                shapes,
                #[trigger] cells[i],
                origin_x,
                origin_y,
                floor_height,
            ).contains(slab) {
            let i = choose|i: int|
                0 <= i < cells.len() && placed_slabs(
                    shapes,
                    #[trigger] cells[i],
                    origin_x,
                    origin_y,
                    floor_height,
                ).contains(slab);
            if i < cells.len() - 1 {
                assert(rest[i] == cells[i]);
            }
        }
    }
}

/// A floor quad covers just its cell: its corners are the corners of the square between world
/// tile `(wx, wz)` and the next one on each axis, two by two apart, all at one height, and it
/// faces up.
pub proof fn floor_quads_cover_their_cell(wx: int, wz: int, height: int)
    requires
        -0x1_0000_0000 <= wx <= 0x1_0000_0000,
        -0x1_0000_0000 <= wz <= 0x1_0000_0000,
        reachable(height),
    ensures
        ({
            let q = floor_quad(wx, wz, height);
            &&& q.a.y == height && q.b.y == height && q.c.y == height && q.d.y == height
            &&& q.a.x == 1000 * wx && q.a.z == 1000 * wz
            &&& q.c.x == q.a.x + 1000 && q.c.z == q.a.z + 1000
            &&& q.b.x == q.c.x && q.b.z == q.a.z
            &&& q.d.x == q.a.x && q.d.z == q.c.z
            &&& q.normal.x == 0 && q.normal.y > 0 && q.normal.z == 0
        }),
{
}

/// The floor of a list of cells is one quad for each cell that is not void, at the cell's own
/// place and on its own floor.
pub proof fn floors_show_every_cell(
    cells: Seq<(i32, i32, i32, CellType)>,
    origin_x: int,
    origin_y: int,
    floor_height: int,
    q: Quad,
)
    ensures
        road_quads(cells, origin_x, origin_y, floor_height).contains(q) <==> exists|i: int|
            0 <= i < cells.len() && !((#[trigger] cells[i]).3 is Void) && q == floor_quad(
                origin_x + cells[i].0,
                origin_y + cells[i].1,
                cells[i].2 * floor_height,
            ),
        road_quads(cells, origin_x, origin_y, floor_height).len() == cells.filter(
            |c: (i32, i32, i32, CellType)| !(c.3 is Void),
        ).len(),
    decreases cells.len(),
{
    reveal(Seq::filter);
    let all = road_quads(cells, origin_x, origin_y, floor_height);
    if cells.len() > 0 {
        let rest = cells.drop_last();
        let before = road_quads(rest, origin_x, origin_y, floor_height);
        floors_show_every_cell(rest, origin_x, origin_y, floor_height, q);
        let last = cells.last();
        let here = floor_quad(origin_x + last.0, origin_y + last.1, last.2 * floor_height);
        if before.contains(q) {
            let k = choose|k: int| 0 <= k < before.len() && before[k] == q;
            assert(all[k] == q);
            let i = choose|i: int|
                0 <= i < rest.len() && !((#[trigger] rest[i]).3 is Void) && q == floor_quad(
                    origin_x + rest[i].0,
                    origin_y + rest[i].1,
                    rest[i].2 * floor_height,
                );
            assert(cells[i] == rest[i]);
        }
        if !(last.3 is Void) {
            assert(all[before.len() as int] == here);
            assert(cells[cells.len() - 1] == last);
        }
        if all.contains(q) {
            let k = choose|k: int| 0 <= k < all.len() && all[k] == q;
            if k < before.len() {
                assert(before[k] == q);
            }
        }
        if exists|i: int|
            0 <= i < cells.len() && !((#[trigger] cells[i]).3 is Void) && q == floor_quad(
                origin_x + cells[i].0,
                origin_y + cells[i].1,
                cells[i].2 * floor_height,
            ) {
            let i = choose|i: int|
                0 <= i < cells.len() && !((#[trigger] cells[i]).3 is Void) && q == floor_quad(
                    origin_x + cells[i].0,
                    origin_y + cells[i].1,
                    cells[i].2 * floor_height,
                );
            if i < cells.len() - 1 {
                assert(rest[i] == cells[i]);
            }
        }
    }
}

/// Whether the point is a corner of the box.
pub open spec fn corner_of(slab: Slab, p: Point3) -> bool {
    &&& p.x == slab.center.x - slab.half.x || p.x == slab.center.x + slab.half.x
    &&& p.y == slab.center.y - slab.half.y || p.y == slab.center.y + slab.half.y
    &&& p.z == slab.center.z - slab.half.z || p.z == slab.center.z + slab.half.z
}

/// Whether the point lies on that face of the box which looks in the given direction.
pub open spec fn on_face(slab: Slab, normal: Point3, p: Point3) -> bool {
    &&& normal.x != 0 ==> p.x == slab.center.x + normal.x * slab.half.x
    &&& normal.y != 0 ==> p.y == slab.center.y + normal.y * slab.half.y
    &&& normal.z != 0 ==> p.z == slab.center.z + normal.z * slab.half.z
}

/// Whether the direction runs along one axis, one step either way.
pub open spec fn along_an_axis(n: Point3) -> bool {
    ||| n.y == 0 && n.z == 0 && (n.x == 1 || n.x == -1)
    ||| n.x == 0 && n.z == 0 && (n.y == 1 || n.y == -1)
    ||| n.x == 0 && n.y == 0 && (n.z == 1 || n.z == -1)
}

/// A box has one side for each of the six directions; the corners of a side are four different
/// corners of the box, all on the face that looks in its direction.
pub proof fn boxes_are_closed(slab: Slab)
    requires
        slab.fits(),
        slab.half.x > 0,
        slab.half.y > 0,
        slab.half.z > 0,
    ensures
        slab.sides().len() == 6,
        forall|i: int, j: int|
            0 <= i < j < 6 ==> (#[trigger] slab.sides()[i]).normal != (
            #[trigger] slab.sides()[j]).normal,
        forall|i: int|
            0 <= i < 6 ==> {
                let q = #[trigger] slab.sides()[i];
                &&& along_an_axis(q.normal)
                &&& corner_of(slab, q.a) && on_face(slab, q.normal, q.a)
                &&& corner_of(slab, q.b) && on_face(slab, q.normal, q.b)
                &&& corner_of(slab, q.c) && on_face(slab, q.normal, q.c)
                &&& corner_of(slab, q.d) && on_face(slab, q.normal, q.d)
                &&& q.a != q.b && q.a != q.c && q.a != q.d && q.b != q.c && q.b != q.d && q.c != q.d
            },
{
    let s = slab.sides();
    assert(s.len() == 6);
    assert(s[0].normal == Point3 { x: 0, y: 1, z: 0 });
    assert(s[1].normal == Point3 { x: 0, y: (-1) as i64, z: 0 });
    assert(s[2].normal == Point3 { x: 1, y: 0, z: 0 });
    assert(s[3].normal == Point3 { x: (-1) as i64, y: 0, z: 0 });
    assert(s[4].normal == Point3 { x: 0, y: 0, z: 1 });
    assert(s[5].normal == Point3 { x: 0, y: 0, z: (-1) as i64 });
    assert forall|i: int| 0 <= i < 6 implies {
        let q = #[trigger] slab.sides()[i];
        &&& along_an_axis(q.normal)
        &&& corner_of(slab, q.a) && on_face(slab, q.normal, q.a)
        &&& corner_of(slab, q.b) && on_face(slab, q.normal, q.b)
        &&& corner_of(slab, q.c) && on_face(slab, q.normal, q.c)
        &&& corner_of(slab, q.d) && on_face(slab, q.normal, q.d)
        &&& q.a != q.b && q.a != q.c && q.a != q.d && q.b != q.c && q.b != q.d && q.c != q.d
    } by {
        let q = s[i];
        if i == 0 {
        } else if i == 1 {
        } else if i == 2 {
        } else if i == 3 {
        } else if i == 4 {
        } else {
        }
    }
}

/// The wall mesh shows the six sides of every box, box after box.
pub proof fn meshes_show_every_side(slabs: Seq<Slab>, i: int, side: int)
    requires
        0 <= i < slabs.len(),
        0 <= side < 6,
    ensures
        slab_quads(slabs).len() == 6 * slabs.len(),
        slab_quads(slabs)[6 * i + side] == slabs[i].sides()[side],
    decreases slabs.len(),
{
    let rest = slabs.drop_last();
    if slabs.len() == 1 {
        assert(slab_quads(rest).len() == 0);
    } else if i < slabs.len() - 1 {
        meshes_show_every_side(rest, i, side);
    } else {
        meshes_show_every_side(rest, 0, side);
    }
}

/// The part along a direction of the cross product of two edges of a triangle: positive where
/// the triangle runs counter-clockwise as seen from that direction.
pub open spec fn turn(p: Point3, q: Point3, r: Point3, n: Point3) -> int {
    let (ux, uy, uz) = (q.x - p.x, q.y - p.y, q.z - p.z);
    let (vx, vy, vz) = (r.x - p.x, r.y - p.y, r.z - p.z);
    n.x * (uy * vz - uz * vy) + n.y * (uz * vx - ux * vz) + n.z * (ux * vy - uy * vx)
}

/// Whether opposite edges of the quad are alike.
pub open spec fn straight(q: Quad) -> bool {
    &&& q.a.x + q.c.x == q.b.x + q.d.x
    &&& q.a.y + q.c.y == q.b.y + q.d.y
    &&& q.a.z + q.c.z == q.b.z + q.d.z
}

proof fn lemma_other_half(q: Quad)
    requires
        straight(q),
    ensures
        turn(q.a, q.d, q.c, q.normal) == winding(q),
        turn(q.a, q.c, q.b, q.normal) == winding(q),
{
    let (ux, uy, uz) = (q.c.x - q.a.x, q.c.y - q.a.y, q.c.z - q.a.z);
    let (vx, vy, vz) = (q.b.x - q.a.x, q.b.y - q.a.y, q.b.z - q.a.z);
    assert(q.d.x - q.a.x == ux - vx && q.d.y - q.a.y == uy - vy && q.d.z - q.a.z == uz - vz);
    lemma_half(uy, uz, vy, vz);
    lemma_half(uz, ux, vz, vx);
    lemma_half(ux, uy, vx, vy);
}

proof fn lemma_half(u: int, w: int, v: int, t: int)
    by (nonlinear_arith)
    ensures
        (u - v) * w - (w - t) * u == u * t - w * v,
{
}

/// The triangles of a mesh face the way their vertices say: the three corners that any three
/// indices of a quad name run counter-clockwise as seen from where the quad faces, and all of
/// them carry the quad's direction.
pub proof fn triangles_face_their_normal(mesh: MeshBuffers, quads: Seq<Quad>, k: int)
    requires
        mesh.shows(quads),
        0 <= k < quads.len(),
        straight(quads[k]),
        winding(quads[k]) > 0,
    ensures
        ({
            let at = |i: int| mesh.positions@[mesh.indices@[6 * k + i] as int];
            let n = quads[k].normal;
            &&& turn(at(0), at(1), at(2), n) > 0
            &&& turn(at(3), at(4), at(5), n) > 0
            &&& mesh.normals@[mesh.indices@[6 * k] as int] == n
            &&& mesh.normals@[mesh.indices@[6 * k + 1] as int] == n
            &&& mesh.normals@[mesh.indices@[6 * k + 2] as int] == n
            &&& mesh.normals@[mesh.indices@[6 * k + 4] as int] == n
        }),
{
    let q = quads[k];
    lemma_other_half(q);
    assert((6 * k + 0) / 6 == k && (6 * k + 0) % 6 == 0);
    assert((6 * k + 1) / 6 == k && (6 * k + 1) % 6 == 1);
    assert((6 * k + 2) / 6 == k && (6 * k + 2) % 6 == 2);
    assert((6 * k + 3) / 6 == k && (6 * k + 3) % 6 == 3);
    assert((6 * k + 4) / 6 == k && (6 * k + 4) % 6 == 4);
    assert((6 * k + 5) / 6 == k && (6 * k + 5) % 6 == 5);
    assert(mesh.indices@[6 * k + 0] == 4 * k && mesh.indices@[6 * k + 3] == 4 * k);
    assert(mesh.indices@[6 * k + 1] == 4 * k + 2 && mesh.indices@[6 * k + 5] == 4 * k + 2);
    assert(mesh.indices@[6 * k + 2] == 4 * k + 1);
    assert(mesh.indices@[6 * k + 4] == 4 * k + 3);
    assert((4 * k) / 4 == k && (4 * k) % 4 == 0);
    assert((4 * k + 1) / 4 == k && (4 * k + 1) % 4 == 1);
    assert((4 * k + 2) / 4 == k && (4 * k + 2) % 4 == 2);
    assert((4 * k + 3) / 4 == k && (4 * k + 3) % 4 == 3);
    assert(mesh.positions@[4 * k] == q.a);
    assert(mesh.positions@[4 * k + 1] == q.b);
    assert(mesh.positions@[4 * k + 2] == q.c);
    assert(mesh.positions@[4 * k + 3] == q.d);
}

/// Textures lie straight on the floor: across a floor quad the texture runs from its start to
/// its end with the columns and with the rows of the world.
pub proof fn floor_textures_lie_straight(
    mesh: MeshBuffers,
    quads: Seq<Quad>,
    k: int,
    wx: int,
    wz: int,
    height: int,
    i: int,
)
    requires
        mesh.shows(quads),
        0 <= k < quads.len(),
        quads[k] == floor_quad(wx, wz, height),
        -0x1_0000_0000 <= wx <= 0x1_0000_0000,
        -0x1_0000_0000 <= wz <= 0x1_0000_0000,
        0 <= i < 4,
    ensures
        mesh.positions@[4 * k + i].x == 1000 * (wx + mesh.uvs@[4 * k + i].u),
        mesh.positions@[4 * k + i].z == 1000 * (wz + mesh.uvs@[4 * k + i].v),
{
    assert((4 * k + i) / 4 == k && (4 * k + i) % 4 == i);
}

/// Ground-floor cells are drawn at their own place, on floor zero.
pub proof fn ground_cells_lie_on_the_ground(cells: Seq<(i32, i32, CellType)>, i: int)
    requires
        0 <= i < cells.len(),
    ensures
        on_ground(cells).len() == cells.len(),
        on_ground(cells)[i] == (cells[i].0, cells[i].1, 0i32, cells[i].2),
{
}

} // verus!
