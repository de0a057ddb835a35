//! Vertex buffers of the chunk meshes: floor quads and wall boxes.
//!
//! Positions are in thousandths of a tile.
use vstd::prelude::*;

use crate::map::world_map::{
    CellType, WallCorner, MASK_EAST, MASK_NORTH, MASK_SOUTH, MASK_WEST,
};

verus! {

/// A place or a direction in space.
#[derive(Debug, Clone, Copy, PartialEq, Eq, Structural)]
pub struct Point3 {
    pub x: i64,
    pub y: i64,
    pub z: i64,
}

/// Corners of a texture.
#[derive(Debug, Clone, Copy, PartialEq, Eq, Structural)]
pub struct TextureCorner {
    pub u: u8,
    pub v: u8,
}

/// Four corners in a row round the quad, and the direction that it faces.
#[derive(Debug, Clone, Copy, PartialEq, Eq, Structural)]
pub struct Quad {
    pub a: Point3,
    pub b: Point3,
    pub c: Point3,
    pub d: Point3,
    pub normal: Point3,
}

/// What a renderer takes: vertices, and three indices per triangle.
#[derive(Debug)]
pub struct MeshBuffers {
    pub positions: Vec<Point3>,
    pub normals: Vec<Point3>,
    pub uvs: Vec<TextureCorner>,
    pub indices: Vec<u32>,
}

/// The texture corner of a quad's `i`th corner.
pub open spec fn corner_uv(i: int) -> TextureCorner {
    if i == 0 {
        TextureCorner { u: 0, v: 0 }
    } else if i == 1 {
        TextureCorner { u: 1, v: 0 }
    } else if i == 2 {
        TextureCorner { u: 1, v: 1 }
    } else {
        TextureCorner { u: 0, v: 1 }
    }
}

/// A quad's `i`th corner.
pub open spec fn corner(q: Quad, i: int) -> Point3 {
    if i == 0 {
        q.a
    } else if i == 1 {
        q.b
    } else if i == 2 {
        q.c
    } else {
        q.d
    }
}

/// Which corner the `i`th index of a quad names: the triangles are a, c, b and a, d, c.
pub open spec fn corner_of_index(i: int) -> int {
    if i == 0 || i == 3 {
        0
    } else if i == 2 {
        1
    } else if i == 4 {
        3
    } else {
        2
    }
}

impl MeshBuffers {
    /// The buffers hold these quads, in this order, and nothing else.
    pub open spec fn shows(self, quads: Seq<Quad>) -> bool {
        &&& self.positions@.len() == 4 * quads.len()
        &&& self.normals@.len() == 4 * quads.len()
        &&& self.uvs@.len() == 4 * quads.len()
        &&& self.indices@.len() == 6 * quads.len()
        &&& forall|i: int|
            0 <= i < 4 * quads.len() ==> #[trigger] self.positions@[i] == corner(
                quads[i / 4],
                i % 4,
            )
        &&& forall|i: int|
            0 <= i < 4 * quads.len() ==> #[trigger] self.normals@[i] == quads[i / 4].normal
        &&& forall|i: int| 0 <= i < 4 * quads.len() ==> #[trigger] self.uvs@[i] == corner_uv(i % 4)
        &&& forall|i: int|
            0 <= i < 6 * quads.len() ==> #[trigger] self.indices@[i] == 4 * (i / 6)
                + corner_of_index(i % 6)
    }

    pub fn new() -> (mesh: Self)
        ensures
            mesh.shows(seq![]),
    {
        MeshBuffers {
            positions: Vec::new(),
            normals: Vec::new(),
            uvs: Vec::new(),
            indices: Vec::new(),
        }
    }

    /// Every index names a vertex.
    pub proof fn indices_name_vertices(self, quads: Seq<Quad>)
        requires
            self.shows(quads),
        ensures
            forall|i: int|
                0 <= i < self.indices@.len() ==> #[trigger] self.indices@[i]
                    < self.positions@.len(),
    {
        assert forall|i: int| 0 <= i < self.indices@.len() implies #[trigger] self.indices@[i]
            < self.positions@.len() by {
            assert(i / 6 < quads.len());
        }
    }
}

/// Adds a quad as four vertices and two triangles.
pub fn append_quad(mesh: &mut MeshBuffers, q: Quad)
    requires
        old(mesh).positions@.len() + 4 <= u32::MAX,
    ensures
        final(mesh).positions@.len() == old(mesh).positions@.len() + 4,
        forall|quads: Seq<Quad>| #[trigger]
            old(mesh).shows(quads) ==> final(mesh).shows(quads.push(q)),
{
    let ghost before = *mesh;
    let base: u32 = mesh.positions.len() as u32;
    mesh.positions.push(q.a);
    mesh.positions.push(q.b);
    mesh.positions.push(q.c);
    mesh.positions.push(q.d);
    mesh.normals.push(q.normal);
    mesh.normals.push(q.normal);
    mesh.normals.push(q.normal);
    mesh.normals.push(q.normal);
    mesh.uvs.push(TextureCorner { u: 0, v: 0 });
    mesh.uvs.push(TextureCorner { u: 1, v: 0 });
    mesh.uvs.push(TextureCorner { u: 1, v: 1 });
    mesh.uvs.push(TextureCorner { u: 0, v: 1 });
    mesh.indices.push(base);
    mesh.indices.push(base + 2);
    mesh.indices.push(base + 1);
    mesh.indices.push(base);
    mesh.indices.push(base + 3);
    mesh.indices.push(base + 2);
    proof {
        assert forall|quads: Seq<Quad>| #[trigger] before.shows(quads) implies mesh.shows(
            quads.push(q),
        ) by {
            let n = quads.len() as int;
            let all = quads.push(q);
            assert forall|i: int| 0 <= i < 4 * all.len() implies #[trigger] mesh.positions@[i]
                == corner(all[i / 4], i % 4) by {
                if i < 4 * n {
                    assert(mesh.positions@[i] == before.positions@[i]);
                    assert(all[i / 4] == quads[i / 4]);
                } else {
                    assert(i / 4 == n);
                    assert(all[n] == q);
                }
            }
            assert forall|i: int| 0 <= i < 4 * all.len() implies #[trigger] mesh.normals@[i]
                == all[i / 4].normal by {
                if i < 4 * n {
                    assert(mesh.normals@[i] == before.normals@[i]);
                    assert(all[i / 4] == quads[i / 4]);
                } else {
                    assert(i / 4 == n);
                    assert(all[n] == q);
                }
            }
            assert forall|i: int| 0 <= i < 4 * all.len() implies #[trigger] mesh.uvs@[i]
                == corner_uv(i % 4) by {
                if i < 4 * n {
                    assert(mesh.uvs@[i] == before.uvs@[i]);
                } else {
                    assert(i % 4 == i - 4 * n);
                }
            }
            assert forall|i: int| 0 <= i < 6 * all.len() implies #[trigger] mesh.indices@[i] == 4
                * (i / 6) + corner_of_index(i % 6) by {
                if i < 6 * n {
                    assert(mesh.indices@[i] == before.indices@[i]);
                } else {
                    assert(i / 6 == n && i % 6 == i - 6 * n);
                }
            }
        }
    }
}

/// The floor quad of a cell: one tile wide, facing up.
pub open spec fn floor_quad(wx: int, wz: int, height: int) -> Quad {
    let (x0, z0, x1, z1) = (wx * 1000, wz * 1000, (wx + 1) * 1000, (wz + 1) * 1000);
    Quad {
        a: Point3 { x: x0 as i64, y: height as i64, z: z0 as i64 },
        b: Point3 { x: x1 as i64, y: height as i64, z: z0 as i64 },
        c: Point3 { x: x1 as i64, y: height as i64, z: z1 as i64 },
        d: Point3 { x: x0 as i64, y: height as i64, z: z1 as i64 },
        normal: Point3 { x: 0, y: 1, z: 0 },
    }
}

/// The floor quads of the cells that are not void.
pub open spec fn road_quads(
    cells: Seq<(i32, i32, i32, CellType)>,
    origin_x: int,
    origin_y: int,
    floor_height: int,
) -> Seq<Quad>
    decreases cells.len(),
{
    if cells.len() == 0 {
        seq![]
    } else {
        let before = road_quads(cells.drop_last(), origin_x, origin_y, floor_height);
        let (x, y, floor, cell) = cells.last();
        if cell is Void {
            before
        } else {
            before.push(floor_quad(origin_x + x, origin_y + y, floor * floor_height))
        }
    }
}

/// Builds the floor mesh of cells on any floor; floors are `floor_height` thousandths apart.
/// Nothing is built where there is nothing to draw.
pub fn build_upper_road_mesh(
    cells: &Vec<(i32, i32, i32, CellType)>,
    origin_x: i32,
    origin_y: i32,
    floor_height: u32,
) -> (mesh: Option<MeshBuffers>)
    requires
        cells@.len() <= 0x3fff_ffff,
    ensures
        mesh is None <==> road_quads(
            cells@,
            origin_x as int,
            origin_y as int,
            floor_height as int,
        ).len() == 0,
        mesh matches Some(m) ==> m.shows(
            road_quads(cells@, origin_x as int, origin_y as int, floor_height as int),
        ),
{
    let mut mesh = MeshBuffers::new();
    let mut i: usize = 0;
    while i < cells.len()
        invariant
            i <= cells@.len() <= 0x3fff_ffff,
            mesh.positions@.len() <= 4 * i,
            mesh.shows(
                road_quads(
                    cells@.take(i as int),
                    origin_x as int,
                    origin_y as int,
                    floor_height as int,
                ),
            ),
        decreases cells@.len() - i,
    {
        assert(cells@.take(i + 1).drop_last() =~= cells@.take(i as int));
        let (x, y, floor, cell) = cells[i];
        if !matches!(cell, CellType::Void) {
            let wx: i64 = origin_x as i64 + x as i64;
            let wz: i64 = origin_y as i64 + y as i64;
            proof {
                assert(-0x8000_0000_0000_0000 <= floor * floor_height <= 0x7fff_ffff_ffff_ffff)
                    by (nonlinear_arith)
                    requires
                        -0x8000_0000 <= floor <= 0x7fff_ffff,
                        0 <= floor_height <= 0xffff_ffff,
                ;
            }
            let height: i64 = floor as i64 * floor_height as i64;
            let (x0, z0, x1, z1): (i64, i64, i64, i64) = (
                wx * 1000,
                wz * 1000,
                (wx + 1) * 1000,
                (wz + 1) * 1000,
            );
            let q = Quad {
                a: Point3 { x: x0, y: height, z: z0 },
                b: Point3 { x: x1, y: height, z: z0 },
                c: Point3 { x: x1, y: height, z: z1 },
                d: Point3 { x: x0, y: height, z: z1 },
                normal: Point3 { x: 0, y: 1, z: 0 },
            };
            append_quad(&mut mesh, q);
        }
        i += 1;
    }
    assert(cells@.take(i as int) =~= cells@);
    if mesh.positions.len() == 0 {
        return None;
    }
    Some(mesh)
}

/// Ground-floor cells as cells of floor 0.
pub open spec fn on_ground(cells: Seq<(i32, i32, CellType)>) -> Seq<(i32, i32, i32, CellType)> {
    cells.map_values(|c: (i32, i32, CellType)| (c.0, c.1, 0i32, c.2))
}

fn ground_floor(cells: &Vec<(i32, i32, CellType)>) -> (upper: Vec<(i32, i32, i32, CellType)>)
    ensures
        upper@ == on_ground(cells@),
{
    let mut upper: Vec<(i32, i32, i32, CellType)> = Vec::with_capacity(cells.len());
    let mut i: usize = 0;
    while i < cells.len()
        invariant
            i <= cells@.len(),
            upper@ == on_ground(cells@.take(i as int)),
        decreases cells@.len() - i,
    {
        let (x, y, cell) = cells[i];
        upper.push((x, y, 0, cell));
        i += 1;
        assert(upper@ =~= on_ground(cells@.take(i as int)));
    }
    assert(cells@.take(i as int) =~= cells@);
    upper
}

/// Builds the floor mesh of ground-floor cells.
pub fn build_floor0_road_mesh(
    cells: &Vec<(i32, i32, CellType)>,
    origin_x: i32,
    origin_y: i32,
) -> (mesh: Option<MeshBuffers>)
    requires
        cells@.len() <= 0x3fff_ffff,
    ensures
        mesh is None <==> road_quads(
            on_ground(cells@),
            origin_x as int,
            origin_y as int,
            0,
        ).len() == 0,
        mesh matches Some(m) ==> m.shows(
            road_quads(on_ground(cells@), origin_x as int, origin_y as int, 0),
        ),
{
    build_upper_road_mesh(&ground_floor(cells), origin_x, origin_y, 0)
}

/// A box given by its center and half of its extent on each axis.
#[derive(Debug, Clone, Copy, PartialEq, Eq, Structural)]
pub struct Slab {
    pub center: Point3,
    pub half: Point3,
}

impl Slab {
    /// The box lies within reach of the coordinates.
    pub open spec fn fits(self) -> bool {
        let far: int = 0x4000_0000_0000_0000;
        &&& -far <= self.center.x <= far && -far <= self.center.y <= far && -far
            <= self.center.z <= far
        &&& 0 <= self.half.x < far && 0 <= self.half.y < far && 0 <= self.half.z < far
    }

    /// A corner of the box; each sign is 1 or -1.
    pub open spec fn corner(self, sx: int, sy: int, sz: int) -> Point3 {
        Point3 {
            x: (self.center.x + sx * self.half.x) as i64,
            y: (self.center.y + sy * self.half.y) as i64,
            z: (self.center.z + sz * self.half.z) as i64,
        }
    }

    /// The sides of the box: top, bottom, and the four around.
    pub open spec fn sides(self) -> Seq<Quad> {
        seq![
            Quad {
                a: self.corner(-1, 1, -1),
                b: self.corner(1, 1, -1),
                c: self.corner(1, 1, 1),
                d: self.corner(-1, 1, 1),
                normal: Point3 { x: 0, y: 1, z: 0 },
            },
            Quad {
                a: self.corner(-1, -1, 1),
                b: self.corner(1, -1, 1),
                c: self.corner(1, -1, -1),
                d: self.corner(-1, -1, -1),
                normal: Point3 { x: 0, y: (-1) as i64, z: 0 },
            },
            Quad {
                a: self.corner(1, -1, -1),
                b: self.corner(1, -1, 1),
                c: self.corner(1, 1, 1),
                d: self.corner(1, 1, -1),
                normal: Point3 { x: 1, y: 0, z: 0 },
            },
            Quad {
                a: self.corner(-1, -1, 1),
                b: self.corner(-1, -1, -1),
                c: self.corner(-1, 1, -1),
                d: self.corner(-1, 1, 1),
                normal: Point3 { x: (-1) as i64, y: 0, z: 0 },
            },
            Quad {
                a: self.corner(1, -1, 1),
                b: self.corner(-1, -1, 1),
                c: self.corner(-1, 1, 1),
                d: self.corner(1, 1, 1),
                normal: Point3 { x: 0, y: 0, z: 1 },
            },
            Quad {
                a: self.corner(-1, -1, -1),
                b: self.corner(1, -1, -1),
                c: self.corner(1, 1, -1),
                d: self.corner(-1, 1, -1),
                normal: Point3 { x: 0, y: 0, z: (-1) as i64 },
            },
        ]
    }
}

/// Adds the six sides of a box.
pub fn append_box(mesh: &mut MeshBuffers, slab: &Slab)
    requires
        old(mesh).positions@.len() + 24 <= u32::MAX,
        slab.fits(),
    ensures
        final(mesh).positions@.len() == old(mesh).positions@.len() + 24,
        forall|quads: Seq<Quad>| #[trigger]
            old(mesh).shows(quads) ==> final(mesh).shows(quads + slab.sides()),
{
    let ghost before = *mesh;
    let (x0, x1): (i64, i64) = (slab.center.x - slab.half.x, slab.center.x + slab.half.x);
    let (y0, y1): (i64, i64) = (slab.center.y - slab.half.y, slab.center.y + slab.half.y);
    let (z0, z1): (i64, i64) = (slab.center.z - slab.half.z, slab.center.z + slab.half.z);
    let top = Quad {
        a: Point3 { x: x0, y: y1, z: z0 },
        b: Point3 { x: x1, y: y1, z: z0 },
        c: Point3 { x: x1, y: y1, z: z1 },
        d: Point3 { x: x0, y: y1, z: z1 },
        normal: Point3 { x: 0, y: 1, z: 0 },
    };
    let bottom = Quad {
        a: Point3 { x: x0, y: y0, z: z1 },
        b: Point3 { x: x1, y: y0, z: z1 },
        c: Point3 { x: x1, y: y0, z: z0 },
        d: Point3 { x: x0, y: y0, z: z0 },
        normal: Point3 { x: 0, y: -1, z: 0 },
    };
    let east = Quad {
        a: Point3 { x: x1, y: y0, z: z0 },
        b: Point3 { x: x1, y: y0, z: z1 },
        c: Point3 { x: x1, y: y1, z: z1 },
        d: Point3 { x: x1, y: y1, z: z0 },
        normal: Point3 { x: 1, y: 0, z: 0 },
    };
    let west = Quad {
        a: Point3 { x: x0, y: y0, z: z1 },
        b: Point3 { x: x0, y: y0, z: z0 },
        c: Point3 { x: x0, y: y1, z: z0 },
        d: Point3 { x: x0, y: y1, z: z1 },
        normal: Point3 { x: -1, y: 0, z: 0 },
    };
    let south = Quad {
        a: Point3 { x: x1, y: y0, z: z1 },
        b: Point3 { x: x0, y: y0, z: z1 },
        c: Point3 { x: x0, y: y1, z: z1 },
        d: Point3 { x: x1, y: y1, z: z1 },
        normal: Point3 { x: 0, y: 0, z: 1 },
    };
    let north = Quad {
        a: Point3 { x: x0, y: y0, z: z0 },
        b: Point3 { x: x1, y: y0, z: z0 },
        c: Point3 { x: x1, y: y1, z: z0 },
        d: Point3 { x: x0, y: y1, z: z0 },
        normal: Point3 { x: 0, y: 0, z: -1 },
    };
    append_quad(mesh, top);
    append_quad(mesh, bottom);
    append_quad(mesh, east);
    append_quad(mesh, west);
    append_quad(mesh, south);
    append_quad(mesh, north);
    proof {
        assert(slab.sides() =~= seq![top, bottom, east, west, south, north]);
        assert forall|quads: Seq<Quad>| #[trigger] before.shows(quads) implies mesh.shows(
            quads + slab.sides(),
        ) by {
            assert(quads + slab.sides() =~= quads.push(top).push(bottom).push(east).push(
                west,
            ).push(south).push(north));
        }
    }
}

/// The component along the quad's normal of the cross product of the edges of its triangle
/// a, c, b: positive when the triangle runs counter-clockwise as seen from where the quad faces.
pub open spec fn winding(q: Quad) -> int {
    let (ux, uy, uz) = (q.c.x - q.a.x, q.c.y - q.a.y, q.c.z - q.a.z);
    let (vx, vy, vz) = (q.b.x - q.a.x, q.b.y - q.a.y, q.b.z - q.a.z);
    q.normal.x * (uy * vz - uz * vy) + q.normal.y * (uz * vx - ux * vz) + q.normal.z * (ux * vy
        - uy * vx)
}

/// Floor quads and all sides of a box run counter-clockwise as seen from where they face.
pub proof fn quads_face_their_normal(slab: Slab, wx: int, wz: int, height: int)
    requires
        slab.fits(),
        slab.half.x > 0,
        slab.half.y > 0,
        slab.half.z > 0,
        -0x1_0000_0000 <= wx < 0x1_0000_0000,
        -0x1_0000_0000 <= wz < 0x1_0000_0000,
    ensures
        winding(floor_quad(wx, wz, height)) > 0,
        forall|i: int| 0 <= i < 6 ==> winding(#[trigger] slab.sides()[i]) > 0,
{
    let (hx, hy, hz) = (2 * slab.half.x, 2 * slab.half.y, 2 * slab.half.z);
    assert(hx * hz > 0 && hy * hz > 0 && hy * hx > 0) by (nonlinear_arith)
        requires
            hx > 0,
            hy > 0,
            hz > 0,
    ;
    lemma_along(0, 1, 0, 1000, 0, 1000, 1000, 0, 0);
    assert forall|i: int| 0 <= i < 6 implies winding(#[trigger] slab.sides()[i]) > 0 by {
        if i == 0 {
            lemma_along(0, 1, 0, hx, 0, hz, hx, 0, 0);
        } else if i == 1 {
            lemma_along(0, -1, 0, hx, 0, -hz, hx, 0, 0);
        } else if i == 2 {
            lemma_along(1, 0, 0, 0, hy, hz, 0, 0, hz);
        } else if i == 3 {
            lemma_along(-1, 0, 0, 0, hy, -hz, 0, 0, -hz);
        } else if i == 4 {
            lemma_along(0, 0, 1, -hx, hy, 0, -hx, 0, 0);
        } else {
            lemma_along(0, 0, -1, hx, hy, 0, hx, 0, 0);
        }
    }
}

proof fn lemma_along(
    nx: int,
    ny: int,
    nz: int,
    ux: int,
    uy: int,
    uz: int,
    vx: int,
    vy: int,
    vz: int,
)
    by (nonlinear_arith)
    requires
        vy == 0,
        (nx == 0 && nz == 0 && vz == 0) || (ny == 0 && nz == 0 && ux == 0 && vx == 0) || (nx == 0
            && ny == 0 && uz == 0 && vz == 0),
    ensures
        nx * (uy * vz - uz * vy) + ny * (uz * vx - ux * vz) + nz * (ux * vy - uy * vx) == nx * (uy
            * vz) + ny * (uz * vx) - nz * (uy * vx),
        nx == 1 ==> nx * (uy * vz) == uy * vz,
        nx == -1 ==> nx * (uy * vz) == uy * (-vz),
        nx == 0 ==> nx * (uy * vz) == 0,
        ny == 1 ==> ny * (uz * vx) == vx * uz,
        ny == -1 ==> ny * (uz * vx) == vx * (-uz),
        ny == 0 ==> ny * (uz * vx) == 0,
        nz == 1 ==> nz * (uy * vx) == -(uy * (-vx)),
        nz == -1 ==> nz * (uy * vx) == -(uy * vx),
        nz == 0 ==> nz * (uy * vx) == 0,
{
}

/// The sides of all boxes.
pub open spec fn slab_quads(slabs: Seq<Slab>) -> Seq<Quad>
    decreases slabs.len(),
{
    if slabs.len() == 0 {
        seq![]
    } else {
        slab_quads(slabs.drop_last()) + slabs.last().sides()
    }
}

/// Builds the mesh of wall slabs and pillars. Nothing is built where there are none.
pub fn build_wall_mesh(slabs: &Vec<Slab>) -> (mesh: Option<MeshBuffers>)
    requires
        slabs@.len() <= 0x0a00_0000,
        forall|i: int| 0 <= i < slabs@.len() ==> (#[trigger] slabs@[i]).fits(),
    ensures
        mesh is None <==> slabs@.len() == 0,
        mesh matches Some(m) ==> m.shows(slab_quads(slabs@)),
{
    let mut mesh = MeshBuffers::new();
    let mut i: usize = 0;
    while i < slabs.len()
        invariant
            i <= slabs@.len() <= 0x0a00_0000,
            forall|k: int| 0 <= k < slabs@.len() ==> (#[trigger] slabs@[k]).fits(),
            mesh.positions@.len() == 24 * i,
            mesh.shows(slab_quads(slabs@.take(i as int))),
        decreases slabs@.len() - i,
    {
        assert(slabs@.take(i + 1).drop_last() =~= slabs@.take(i as int));
        append_box(&mut mesh, &slabs[i]);
        i += 1;
    }
    assert(slabs@.take(i as int) =~= slabs@);
    if mesh.positions.len() == 0 {
        return None;
    }
    Some(mesh)
}

/// The shapes of wall slabs and pillars, relative to the middle of a cell's floor.
#[derive(Debug, Clone, Copy, PartialEq, Eq, Structural)]
pub struct WallShapes {
    pub north: Slab,
    pub south: Slab,
    pub east: Slab,
    pub west: Slab,
    pub corner_ne: Slab,
    pub corner_nw: Slab,
    pub corner_se: Slab,
    pub corner_sw: Slab,
}

impl Slab {
    /// No more than a thousand tiles in any direction.
    pub open spec fn near(self) -> bool {
        let far: int = 1_000_000;
        &&& -far <= self.center.x <= far && -far <= self.center.y <= far && -far
            <= self.center.z <= far
        &&& 0 <= self.half.x <= far && 0 <= self.half.y <= far && 0 <= self.half.z <= far
    }

    /// The shape put in its place.
    pub open spec fn moved(self, x: int, y: int, z: int) -> Slab {
        Slab {
            center: Point3 {
                x: (self.center.x + x) as i64,
                y: (self.center.y + y) as i64,
                z: (self.center.z + z) as i64,
            },
            half: self.half,
        }
    }
}

impl WallShapes {
    pub open spec fn near(self) -> bool {
        &&& self.north.near() && self.south.near() && self.east.near() && self.west.near()
        &&& self.corner_ne.near() && self.corner_nw.near() && self.corner_se.near()
        &&& self.corner_sw.near()
    }

    /// The shape of a pillar.
    pub open spec fn pillar(self, corner: WallCorner) -> Slab {
        match corner {
            WallCorner::Ne => self.corner_ne,
            WallCorner::Nw => self.corner_nw,
            WallCorner::Se => self.corner_se,
            WallCorner::Sw => self.corner_sw,
        }
    }

    /// The shapes of a cell: a slab per edge of a wall, or a pillar.
    pub open spec fn of_cell(self, cell: CellType) -> Seq<Slab> {
        match cell {
            CellType::Wall(mask) => {
                let bits = mask.edges();
                (if bits & MASK_NORTH != 0 {
                    seq![self.north]
                } else {
                    seq![]
                }) + (if bits & MASK_SOUTH != 0 {
                    seq![self.south]
                } else {
                    seq![]
                }) + (if bits & MASK_EAST != 0 {
                    seq![self.east]
                } else {
                    seq![]
                }) + (if bits & MASK_WEST != 0 {
                    seq![self.west]
                } else {
                    seq![]
                })
            },
            CellType::Corner(corner) => seq![self.pillar(corner)],
            _ => seq![],
        }
    }
}

/// The slabs of one cell in their places.
pub open spec fn placed_slabs(
    shapes: WallShapes,
    placed: (i32, i32, i32, CellType),
    origin_x: int,
    origin_y: int,
    floor_height: int,
) -> Seq<Slab> {
    shapes.of_cell(placed.3).map_values(
        |s: Slab|
            s.moved(
                (origin_x + placed.0) * 1000 + 500,
                placed.2 * floor_height,
                (origin_y + placed.1) * 1000 + 500,
            ),
    )
}

/// The slabs of all cells in their places.
pub open spec fn wall_slabs(
    shapes: WallShapes,
    cells: Seq<(i32, i32, i32, CellType)>,
    origin_x: int,
    origin_y: int,
    floor_height: int,
) -> Seq<Slab>
    decreases cells.len(),
{
    if cells.len() == 0 {
        seq![]
    } else {
        wall_slabs(shapes, cells.drop_last(), origin_x, origin_y, floor_height) + placed_slabs(
            shapes,
            cells.last(),
            origin_x,
            origin_y,
            floor_height,
        )
    }
}

fn push_moved(slabs: &mut Vec<Slab>, shape: &Slab, x: i64, y: i64, z: i64)
    requires
        shape.near(),
        -0x1000_0000_0000_0000 <= x <= 0x1000_0000_0000_0000,
        -0x1000_0000_0000_0000 <= y <= 0x1000_0000_0000_0000,
        -0x1000_0000_0000_0000 <= z <= 0x1000_0000_0000_0000,
        forall|i: int| 0 <= i < old(slabs)@.len() ==> (#[trigger] old(slabs)@[i]).fits(),
    ensures
        final(slabs)@ == old(slabs)@.push(shape.moved(x as int, y as int, z as int)),
        forall|i: int| 0 <= i < final(slabs)@.len() ==> (#[trigger] final(slabs)@[i]).fits(),
{
    slabs.push(
        Slab {
            center: Point3 {
                x: shape.center.x + x,
                y: shape.center.y + y,
                z: shape.center.z + z,
            },
            half: shape.half,
        },
    );
}

fn push_cell_slabs(
    slabs: &mut Vec<Slab>,
    shapes: &WallShapes,
    placed: (i32, i32, i32, CellType),
    origin_x: i32,
    origin_y: i32,
    floor_height: u32,
)
    requires
        shapes.near(),
        floor_height <= 1_000_000,
        forall|i: int| 0 <= i < old(slabs)@.len() ==> (#[trigger] old(slabs)@[i]).fits(),
    ensures
        final(slabs)@ == old(slabs)@ + placed_slabs(
            *shapes,
            placed,
            origin_x as int,
            origin_y as int,
            floor_height as int,
        ),
        forall|i: int| 0 <= i < final(slabs)@.len() ==> (#[trigger] final(slabs)@[i]).fits(),
        final(slabs)@.len() <= old(slabs)@.len() + 4,
{
    let x: i64 = (origin_x as i64 + placed.0 as i64) * 1000 + 500;
    let z: i64 = (origin_y as i64 + placed.1 as i64) * 1000 + 500;
    proof {
        assert(-0x80_0000_0000_0000 <= placed.2 * floor_height <= 0x80_0000_0000_0000)
            by (nonlinear_arith)
            requires
                -0x8000_0000 <= placed.2 <= 0x7fff_ffff,
                0 <= floor_height <= 1_000_000,
        ;
    }
    let y: i64 = placed.2 as i64 * floor_height as i64;
    match placed.3 {
        CellType::Wall(mask) => {
            let bits: u8 = mask.bits();
            if bits & MASK_NORTH != 0 {
                push_moved(slabs, &shapes.north, x, y, z);
            }
            if bits & MASK_SOUTH != 0 {
                push_moved(slabs, &shapes.south, x, y, z);
            }
            if bits & MASK_EAST != 0 {
                push_moved(slabs, &shapes.east, x, y, z);
            }
            if bits & MASK_WEST != 0 {
                push_moved(slabs, &shapes.west, x, y, z);
            }
        },
        CellType::Corner(corner) => {
            let pillar: &Slab = match corner {
                WallCorner::Ne => &shapes.corner_ne,
                WallCorner::Nw => &shapes.corner_nw,
                WallCorner::Se => &shapes.corner_se,
                WallCorner::Sw => &shapes.corner_sw,
            };
            push_moved(slabs, pillar, x, y, z);
        },
        _ => {},
    }
    assert(slabs@ =~= old(slabs)@ + placed_slabs(
        *shapes,
        placed,
        origin_x as int,
        origin_y as int,
        floor_height as int,
    ));
}

/// Builds the mesh of the walls and pillars of cells on any floor; floors are `floor_height`
/// thousandths apart. Nothing is built where there are none.
pub fn build_upper_wall_mesh(
    shapes: &WallShapes,
    cells: &Vec<(i32, i32, i32, CellType)>,
    origin_x: i32,
    origin_y: i32,
    floor_height: u32,
) -> (mesh: Option<MeshBuffers>)
    requires
        shapes.near(),
        floor_height <= 1_000_000,
        cells@.len() <= 0x0280_0000,
    ensures
        mesh is None <==> wall_slabs(
            *shapes,
            cells@,
            origin_x as int,
            origin_y as int,
            floor_height as int,
        ).len() == 0,
        mesh matches Some(m) ==> m.shows(
            slab_quads(
                wall_slabs(
                    *shapes,
                    cells@,
                    origin_x as int,
                    origin_y as int,
                    floor_height as int,
                ),
            ),
        ),
{
    let mut slabs: Vec<Slab> = Vec::new();
    let mut i: usize = 0;
    while i < cells.len()
        invariant
            i <= cells@.len() <= 0x0280_0000,
            shapes.near(),
            floor_height <= 1_000_000,
            slabs@.len() <= 4 * i,
            forall|k: int| 0 <= k < slabs@.len() ==> (#[trigger] slabs@[k]).fits(),
            slabs@ == wall_slabs(
                *shapes,
                cells@.take(i as int),
                origin_x as int,
                origin_y as int,
                floor_height as int,
            ),
        decreases cells@.len() - i,
    {
        assert(cells@.take(i + 1).drop_last() =~= cells@.take(i as int));
        push_cell_slabs(&mut slabs, shapes, cells[i], origin_x, origin_y, floor_height);
        i += 1;
    }
    assert(cells@.take(i as int) =~= cells@);
    build_wall_mesh(&slabs)
}

/// Builds the mesh of the walls and pillars of ground-floor cells.
pub fn build_floor0_wall_mesh(
    shapes: &WallShapes,
    cells: &Vec<(i32, i32, CellType)>,
    origin_x: i32,
    origin_y: i32,
) -> (mesh: Option<MeshBuffers>)
    requires
        shapes.near(),
        cells@.len() <= 0x0280_0000,
    ensures
        mesh is None <==> wall_slabs(
            *shapes,
            on_ground(cells@),
            origin_x as int,
            origin_y as int,
            0,
        ).len() == 0,
        mesh matches Some(m) ==> m.shows(
            slab_quads(
                wall_slabs(*shapes, on_ground(cells@), origin_x as int, origin_y as int, 0),
            ),
        ),
{
    build_upper_wall_mesh(shapes, &ground_floor(cells), origin_x, origin_y, 0)
}

} // verus!
