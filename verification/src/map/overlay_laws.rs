//! What the overlays and the ground show and record whatever stands on them.
use vstd::prelude::*;

use crate::hud::subtile_debug::{debug_color, flags_near, grid_texel};
use crate::map::cell_occupancy::{distance2, reach2, ActorReport, BotKinematics, CellOccupancy};
use crate::map::chunk_overlay::{
    chunks_without_overlay, flags_under, occupancy_at, occupancy_color, planes_gone, texel,
    OverlayPlane,
};
use crate::map::dirt_overlay::named_in;
use crate::map::field_interactions::{
    exchanged, heated, tile_of, tiles_left, ActorPlace, MainTileTransition,
};
use crate::map::hypermap::{ChunkCoord, Hypermap, LocalCoord};
use crate::map::passability::{SubtilePassability, FLAG_BLOCKED, FLAG_CREATURE, FLAG_VOID};
use crate::map::world_map::CellType;

verus! {

/// A subtile has one of four colours, and the colour tells what is there: bodies are shown
/// before walls, walls before void, and only passable ground is transparent.
pub proof fn colours_tell_what_is_there(flags: u64, other: u64)
    ensures
        occupancy_color(flags).len() == 4,
        occupancy_color(flags)[3] == 0 <==> flags & FLAG_CREATURE == 0 && flags & FLAG_BLOCKED == 0
            && flags & FLAG_VOID == 0,
        flags & FLAG_CREATURE != 0 && other & FLAG_CREATURE == 0 ==> occupancy_color(flags)
            != occupancy_color(other) && debug_color(flags) != debug_color(other),
        flags & FLAG_CREATURE == 0 && other & FLAG_CREATURE == 0 && flags & FLAG_BLOCKED != 0 && other
            & FLAG_BLOCKED == 0 ==> occupancy_color(flags) != occupancy_color(other) && debug_color(
            flags,
        ) != debug_color(other),
        flags & FLAG_CREATURE == 0 && other & FLAG_CREATURE == 0 && flags & FLAG_BLOCKED == 0 && other
            & FLAG_BLOCKED == 0 && flags & FLAG_VOID != 0 && other & FLAG_VOID == 0
            ==> occupancy_color(flags) != occupancy_color(other) && debug_color(flags)
            != debug_color(other),
        flags & FLAG_CREATURE != 0 && other & FLAG_CREATURE != 0 ==> occupancy_color(flags)
            == occupancy_color(other) && debug_color(flags) == debug_color(other),
        flags & FLAG_CREATURE != 0 ==> redder(occupancy_color(flags)) && redder(debug_color(flags)),
        flags & FLAG_CREATURE == 0 && flags & FLAG_BLOCKED == 0 && flags & FLAG_VOID != 0 ==> bluer(
            occupancy_color(flags),
        ) && bluer(debug_color(flags)),
        flags & FLAG_CREATURE == 0 && flags & FLAG_BLOCKED != 0 ==> orange(occupancy_color(flags))
            && orange(debug_color(flags)),
{
    assert(seq![220u8, 60, 60, 200][1] == 60 && seq![210u8, 130, 50, 160][1] == 130 && seq![
        50u8,
        90,
        210,
        110,
    ][1] == 90 && seq![0u8, 0, 0, 0][1] == 0);
    assert(seq![225u8, 70, 70, 255][1] == 70 && seq![220u8, 140, 55, 255][1] == 140 && seq![
        55u8,
        95,
        215,
        255,
    ][1] == 95 && seq![26u8, 28, 34, 235][1] == 28);
}

/// Whether red is by far the strongest part of the colour.
pub open spec fn redder(color: Seq<u8>) -> bool {
    color[0] > 2 * color[1] && color[0] > 2 * color[2]
}

/// Whether blue is by far the strongest part of the colour.
pub open spec fn bluer(color: Seq<u8>) -> bool {
    color[2] > 2 * color[0] && color[2] > 2 * color[1]
}

/// Whether red is strongest, then green, then blue.
pub open spec fn orange(color: Seq<u8>) -> bool {
    color[0] > color[1] && color[1] > 2 * color[2]
}

/// A subtile is shown at its own place: the subtile in column `sx` and row `sy` of the tile in
/// column `tx` and row `ty` of the chunk is the texel that many subtiles from the left and from
/// the top.
pub proof fn subtiles_are_shown_in_place(
    passability: Hypermap<SubtilePassability>,
    coord: ChunkCoord,
    local: LocalCoord,
    sx: int,
    sy: int,
)
    requires
        local.in_chunk(),
        0 <= sx < 5,
        0 <= sy < 5,
        passability.has(coord),
    ensures
        occupancy_at(passability, coord, 5 * local.x + sx, 5 * local.y + sy) == occupancy_color(
            passability.tile_in(coord, local, 0).at(sy, sx),
        ),
{
    let (px, py) = (5 * local.x + sx, 5 * local.y + sy);
    assert(px / 5 == local.x && px % 5 == sx);
    assert(py / 5 == local.y && py % 5 == sy);
    assert(flags_under(passability, coord, px, py) == passability.tile_in(coord, local, 0).at(sy, sx));
}

/// The picture round a bot shows the three by three tiles round its tile in place, the bot's
/// own subtile in a colour of its own.
pub proof fn pictures_show_the_tiles_around(
    world: Hypermap<SubtilePassability>,
    bodies: Hypermap<SubtilePassability>,
    center: (i32, i32),
    own: (i32, i32),
    dx: int,
    dy: int,
    sx: int,
    sy: int,
)
    requires
        -1 <= dx <= 1,
        -1 <= dy <= 1,
        0 <= sx < 5,
        0 <= sy < 5,
    ensures
        ({
            let (x, y) = (center.0 + dx, center.1 + dy);
            let shown = grid_texel(
                world,
                bodies,
                center,
                own,
                5 * (dx + 1) + sx,
                5 * (dy + 1) + sy,
            );
            let here = own.0 == 5 * x + sx && own.1 == 5 * y + sy;
            &&& !here ==> shown == debug_color(
                world.tile(x, y, 0).at(sy, sx) | bodies.tile(x, y, 0).at(sy, sx),
            )
            &&& here ==> forall|flags: u64| shown != #[trigger] debug_color(flags)
        }),
{
    let (px, py) = (5 * (dx + 1) + sx, 5 * (dy + 1) + sy);
    assert(px / 5 == dx + 1 && px % 5 == sx);
    assert(py / 5 == dy + 1 && py % 5 == sy);
    let (x, y) = (center.0 + dx, center.1 + dy);
    assert(center.0 + px / 5 - 1 == x && center.1 + py / 5 - 1 == y);
    assert(flags_near(world, bodies, center, px, py) == world.tile(x, y, 0).at(sy, sx)
        | bodies.tile(x, y, 0).at(sy, sx));
    let shown = grid_texel(world, bodies, center, own, px, py);
    if own.0 == 5 * x + sx && own.1 == 5 * y + sy {
        assert(shown[1] == 235);
        assert forall|flags: u64| shown != #[trigger] debug_color(flags) by {
            assert(debug_color(flags)[1] != 235);
        }
    }
}

/// Texels lie row after row: the texel to the right follows in the bytes, and the texel below
/// follows a whole row later.
pub proof fn texels_lie_row_by_row(data: Seq<u8>, width: int, px: int, py: int, part: int)
    requires
        0 <= px < width,
        0 <= py,
        (py * width + px) * 4 + 4 <= data.len(),
        0 <= part < 4,
    ensures
        texel(data, width, px, py).len() == 4,
        texel(data, width, px, py)[part] == data[4 * px + 4 * width * py + part],
{
    assert(0 <= py * width) by (nonlinear_arith)
        requires
            0 <= py,
            0 <= width,
    ;
    assert((py * width + px) * 4 + part == 4 * px + 4 * width * py + part) by (nonlinear_arith);
}

/// Taken away are the planes of the chunks that are no longer desired, in the order in which
/// they came.
pub proof fn planes_of_left_chunks_go<I, M>(
    keys: Seq<ChunkCoord>,
    overlays: Map<ChunkCoord, OverlayPlane<I, M>>,
    desired: Seq<ChunkCoord>,
)
    ensures
        planes_gone(keys, overlays, desired) == keys.filter(
            |c: ChunkCoord| !desired.contains(c),
        ).map_values(|c: ChunkCoord| overlays[c].plane),
    decreases keys.len(),
{
    reveal(Seq::filter);
    if keys.len() > 0 {
        planes_of_left_chunks_go(keys.drop_last(), overlays, desired);
    }
    assert(planes_gone(keys, overlays, desired) =~= keys.filter(
        |c: ChunkCoord| !desired.contains(c),
    ).map_values(|c: ChunkCoord| overlays[c].plane));
}

/// Wanted are the desired chunks that have no overlay yet, in the order in which they are
/// desired.
pub proof fn chunks_without_planes_want_one<I, M>(
    desired: Seq<ChunkCoord>,
    overlays: Map<ChunkCoord, OverlayPlane<I, M>>,
)
    ensures
        chunks_without_overlay(desired, overlays) == desired.filter(
            |c: ChunkCoord| !overlays.contains_key(c),
        ),
    decreases desired.len(),
{
    reveal(Seq::filter);
    if desired.len() > 0 {
        chunks_without_planes_want_one(desired.drop_last(), overlays);
    }
}

/// Repainted are the shown chunks that are marked, in the order in which they are shown.
pub proof fn marked_chunks_are_repainted(list: Seq<ChunkCoord>, names: Seq<ChunkCoord>)
    ensures
        named_in(list, names) == list.filter(|c: ChunkCoord| names.contains(c)),
    decreases list.len(),
{
    reveal(Seq::filter);
    if list.len() > 0 {
        marked_chunks_are_repainted(list.drop_last(), names);
    }
}

/// A position lies in its tile: between the tile's coordinate and the next one, in thousandths.
pub proof fn positions_lie_in_their_tile(milli: int)
    requires
        -2_147_483_648_000 <= milli < 2_147_483_648_000,
    ensures
        1000 * tile_of(milli) <= milli < 1000 * (tile_of(milli) + 1),
{
}

/// Dirt moves from the dirtier to the cleaner: an actor on a cleaner tile loses up to one
/// percent to it, an actor on a dirtier tile gains one percent of the tile's dirt and the tile
/// keeps its own, and between equals nothing moves.
pub proof fn dirt_moves_to_the_cleaner(floor: u32, actor: u32, after: (u32, u32))
    requires
        exchanged(floor, actor, after),
        actor <= 1_000_000,
    ensures
        floor < actor ==> after.0 + after.1 == actor && 0 < after.1 <= 10_000 && (after.1 == 10_000
            || after.0 == 0),
        floor > actor ==> after.1 == 0 && actor <= after.0 <= 1_000_000 && (after.0 == 1_000_000 || (100
            * (after.0 - actor) <= floor < 100 * (after.0 - actor + 1))),
        floor == actor ==> after.0 == actor && after.1 == 0,
        after.0 + after.1 >= actor,
{
}

/// A tile is reported as left once for each actor that noted it last and now stands on
/// another, in the order of the actors.
pub proof fn left_tiles_are_those_noted_last(actors: Seq<ActorPlace>, n: nat)
    requires
        n <= actors.len(),
    ensures
        tiles_left(actors, n) == actors.take(n as int).filter(
            |a: ActorPlace|
                a.stored matches Some(t) && !(t.0 == tile_of(a.center.0 as int) && t.1 == tile_of(
                    a.center.1 as int,
                )),
        ).map_values(|a: ActorPlace| MainTileTransition { left_tile: a.stored->0 }),
    decreases n,
{
    reveal(Seq::filter);
    let gone = |a: ActorPlace|
        a.stored matches Some(t) && !(t.0 == tile_of(a.center.0 as int) && t.1 == tile_of(
            a.center.1 as int,
        ));
    let named = |a: ActorPlace| MainTileTransition { left_tile: a.stored->0 };
    if n > 0 {
        left_tiles_are_those_noted_last(actors, (n - 1) as nat);
        assert(actors.take(n as int).drop_last() =~= actors.take(n - 1));
        assert(actors.take(n as int).last() == actors[n - 1]);
        assert(gone(actors[n - 1]) == actors[n - 1].moved());
    }
    assert(tiles_left(actors, n) =~= actors.take(n as int).filter(gone).map_values(named));
}

/// Bots heat the tiles that they stand on, except void, in their order.
pub proof fn bots_heat_what_is_not_void(
    world: Hypermap<CellType>,
    tiles: Seq<(i32, i32)>,
    n: nat,
)
    requires
        n <= tiles.len(),
    ensures
        heated(world, tiles, n) == tiles.take(n as int).filter(
            |t: (i32, i32)| world.tile(t.0 as int, t.1 as int, 0) != CellType::Void,
        ),
    decreases n,
{
    reveal(Seq::filter);
    if n > 0 {
        bots_heat_what_is_not_void(world, tiles, (n - 1) as nat);
        assert(tiles.take(n as int).drop_last() =~= tiles.take(n - 1));
    }
    assert(heated(world, tiles, n) =~= tiles.take(n as int).filter(
        |t: (i32, i32)| world.tile(t.0 as int, t.1 as int, 0) != CellType::Void,
    ));
}

/// Distances are measured to the middle of the subtile: one subtile is two hundred thousandths
/// of a tile, and a center in the middle of a subtile is that many subtiles away in each
/// direction.
pub proof fn distances_are_to_the_middle(subtile: (i32, i32), dx: int, dy: int, center: (i64, i64))
    requires
        center.0 == 200 * (subtile.0 + dx) + 100,
        center.1 == 200 * (subtile.1 + dy) + 100,
    ensures
        distance2(center, subtile) == 40_000 * (dx * dx + dy * dy),
{
    assert(center.0 - (2 * subtile.0 + 1) * 100 == 200 * dx);
    assert(center.1 - (2 * subtile.1 + 1) * 100 == 200 * dy);
    assert((200 * dx) * (200 * dx) + (200 * dy) * (200 * dy) == 40_000 * (dx * dx + dy * dy))
        by (nonlinear_arith);
}

/// A body reaches one subtile beyond its radius: a subtile straight beside the one in whose
/// middle the body stands is within reach just where it is at most that many subtiles away.
pub proof fn bodies_reach_one_subtile_further(
    subtile: (i32, i32),
    away: int,
    center: (i64, i64),
    radius: i32,
)
    requires
        0 <= away,
        0 <= radius,
        center.0 == 200 * (subtile.0 + away) + 100,
        center.1 == 200 * subtile.1 + 100,
    ensures
        distance2(center, subtile) <= reach2(radius) <==> away <= radius + 1,
{
    distances_are_to_the_middle(subtile, away, 0, center);
    assert(0int * 0 == 0);
    let r = radius + 1;
    assert((r * 200) * (r * 200) == 40_000 * (r * r)) by (nonlinear_arith);
    assert((away * away <= r * r) == (away <= r)) by (nonlinear_arith)
        requires
            0 <= away,
            0 <= r,
    ;
}

impl CellOccupancy {
    /// An owner of a subtile is recorded on the subtile's own tile or on one that touches it,
    /// is not the one left out, and reaches the subtile's middle.
    pub proof fn owners_stand_near(self, actor: u64, subtile: (i32, i32), exclude: u64)
        ensures
            self.may_own(actor, subtile, exclude) <==> {
                &&& actor != exclude
                &&& self.record(actor) matches Some(k) && {
                    &&& -5 <= subtile.0 - 5 * k.tile.0 < 10
                    &&& -5 <= subtile.1 - 5 * k.tile.1 < 10
                    &&& distance2(k.center, subtile) <= reach2(k.radius_subtiles)
                }
            },
    {
    }
}

impl ActorReport {
    /// What is recorded of an actor is what was reported, on the tile that its center lies in.
    pub proof fn records_follow_reports(self, kin: BotKinematics)
        requires
            self.recorded(kin),
            -2_147_483_648_000 <= self.center.0 < 2_147_483_648_000,
            -2_147_483_648_000 <= self.center.1 < 2_147_483_648_000,
        ensures
            kin.center == self.center,
            kin.heading == self.heading,
            kin.radius_subtiles == self.radius_subtiles,
            1000 * kin.tile.0 <= kin.center.0 < 1000 * (kin.tile.0 + 1),
            1000 * kin.tile.1 <= kin.center.1 < 1000 * (kin.tile.1 + 1),
    {
    }
}

} // verus!
