//! A small picture of the collision grid around the selected bot: the subtiles of three by
//! three tiles, one texel each.
use vstd::prelude::*;

use crate::map::chunk_overlay::{push_texel, texel};
use crate::map::hypermap::Hypermap;
use crate::map::passability::{
    SubtilePassability, FLAG_BLOCKED, FLAG_CREATURE, FLAG_VOID, SUBTILE_COUNT,
};

verus! {

/// Tiles per axis.
pub const GRID_TILES: usize = 3;

/// Texels per axis.
pub const GRID_SUBTILES: usize = 15;

/// Whether the picture is shown.
#[derive(Debug, Clone, Copy, PartialEq, Eq, Structural)]
pub struct SubtilePassabilityDebugEnabled(pub bool);

impl Default for SubtilePassabilityDebugEnabled {
    fn default() -> (enabled: Self)
        ensures
            !enabled.0,
    {
        SubtilePassabilityDebugEnabled(false)
    }
}

/// The color of a subtile: bodies red, walls orange, void blue, passable ground dark.
pub open spec fn debug_color(flags: u64) -> Seq<u8> {
    if flags & FLAG_CREATURE != 0 {
        seq![225, 70, 70, 255]
    } else if flags & FLAG_BLOCKED != 0 {
        seq![220, 140, 55, 255]
    } else if flags & FLAG_VOID != 0 {
        seq![55, 95, 215, 255]
    } else {
        seq![26, 28, 34, 235]
    }
}

pub fn flags_to_rgba(flags: u64) -> (color: [u8; 4])
    ensures
        color@ == debug_color(flags),
{
    let color: [u8; 4] = if flags & FLAG_CREATURE != 0 {
        [225, 70, 70, 255]
    } else if flags & FLAG_BLOCKED != 0 {
        [220, 140, 55, 255]
    } else if flags & FLAG_VOID != 0 {
        [55, 95, 215, 255]
    } else {
        [26, 28, 34, 235]
    };
    assert(color@ =~= debug_color(flags));
    color
}

/// Whether the ring of tiles around a tile has world coordinates.
pub open spec fn ring_fits(center: (i32, i32)) -> bool {
    i32::MIN < center.0 < i32::MAX && i32::MIN < center.1 < i32::MAX
}

/// The flags under a texel: of the world and of the bodies in it.
pub open spec fn flags_near(
    world: Hypermap<SubtilePassability>,
    bodies: Hypermap<SubtilePassability>,
    center: (i32, i32),
    px: int,
    py: int,
) -> u64 {
    let (x, y) = (center.0 + px / 5 - 1, center.1 + py / 5 - 1);
    world.tile(x, y, 0).at(py % 5, px % 5) | bodies.tile(x, y, 0).at(py % 5, px % 5)
}

/// The texel that shows a subtile given by its world coordinates.
pub open spec fn shows_subtile(center: (i32, i32), subtile: (i32, i32), px: int, py: int) -> bool {
    subtile.0 == (center.0 - 1) * 5 + px && subtile.1 == (center.1 - 1) * 5 + py
}

/// The color of a texel: the bot's own subtile is green.
pub open spec fn grid_texel(
    world: Hypermap<SubtilePassability>,
    bodies: Hypermap<SubtilePassability>,
    center: (i32, i32),
    own: (i32, i32),
    px: int,
    py: int,
) -> Seq<u8> {
    if shows_subtile(center, own, px, py) {
        seq![70, 235, 110, 255]
    } else {
        debug_color(flags_near(world, bodies, center, px, py))
    }
}

/// Draws the collision grid of the tiles around `center`, north up, with the bot's own subtile
/// marked where it is in the picture.
pub fn paint_subtile_grid(
    world: &Hypermap<SubtilePassability>,
    bodies: &Hypermap<SubtilePassability>,
    center: (i32, i32),
    own: (i32, i32),
) -> (data: Vec<u8>)
    requires
        world.wf(),
        bodies.wf(),
        ring_fits(center),
    ensures
        data@.len() == 15 * 15 * 4,
        forall|px: int, py: int|
            0 <= px < 15 && 0 <= py < 15 ==> #[trigger] texel(data@, 15, px, py) == grid_texel(
                *world,
                *bodies,
                center,
                own,
                px,
                py,
            ),
{
    let mark_x: i64 = own.0 as i64 - (center.0 as i64 - 1) * 5;
    let mark_y: i64 = own.1 as i64 - (center.1 as i64 - 1) * 5;
    let mut data: Vec<u8> = Vec::new();
    let mut n: usize = 0;
    while n < GRID_SUBTILES * GRID_SUBTILES
        invariant
            n <= 225,
            data@.len() == n * 4,
            world.wf(),
            bodies.wf(),
            ring_fits(center),
            mark_x == own.0 - (center.0 - 1) * 5,
            mark_y == own.1 - (center.1 - 1) * 5,
            forall|px: int, py: int|
                0 <= px < 15 && 0 <= py && py * 15 + px < n ==> #[trigger] texel(
                    data@,
                    15,
                    px,
                    py,
                ) == grid_texel(*world, *bodies, center, own, px, py),
        decreases 225 - n,
    {
        let ghost before = data@;
        let px: usize = n % 15;
        let py: usize = n / 15;
        let color: [u8; 4] = if mark_x == px as i64 && mark_y == py as i64 {
            let green: [u8; 4] = [70, 235, 110, 255];
            assert(green@ =~= seq![70u8, 235, 110, 255]);
            green
        } else {
            let x: i32 = center.0 - 1 + (px / 5) as i32;
            let y: i32 = center.1 - 1 + (py / 5) as i32;
            let fixed = world.get(x, y);
            let moving = bodies.get(x, y);
            let (sy, sx): (usize, usize) = (py % SUBTILE_COUNT, px % SUBTILE_COUNT);
            flags_to_rgba(fixed.flags_at(sy, sx) | moving.flags_at(sy, sx))
        };
        push_texel(&mut data, color);
        proof {
            assert forall|x: int, y: int|
                0 <= x < 15 && 0 <= y && y * 15 + x < n + 1 implies #[trigger] texel(
                data@,
                15,
                x,
                y,
            ) == grid_texel(*world, *bodies, center, own, x, y) by {
                if y * 15 + x < n {
                    assert(texel(data@, 15, x, y) =~= texel(before, 15, x, y));
                } else {
                    assert(x == px && y == py);
                    assert(texel(data@, 15, x, y) =~= color@);
                }
            }
        }
        n += 1;
    }
    data
}

} // verus!
