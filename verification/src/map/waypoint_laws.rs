//! What doorways are, told by the tiles around them, and what string-pulling keeps of a path.
use vstd::prelude::*;

use crate::map::hypermap::Hypermap;
use crate::map::line_of_sight::{
    at_doorway, bends, is_doorway, kept_tiles, last_holder, near_mark, open_at, pulled, sees,
    simplified, with_doorways,
};
use crate::map::search::Tile;

verus! {

/// Whether the tile is walkable and has coordinates that the world has.
pub open spec fn clear(map: Hypermap<bool>, x: int, y: int) -> bool {
    i32::MIN <= x <= i32::MAX && i32::MIN <= y <= i32::MAX && map.tile(x, y, 0)
}

/// Doorways do not depend on the direction of the wall: in the world with rows and columns
/// exchanged the same tiles are doorways.
pub proof fn turned_doorways_are_doorways(
    map: Hypermap<bool>,
    turned: Hypermap<bool>,
    x: int,
    y: int,
)
    requires
        forall|u: int, w: int| #[trigger] turned.tile(u, w, 0) == map.tile(w, u, 0),
    ensures
        is_doorway(turned, y, x) == is_doorway(map, x, y),
{
    lemma_turned(map, turned, x, y);
    lemma_turned(map, turned, x + 1, y);
    lemma_turned(map, turned, x - 1, y);
    lemma_turned(map, turned, x, y + 1);
    lemma_turned(map, turned, x, y - 1);
    lemma_turned(map, turned, x + 1, y + 1);
    lemma_turned(map, turned, x + 1, y - 1);
    lemma_turned(map, turned, x - 1, y + 1);
    lemma_turned(map, turned, x - 1, y - 1);
    lemma_turned(map, turned, x, y + 2);
    lemma_turned(map, turned, x, y - 2);
    lemma_turned(map, turned, x + 2, y);
    lemma_turned(map, turned, x - 2, y);
    lemma_turned(map, turned, x + 1, y + 2);
    lemma_turned(map, turned, x + 1, y - 2);
    lemma_turned(map, turned, x - 1, y + 2);
    lemma_turned(map, turned, x - 1, y - 2);
    lemma_turned(map, turned, x + 2, y + 1);
    lemma_turned(map, turned, x + 2, y - 1);
    lemma_turned(map, turned, x - 2, y + 1);
    lemma_turned(map, turned, x - 2, y - 1);
}

proof fn lemma_turned(map: Hypermap<bool>, turned: Hypermap<bool>, x: int, y: int)
    requires
        forall|u: int, w: int| #[trigger] turned.tile(u, w, 0) == map.tile(w, u, 0),
    ensures
        open_at(turned, y, x) == open_at(map, x, y),
{
    assert(turned.tile(y, x, 0) == map.tile(x, y, 0));
}

/// Doorways do not depend on the side from which they are looked at: in the mirrored world the
/// mirrored tiles are doorways.
pub proof fn mirrored_doorways_are_doorways(
    map: Hypermap<bool>,
    mirrored: Hypermap<bool>,
    x: int,
    y: int,
)
    requires
        -0x7fff_fff0 <= x <= 0x7fff_fff0,
        forall|u: int, w: int| #[trigger] mirrored.tile(u, w, 0) == map.tile(-u, w, 0),
    ensures
        is_doorway(mirrored, -x, y) == is_doorway(map, x, y),
{
    lemma_mirrored(map, mirrored, x, y);
    lemma_mirrored(map, mirrored, x + 1, y);
    lemma_mirrored(map, mirrored, x - 1, y);
    lemma_mirrored(map, mirrored, x, y + 1);
    lemma_mirrored(map, mirrored, x, y - 1);
    lemma_mirrored(map, mirrored, x + 1, y + 1);
    lemma_mirrored(map, mirrored, x + 1, y - 1);
    lemma_mirrored(map, mirrored, x - 1, y + 1);
    lemma_mirrored(map, mirrored, x - 1, y - 1);
    lemma_mirrored(map, mirrored, x, y + 2);
    lemma_mirrored(map, mirrored, x, y - 2);
    lemma_mirrored(map, mirrored, x + 2, y);
    lemma_mirrored(map, mirrored, x - 2, y);
    lemma_mirrored(map, mirrored, x + 1, y + 2);
    lemma_mirrored(map, mirrored, x + 1, y - 2);
    lemma_mirrored(map, mirrored, x - 1, y + 2);
    lemma_mirrored(map, mirrored, x - 1, y - 2);
    lemma_mirrored(map, mirrored, x + 2, y + 1);
    lemma_mirrored(map, mirrored, x + 2, y - 1);
    lemma_mirrored(map, mirrored, x - 2, y + 1);
    lemma_mirrored(map, mirrored, x - 2, y - 1);
    assert(-x + 1 == -(x - 1) && -x - 1 == -(x + 1) && -x + 2 == -(x - 2) && -x - 2 == -(x + 2));
}

proof fn lemma_mirrored(map: Hypermap<bool>, mirrored: Hypermap<bool>, x: int, y: int)
    requires
        -0x7fff_ffff <= x <= 0x7fff_ffff,
        forall|u: int, w: int| #[trigger] mirrored.tile(u, w, 0) == map.tile(-u, w, 0),
    ensures
        open_at(mirrored, -x, y) == open_at(map, x, y),
{
    assert(mirrored.tile(-x, y, 0) == map.tile(-(-x), y, 0));
}

/// A gap one tile wide is a doorway just where the ground widens on both sides of it: with
/// walls above and below the tile and ground to its left and right, some corner tile must be
/// walkable on each of those sides. A straight corridor one tile wide is no doorway.
pub proof fn narrow_doorways_widen_on_both_sides(map: Hypermap<bool>, x: int, y: int)
    requires
        clear(map, x, y),
        clear(map, x - 1, y),
        clear(map, x + 1, y),
        !clear(map, x, y - 1),
        !clear(map, x, y + 1),
    ensures
        is_doorway(map, x, y) <==> (clear(map, x - 1, y - 1) || clear(map, x - 1, y + 1)) && (clear(
            map,
            x + 1,
            y - 1,
        ) || clear(map, x + 1, y + 1)),
{
}

/// A gap two tiles wide is a doorway just where there is ground on both sides of the tile and
/// a corner tile beyond the gap is walkable on each of those sides: the tile's partner lies
/// below it, with walls above the tile and below the partner.
pub proof fn wide_doorways_widen_on_both_sides(map: Hypermap<bool>, x: int, y: int)
    requires
        clear(map, x, y),
        clear(map, x, y + 1),
        clear(map, x - 1, y),
        clear(map, x + 1, y),
        !clear(map, x, y - 1),
        !clear(map, x, y + 2),
    ensures
        is_doorway(map, x, y) <==> (clear(map, x - 1, y - 1) || clear(map, x - 1, y + 2)) && (clear(
            map,
            x + 1,
            y - 1,
        ) || clear(map, x + 1, y + 2)),
{
}

/// A doorway is walkable and leads straight through: along one axis both neighbours are
/// walkable, and along the other a wall stands within two tiles on either side, leaving a gap
/// of one or two tiles.
pub proof fn doorways_lead_through_a_wall(map: Hypermap<bool>, x: int, y: int)
    requires
        is_doorway(map, x, y),
    ensures
        clear(map, x, y),
        ({
            ||| clear(map, x - 1, y) && clear(map, x + 1, y) && (!clear(map, x, y - 1) || !clear(
                map,
                x,
                y + 1,
            )) && (!clear(map, x, y - 1) || !clear(map, x, y - 2)) && (!clear(map, x, y + 1)
                || !clear(map, x, y + 2))
            ||| clear(map, x, y - 1) && clear(map, x, y + 1) && (!clear(map, x - 1, y) || !clear(
                map,
                x + 1,
                y,
            )) && (!clear(map, x - 1, y) || !clear(map, x - 2, y)) && (!clear(map, x + 1, y)
                || !clear(map, x + 2, y))
        }),
{
}

/// Whether the tile after index `k` is seen from the bend before the `j`th one, which is
/// `anchor` for the first.
pub open spec fn seen_past(
    map: Hypermap<bool>,
    path: Seq<Tile>,
    anchor: int,
    all: Seq<int>,
    j: int,
    k: int,
) -> bool {
    sees(
        map,
        path[if j == 0 {
            anchor
        } else {
            all[j - 1]
        }],
        path[k + 1],
    )
}

/// Bends are forced: the tile after a bend is not seen from the bend before it, and every tile
/// up to the bend is. What comes after the last bend is seen from it.
pub proof fn bends_are_forced(map: Hypermap<bool>, path: Seq<Tile>, anchor: int, i: int)
    requires
        0 <= anchor < i,
    ensures
        ({
            let all = bends(map, path, anchor, i);
            &&& forall|j: int|
                0 <= j < all.len() ==> i <= #[trigger] all[j] < path.len() - 1 && !seen_past(
                    map,
                    path,
                    anchor,
                    all,
                    j,
                    all[j],
                )
            &&& forall|j: int, k: int|
                0 <= j <= all.len() && (if j == 0 {
                    i
                } else {
                    all[j - 1] + 1
                }) <= k < (if j == all.len() {
                    path.len() - 1
                } else {
                    all[j]
                }) ==> #[trigger] seen_past(map, path, anchor, all, j, k)
        }),
    decreases path.len() - i,
{
    let all = bends(map, path, anchor, i);
    if i + 1 >= path.len() {
    } else if sees(map, path[anchor], path[i + 1]) {
        bends_are_forced(map, path, anchor, i + 1);
        assert(all == bends(map, path, anchor, i + 1));
    } else {
        bends_are_forced(map, path, i, i + 1);
        let rest = bends(map, path, i, i + 1);
        assert(all =~= seq![i] + rest);
        assert forall|j: int| 0 <= j < all.len() implies i <= #[trigger] all[j] < path.len() - 1
            && !seen_past(map, path, anchor, all, j, all[j]) by {
            if j > 0 {
                assert(all[j] == rest[j - 1]);
                assert(!seen_past(map, path, i, rest, j - 1, rest[j - 1]));
                if j > 1 {
                    assert(all[j - 1] == rest[j - 2]);
                }
            }
        }
        assert forall|j: int, k: int|
            0 <= j <= all.len() && (if j == 0 {
                i
            } else {
                all[j - 1] + 1
            }) <= k < (if j == all.len() {
                path.len() - 1
            } else {
                all[j]
            }) implies #[trigger] seen_past(map, path, anchor, all, j, k) by {
            if j > 0 {
                if j < all.len() {
                    assert(all[j] == rest[j - 1]);
                }
                if j > 1 {
                    assert(all[j - 1] == rest[j - 2]);
                }
                assert(seen_past(map, path, i, rest, j - 1, k));
            }
        }
    }
}

proof fn lemma_ends_only(path: Seq<Tile>, keep: spec_fn(int) -> bool, n: nat)
    requires
        path.len() >= 2,
        n <= path.len(),
        forall|k: int|
            0 <= k < path.len() ==> (#[trigger] keep(k) <==> k == 0 || k == path.len() - 1),
    ensures
        kept_tiles(path, keep, n) == if n == 0 {
            seq![]
        } else if n < path.len() {
            seq![path[0]]
        } else {
            seq![path[0], path.last()]
        },
    decreases n,
{
    if n > 0 {
        lemma_ends_only(path, keep, (n - 1) as nat);
        assert(keep(n - 1) <==> n - 1 == 0 || n - 1 == path.len() - 1);
        if n == path.len() {
            assert(kept_tiles(path, keep, n) =~= seq![path[0], path.last()]);
        } else {
            assert(kept_tiles(path, keep, n) =~= seq![path[0]]);
        }
    }
}

/// Open ground is crossed straight: where every tile of a path is seen from its start, no tile
/// comes twice and the path threads no doorway, only its two ends are kept, whatever the
/// buffer at bends.
pub proof fn open_ground_is_crossed_straight(map: Hypermap<bool>, path: Seq<Tile>, buffer: int)
    requires
        path.len() >= 2,
        path.no_duplicates(),
        forall|k: int| 0 <= k < path.len() ==> sees(map, path[0], #[trigger] path[k]),
        forall|k: int|
            0 < k < path.len() - 1 ==> !is_doorway(
                map,
                (#[trigger] path[k]).0 as int,
                path[k].1 as int,
            ),
    ensures
        simplified(map, path, buffer) == seq![path[0], path.last()],
{
    let ends = seq![path[0], path.last()];
    if path.len() == 2 {
        assert(path =~= ends);
    } else {
        lemma_no_bends(map, path, 1);
        let marks = bends(map, path, 0, 1);
        let keep = |k: int| k == 0 || k == path.len() - 1 || near_mark(marks, buffer, k);
        assert forall|k: int| 0 <= k < path.len() implies (#[trigger] keep(k) <==> k == 0 || k
            == path.len() - 1) by {
            if near_mark(marks, buffer, k) {
                let b = choose|b: int| #[trigger]
                    marks.contains(b) && b - buffer <= k <= b + buffer;
                assert(marks.contains(b));
            }
        }
        lemma_ends_only(path, keep, path.len());
        assert(pulled(map, path, buffer) == kept_tiles(path, keep, path.len()));
        assert(pulled(map, path, buffer) == ends);
        let held = |i: int| last_holder(path, ends, i) || at_doorway(map, path, i);
        assert forall|i: int| 0 <= i < path.len() implies (#[trigger] held(i) <==> i == 0 || i
            == path.len() - 1) by {
            assert(ends[0] == path[0] && ends[1] == path[path.len() - 1]);
            if i == 0 || i == path.len() - 1 {
                assert(ends.contains(path[i]));
            } else if ends.contains(path[i]) {
                let m = choose|m: int| 0 <= m < ends.len() && ends[m] == path[i];
                assert(path[i] == path[0] || path[i] == path[path.len() - 1]);
            }
            if at_doorway(map, path, i) {
                let d = choose|d: int|
                    0 < d < path.len() - 1 && i - 1 <= d <= i + 1 && #[trigger] is_doorway(
                        map,
                        path[d].0 as int,
                        path[d].1 as int,
                    );
                assert(path[d] == path[d]);
            }
        }
        lemma_ends_only(path, held, path.len());
        assert(with_doorways(map, path, ends) == kept_tiles(path, held, path.len()));
    }
}

proof fn lemma_no_bends(map: Hypermap<bool>, path: Seq<Tile>, i: int)
    requires
        1 <= i,
        forall|k: int| 0 <= k < path.len() ==> sees(map, path[0], #[trigger] path[k]),
    ensures
        bends(map, path, 0, i).len() == 0,
    decreases path.len() - i,
{
    if i + 1 < path.len() {
        assert(sees(map, path[0], path[i + 1]));
        lemma_no_bends(map, path, i + 1);
    }
}

} // verus!
