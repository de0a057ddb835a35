//! What path simplification promises of its waypoints.
use crate::map::hypermap::Hypermap;
use crate::map::line_of_sight::{
    at_doorway, bends, kept_tiles, last_holder, near_mark, neighbours_see_each_other, pulled, sees,
    simplified, with_doorways,
};
use crate::map::search::{adjacent, walkable, Tile};
use vstd::prelude::*;

verus! {

/// Whether the tiles are walkable and each shares an edge with the one before it.
pub open spec fn is_tile_path(map: Hypermap<bool>, path: Seq<Tile>) -> bool {
    &&& forall|i: int| 0 <= i < path.len() ==> walkable(map, #[trigger] path[i])
    &&& forall|i: int, j: int|
        0 <= i && j == i + 1 && j < path.len() ==> adjacent(#[trigger] path[i], #[trigger] path[j])
}

/// Indices of the waypoints that are left when open space is collapsed: the start, the
/// bends, and the goal.
pub open spec fn stops(map: Hypermap<bool>, path: Seq<Tile>) -> Seq<int> {
    seq![0int] + bends(map, path, 0, 1) + seq![path.len() - 1]
}

proof fn lemma_bends(map: Hypermap<bool>, path: Seq<Tile>, anchor: int, i: int)
    requires
        0 <= anchor < i < path.len(),
        is_tile_path(map, path),
        sees(map, path[anchor], path[i]),
    ensures
        ({
            let w = seq![anchor] + bends(map, path, anchor, i) + seq![path.len() - 1];
            &&& forall|j: int, k: int| 0 <= j < k < w.len() ==> #[trigger] w[j] < #[trigger] w[k]
            &&& forall|j: int, k: int|
                0 <= j && k == j + 1 && k < w.len() ==> sees(
                    map,
                    path[#[trigger] w[j]],
                    path[#[trigger] w[k]],
                )
            &&& forall|j: int|
                1 <= j < w.len() ==> i <= #[trigger] w[j] < path.len()
        }),
    decreases path.len() - i,
{
    let b = bends(map, path, anchor, i);
    let w = seq![anchor] + b + seq![path.len() - 1];
    if i + 1 >= path.len() {
        assert(i == path.len() - 1);
        assert(b.len() == 0);
        assert(w =~= seq![anchor, path.len() - 1]);
        assert(forall|j: int, k: int|
            0 <= j && k == j + 1 && k < w.len() ==> j == 0 && k == 1 && #[trigger] w[j] == anchor
                && #[trigger] w[k] == i);
    } else if sees(map, path[anchor], path[i + 1]) {
        assert(b == bends(map, path, anchor, i + 1));
        lemma_bends(map, path, anchor, i + 1);
    } else {
        assert(adjacent(path[i], path[i + 1]));
        neighbours_see_each_other(map, path[i], path[i + 1]);
        lemma_bends(map, path, i, i + 1);
        let rest = seq![i] + bends(map, path, i, i + 1) + seq![path.len() - 1];
        assert(w =~= seq![anchor] + rest);
        assert forall|j: int, k: int| 0 <= j < k < w.len() implies #[trigger] w[j] < #[trigger] w[k] by {
            assert(w[k] == rest[k - 1]);
            if j > 0 {
                assert(w[j] == rest[j - 1]);
            } else {
                assert(rest[0] == i);
                if k - 1 > 0 {
                    assert(rest[0] < rest[k - 1]);
                }
            }
        }
        assert forall|j: int, k: int| 0 <= j && k == j + 1 && k < w.len() implies sees(
            map,
            path[#[trigger] w[j]],
            path[#[trigger] w[k]],
        ) by {
            assert(w[k] == rest[k - 1]);
            if j > 0 {
                assert(w[j] == rest[j - 1]);
            }
        }
        assert forall|j: int| 1 <= j < w.len() implies i <= #[trigger] w[j] < path.len() by {
            assert(w[j] == rest[j - 1]);
        }
    }
}

proof fn lemma_kept_marks(
    path: Seq<Tile>,
    keep: spec_fn(int) -> bool,
    marks: Seq<int>,
    n: nat,
    c: nat,
)
    requires
        forall|j: int, k: int|
            0 <= j < k < marks.len() ==> #[trigger] marks[j] < #[trigger] marks[k],
        forall|k: int| 0 <= k < path.len() ==> #[trigger] keep(k) == marks.contains(k),
        n <= path.len(),
        c <= marks.len(),
        forall|j: int| 0 <= j < c ==> 0 <= #[trigger] marks[j] < n,
        forall|j: int| c <= j < marks.len() ==> #[trigger] marks[j] >= n,
    ensures
        kept_tiles(path, keep, n) == Seq::new(c, |j: int| path[marks[j]]),
    decreases n,
{
    if n == 0 {
        if c > 0 {
            assert(marks[0] < 0);
        }
        assert(kept_tiles(path, keep, n) =~= Seq::new(c, |j: int| path[marks[j]]));
    } else if keep(n - 1) {
        let j = choose|j: int| 0 <= j < marks.len() && marks[j] == n - 1;
        assert(marks.contains(n - 1));
        if j < c - 1 {
            assert(marks[j] < marks[c - 1]);
        }
        assert(j == c - 1);
        lemma_kept_marks(path, keep, marks, (n - 1) as nat, (c - 1) as nat);
        assert(Seq::new(c, |j: int| path[marks[j]]) =~= Seq::new(
            (c - 1) as nat,
            |j: int| path[marks[j]],
        ).push(path[n - 1]));
    } else {
        assert forall|j: int| 0 <= j < c implies 0 <= #[trigger] marks[j] < n - 1 by {
            if marks[j] == n - 1 {
                assert(marks.contains(n - 1));
            }
        }
        lemma_kept_marks(path, keep, marks, (n - 1) as nat, c);
    }
}

/// Without a corner buffer only the start, the bends and the goal of a path are left, and
/// each of these waypoints sees the next one.
pub proof fn waypoints_see_each_other(map: Hypermap<bool>, path: Seq<Tile>)
    requires
        path.len() > 2,
        is_tile_path(map, path),
    ensures
        pulled(map, path, 0) == Seq::new(
            stops(map, path).len(),
            |k: int| path[stops(map, path)[k]],
        ),
        forall|k: int|
            0 <= k < pulled(map, path, 0).len() - 1 ==> #[trigger] sees(
                map,
                pulled(map, path, 0)[k],
                pulled(map, path, 0)[k + 1],
            ),
{
    let w = stops(map, path);
    let marks = bends(map, path, 0, 1);
    assert(adjacent(path[0], path[1]));
    neighbours_see_each_other(map, path[0], path[1]);
    lemma_bends(map, path, 0, 1);
    let keep = |k: int| k == 0 || k == path.len() - 1 || near_mark(marks, 0, k);
    assert forall|k: int| 0 <= k < path.len() implies #[trigger] keep(k) == w.contains(k) by {
        assert(w[0] == 0 && w[w.len() - 1] == path.len() - 1);
        if near_mark(marks, 0, k) {
            let b = choose|b: int| #[trigger] marks.contains(b) && b - 0 <= k <= b + 0;
            let i = choose|i: int| 0 <= i < marks.len() && marks[i] == b;
            assert(w[i + 1] == k);
        }
        if w.contains(k) {
            let i = choose|i: int| 0 <= i < w.len() && w[i] == k;
            if 0 < i < w.len() - 1 {
                assert(marks[i - 1] == k);
                assert(marks.contains(k));
            }
        }
    }
    assert forall|j: int| 0 <= j < w.len() implies 0 <= #[trigger] w[j] < path.len() by {
        if j == 0 {
            assert(w[0] == 0);
        }
    }
    lemma_kept_marks(path, keep, w, path.len(), w.len());
    assert(pulled(map, path, 0) == kept_tiles(path, keep, path.len()));
    assert forall|k: int| 0 <= k < pulled(map, path, 0).len() - 1 implies #[trigger] sees(
        map,
        pulled(map, path, 0)[k],
        pulled(map, path, 0)[k + 1],
    ) by {
        assert(pulled(map, path, 0)[k] == path[w[k]]);
        assert(pulled(map, path, 0)[k + 1] == path[w[k + 1]]);
    }
}

proof fn lemma_kept_ends(path: Seq<Tile>, keep: spec_fn(int) -> bool, n: nat)
    requires
        1 <= n <= path.len(),
        keep(0),
    ensures
        kept_tiles(path, keep, n).len() >= 1,
        kept_tiles(path, keep, n)[0] == path[0],
        keep(n - 1) ==> kept_tiles(path, keep, n).last() == path[n - 1],
    decreases n,
{
    if n > 1 {
        lemma_kept_ends(path, keep, (n - 1) as nat);
    } else {
        assert(kept_tiles(path, keep, 0) =~= seq![]);
    }
}

proof fn lemma_pulled_ends(map: Hypermap<bool>, path: Seq<Tile>, buffer: int)
    requires
        path.len() >= 1,
    ensures
        pulled(map, path, buffer).len() >= 1,
        pulled(map, path, buffer)[0] == path[0],
        pulled(map, path, buffer).last() == path.last(),
{
    if path.len() > 2 {
        let keep = |k: int|
            k == 0 || k == path.len() - 1 || near_mark(bends(map, path, 0, 1), buffer, k);
        lemma_kept_ends(path, keep, path.len());
    }
}

/// The waypoints of a path that visits no tile twice start where it starts and end where
/// it ends.
pub proof fn simplified_path_keeps_its_ends(map: Hypermap<bool>, path: Seq<Tile>, buffer: int)
    requires
        path.len() >= 1,
        path.no_duplicates(),
    ensures
        simplified(map, path, buffer).len() >= 1,
        simplified(map, path, buffer)[0] == path[0],
        simplified(map, path, buffer).last() == path.last(),
{
    let first = pulled(map, path, buffer);
    lemma_pulled_ends(map, path, buffer);
    lemma_pulled_ends(map, first, 0);
    let twice = if buffer == 0 || first.len() <= 2 {
        first
    } else {
        pulled(map, first, 0)
    };
    if path.len() > 2 {
        let keep = |i: int| last_holder(path, twice, i) || at_doorway(map, path, i);
        assert(twice.contains(twice[0]));
        assert(twice.contains(twice[twice.len() - 1]));
        assert(last_holder(path, twice, 0));
        assert(last_holder(path, twice, path.len() - 1));
        lemma_kept_ends(path, keep, path.len());
        assert(with_doorways(map, path, twice) == kept_tiles(path, keep, path.len()));
    }
}

/// Every doorway tile inside a path is a waypoint, together with the tiles on both sides
/// of it on the path.
pub proof fn doorways_keep_their_approaches(
    map: Hypermap<bool>,
    path: Seq<Tile>,
    buffer: int,
    d: int,
    i: int,
)
    requires
        0 < d < path.len() - 1,
        d - 1 <= i <= d + 1,
        crate::map::line_of_sight::is_doorway(map, path[d].0 as int, path[d].1 as int),
    ensures
        simplified(map, path, buffer).contains(path[i]),
{
    let first = pulled(map, path, buffer);
    let twice = if buffer == 0 || first.len() <= 2 {
        first
    } else {
        pulled(map, first, 0)
    };
    let keep = |i: int| last_holder(path, twice, i) || at_doorway(map, path, i);
    assert(at_doorway(map, path, i));
    lemma_kept_contains(path, keep, path.len(), i);
}

proof fn lemma_kept_contains(path: Seq<Tile>, keep: spec_fn(int) -> bool, n: nat, i: int)
    requires
        0 <= i < n <= path.len(),
        keep(i),
    ensures
        kept_tiles(path, keep, n).contains(path[i]),
    decreases n,
{
    let all = kept_tiles(path, keep, n);
    if i == n - 1 {
        assert(all[all.len() - 1] == path[i]);
    } else {
        lemma_kept_contains(path, keep, (n - 1) as nat, i);
        let rest = kept_tiles(path, keep, (n - 1) as nat);
        let k = choose|k: int| 0 <= k < rest.len() && rest[k] == path[i];
        assert(all[k] == path[i]);
    }
}

} // verus!
