//! What streaming promises whatever the camera does: the nearer neighbours are wanted, what is
//! left behind is queued for removal, and only what is missing is built.
use vstd::prelude::*;

use crate::map::hypermap::{chunk_of, local_of, ChunkCoord, LocalCoord};
use crate::map::hypermap_world::streaming::{
    built, builds_without, has_neighbours, in_dead_zone, queued, targets_of, to_build, without,
    ChunkStream,
};

verus! {

/// Whether the chunk is one step east of the other where `east` says so, else one step west.
pub open spec fn beside(c: ChunkCoord, center: ChunkCoord, east: bool) -> bool {
    c.y == center.y && c.x - center.x == (if east {
        1int
    } else {
        -1int
    })
}

/// Whether the chunk is one step south of the other where `south` says so, else one step north.
pub open spec fn above_or_below(c: ChunkCoord, center: ChunkCoord, south: bool) -> bool {
    c.x == center.x && c.y - center.y == (if south {
        1int
    } else {
        -1int
    })
}

/// Each wanted neighbour is the nearer one on its axis: a neighbour to the east is wanted just
/// where the place is no farther from the east border than from the west border, and a
/// neighbour to the south just where it is no farther from the south border than from the
/// north border. Besides these two only the camera chunk is wanted.
pub proof fn nearer_neighbours_are_wanted(center: ChunkCoord, local: LocalCoord, c: ChunkCoord)
    requires
        has_neighbours(center),
        0 <= local.x < 128,
        0 <= local.y < 128,
    ensures
        c == center ==> targets_of(center, local).contains(c),
        beside(c, center, true) ==> (targets_of(center, local).contains(c) <==> 128 - local.x
            <= local.x),
        beside(c, center, false) ==> (targets_of(center, local).contains(c) <==> local.x < 128
            - local.x),
        above_or_below(c, center, true) ==> (targets_of(center, local).contains(c) <==> 128
            - local.y <= local.y),
        above_or_below(c, center, false) ==> (targets_of(center, local).contains(c) <==> local.y
            < 128 - local.y),
        targets_of(center, local).contains(c) ==> c == center || beside(c, center, true) || beside(
            c,
            center,
            false,
        ) || above_or_below(c, center, true) || above_or_below(c, center, false),
        targets_of(center, local)[0] == center,
        targets_of(center, local).len() == 3,
{
    let targets = targets_of(center, local);
    assert(targets.len() == 3);
    assert(targets[0] == center);
    assert(targets.contains(c) <==> c == targets[0] || c == targets[1] || c == targets[2]);
}

/// The axes do not mix: two places in one column of the chunk want the same neighbour to the
/// east or west, and two places in one row want the same neighbour to the north or south.
pub proof fn wanted_axes_do_not_mix(
    center: ChunkCoord,
    a: LocalCoord,
    b: LocalCoord,
    c: ChunkCoord,
)
    requires
        has_neighbours(center),
    ensures
        a.x == b.x && c.y == center.y ==> (targets_of(center, a).contains(c) <==> targets_of(
            center,
            b,
        ).contains(c)),
        a.y == b.y && c.x == center.x ==> (targets_of(center, a).contains(c) <==> targets_of(
            center,
            b,
        ).contains(c)),
{
    let (ta, tb) = (targets_of(center, a), targets_of(center, b));
    assert(ta.contains(c) <==> c == ta[0] || c == ta[1] || c == ta[2]);
    assert(tb.contains(c) <==> c == tb[0] || c == tb[1] || c == tb[2]);
}

/// The dead zone is the square of twenty tiles a side round the middle of the chunk: a place
/// lies in it just where its centre is less than ten tiles from the chunk's middle on both
/// axes.
pub proof fn dead_zone_is_the_middle_square(local: LocalCoord)
    ensures
        in_dead_zone(local) <==> -20 < 2 * local.x + 1 - 128 < 20 && -20 < 2 * local.y + 1 - 128
            < 20,
{
}

/// Every chunk that is left behind waits for its removal behind those that waited before, and
/// no other chunk joins them.
pub proof fn left_chunks_wait_in_order(
    queue: Seq<ChunkCoord>,
    left: Seq<ChunkCoord>,
    targets: Seq<ChunkCoord>,
    n: nat,
)
    requires
        n <= left.len(),
    ensures
        queue.is_prefix_of(queued(queue, left, targets, n)),
        queue.no_duplicates() ==> queued(queue, left, targets, n).no_duplicates(),
        forall|c: ChunkCoord| #[trigger]
            queued(queue, left, targets, n).contains(c) <==> queue.contains(c) || (
            left.take(n as int).contains(c) && !targets.contains(c)),
    decreases n,
{
    let after = queued(queue, left, targets, n);
    if n == 0 {
        assert(queue =~= after.take(queue.len() as int));
        assert(left.take(0).len() == 0);
    } else {
        left_chunks_wait_in_order(queue, left, targets, (n - 1) as nat);
        let before = queued(queue, left, targets, (n - 1) as nat);
        let last = left[n - 1];
        assert(left.take(n as int) =~= left.take(n - 1).push(last));
        lemma_one_more(left.take(n - 1), last);
        if !(targets.contains(last) || before.contains(last)) {
            lemma_one_more(before, last);
            assert(queue =~= after.take(queue.len() as int)) by {
                assert(queue =~= before.take(queue.len() as int));
                assert forall|i: int| 0 <= i < queue.len() implies queue[i] == after[i] by {
                    assert(queue[i] == before.take(queue.len() as int)[i]);
                }
            }
        }
    }
}

proof fn lemma_one_more(list: Seq<ChunkCoord>, last: ChunkCoord)
    ensures
        forall|c: ChunkCoord| #[trigger]
            list.push(last).contains(c) <==> list.contains(c) || c == last,
{
    let longer = list.push(last);
    assert(longer[list.len() as int] == last);
    assert forall|c: ChunkCoord| #[trigger] longer.contains(c) <==> list.contains(c) || c == last by {
        if list.contains(c) {
            let k = choose|k: int| 0 <= k < list.len() && list[k] == c;
            assert(longer[k] == c);
        }
        if longer.contains(c) {
            let k = choose|k: int| 0 <= k < longer.len() && longer[k] == c;
            if k < list.len() {
                assert(list[k] == c);
            }
        }
    }
}

/// What is built is what is wanted, not shown and not being built, in the order in which it is
/// wanted.
pub proof fn missing_chunks_are_built_in_order(
    targets: Seq<ChunkCoord>,
    shown: Seq<ChunkCoord>,
    pending: Seq<ChunkCoord>,
    n: nat,
)
    requires
        n <= targets.len(),
    ensures
        to_build(targets, shown, pending, n) == targets.take(n as int).filter(
            |c: ChunkCoord| !(shown.contains(c) || pending.contains(c)),
        ),
    decreases n,
{
    let missing = |c: ChunkCoord| !(shown.contains(c) || pending.contains(c));
    reveal(Seq::filter);
    if n > 0 {
        missing_chunks_are_built_in_order(targets, shown, pending, (n - 1) as nat);
        assert(targets.take(n as int).drop_last() =~= targets.take(n - 1));
    }
    assert(to_build(targets, shown, pending, n) =~= targets.take(n as int).filter(missing));
}

/// Dropping a chunk from a list leaves the others, in their order.
pub proof fn dropping_keeps_the_others(list: Seq<ChunkCoord>, coord: ChunkCoord)
    ensures
        without(list, coord) == list.filter(|c: ChunkCoord| c != coord),
    decreases list.len(),
{
    reveal(Seq::filter);
    if list.len() > 0 {
        dropping_keeps_the_others(list.drop_last(), coord);
    }
}

/// Dropping a chunk's finished builds leaves those of the others, in their order.
pub proof fn dropping_keeps_the_other_builds<R>(ready: Seq<(ChunkCoord, R)>, coord: ChunkCoord)
    ensures
        builds_without(ready, coord) == ready.filter(|b: (ChunkCoord, R)| b.0 != coord),
    decreases ready.len(),
{
    reveal(Seq::filter);
    if ready.len() > 0 {
        dropping_keeps_the_other_builds(ready.drop_last(), coord);
    }
}

impl<R> ChunkStream<R> {
    /// What a tick takes away waited longest and is wanted no more, and what it puts up was
    /// finished first and is wanted; with such a chunk at the head a tick does not pass it by.
    pub proof fn ticks_serve_the_longest_waiting(self, coord: ChunkCoord)
        ensures
            self.next_removal() == Some(coord) <==> !self.desired@.contains(coord)
                && self.despawn_queue@.len() > 0 && self.despawn_queue@.first() == coord,
            self.next_arrival() is Some <==> self.ready@.len() > 0 && self.desired@.contains(
                self.ready@.first().0,
            ),
            self.next_arrival() is Some ==> self.next_arrival() == Some(self.ready@.first()) && built(
                self.ready@,
                self.ready@.first().0,
            ),
    {
        if self.ready@.len() > 0 {
            assert(self.ready@[0].0 == self.ready@.first().0);
        }
    }

    /// A camera that stays in the middle of the chunk that it was in changes nothing, whichever
    /// chunks are wanted; one that wants the chunks that are wanted already changes nothing
    /// either; any other camera does.
    pub proof fn only_a_new_view_unsettles(self, fx: int, fz: int)
        requires
            i32::MIN <= fx <= i32::MAX,
            i32::MIN <= fz <= i32::MAX,
        ensures
            self.settled(fx, fz) <==> {
                ||| self.last_center matches Some(c) && c.x == fx / 128 && c.y == fz / 128 && -20 < 2
                    * (fx % 128) + 1 - 128 < 20 && -20 < 2 * (fz % 128) + 1 - 128 < 20
                ||| forall|c: ChunkCoord| #[trigger]
                    targets_of(
                        chunk_of(fx, fz),
                        local_of(fx, fz),
                    ).contains(c) <==> self.desired@.contains(c)
            },
    {
    }
}

} // verus!
