//! Which chunks are wanted around the camera, which are being built, and which are taken
//! away: one build and one removal per tick.
use vstd::prelude::*;

use crate::map::hypermap::{
    chunk_of, local_of, world_to_chunk_local, ChunkCoord, LocalCoord, HYPERMAP_CHUNK_SIZE,
};

verus! {

/// Side of the square in the middle of a chunk inside which the camera changes nothing.
pub const DEAD_ZONE_SIZE: i32 = 20;

/// Ticks of the renderer per second.
pub const RENDER_TICK_HZ: u32 = 30;

/// Whether the coordinate has neighbours on every side.
pub open spec fn has_neighbours(coord: ChunkCoord) -> bool {
    i32::MIN < coord.x < i32::MAX && i32::MIN < coord.y < i32::MAX
}

/// The camera chunk and its neighbour on each axis towards the nearer chunk border.
pub open spec fn targets_of(center: ChunkCoord, local: LocalCoord) -> Seq<ChunkCoord> {
    seq![
        center,
        ChunkCoord {
            x: (if local.x >= 64 {
                center.x + 1
            } else {
                center.x - 1
            }) as i32,
            y: center.y,
        },
        ChunkCoord {
            x: center.x,
            y: (if local.y >= 64 {
                center.y + 1
            } else {
                center.y - 1
            }) as i32,
        },
    ]
}

/// Exactly three chunks: camera chunk plus one neighbor on each axis toward the
/// nearer chunk border (prefetch ahead of panning).
pub fn target_chunks_for(center: ChunkCoord, local: LocalCoord) -> (targets: Vec<ChunkCoord>)
    requires
        has_neighbours(center),
    ensures
        targets@ == targets_of(center, local),
        targets@.len() == 3,
        targets@.no_duplicates(),
{
    let mid: i32 = HYPERMAP_CHUNK_SIZE / 2;
    let x_neighbor = if local.x >= mid {
        ChunkCoord::new(center.x + 1, center.y)
    } else {
        ChunkCoord::new(center.x - 1, center.y)
    };
    let y_neighbor = if local.y >= mid {
        ChunkCoord::new(center.x, center.y + 1)
    } else {
        ChunkCoord::new(center.x, center.y - 1)
    };
    let mut targets: Vec<ChunkCoord> = Vec::with_capacity(3);
    targets.push(center);
    targets.push(x_neighbor);
    targets.push(y_neighbor);
    assert(targets@ =~= targets_of(center, local));
    targets
}

/// Whether a place of a chunk lies in its middle square.
pub open spec fn in_dead_zone(local: LocalCoord) -> bool {
    54 <= local.x < 74 && 54 <= local.y < 74
}

pub fn is_in_center_dead_zone(local: LocalCoord) -> (inside: bool)
    ensures
        inside == in_dead_zone(local),
{
    let center: i32 = HYPERMAP_CHUNK_SIZE / 2;
    let half: i32 = DEAD_ZONE_SIZE / 2;
    let min: i32 = center - half;
    let max: i32 = center + half;
    local.x >= min && local.x < max && local.y >= min && local.y < max
}

pub(crate) fn lists(list: &Vec<ChunkCoord>, coord: ChunkCoord) -> (found: bool)
    ensures
        found == list@.contains(coord),
{
    let mut i: usize = 0;
    while i < list.len()
        invariant
            i <= list@.len(),
            forall|j: int| 0 <= j < i ==> list@[j] != coord,
        decreases list@.len() - i,
    {
        if list[i] == coord {
            assert(list@[i as int] == coord);
            return true;
        }
        i += 1;
    }
    false
}

/// Adds a chunk to a list that does not name it yet.
pub(crate) fn note_chunk(list: &mut Vec<ChunkCoord>, coord: ChunkCoord)
    ensures
        final(list)@ == if old(list)@.contains(coord) {
            old(list)@
        } else {
            old(list)@.push(coord)
        },
{
    if !lists(list, coord) {
        list.push(coord);
    }
}

/// Whether two lists name the same chunks.
pub open spec fn same_chunks(a: Seq<ChunkCoord>, b: Seq<ChunkCoord>) -> bool {
    forall|c: ChunkCoord| #[trigger] a.contains(c) <==> b.contains(c)
}

fn name_same(a: &Vec<ChunkCoord>, b: &Vec<ChunkCoord>) -> (same: bool)
    ensures
        same == same_chunks(a@, b@),
{
    let mut i: usize = 0;
    while i < a.len()
        invariant
            i <= a@.len(),
            forall|j: int| 0 <= j < i ==> b@.contains(#[trigger] a@[j]),
        decreases a@.len() - i,
    {
        if !lists(b, a[i]) {
            assert(a@.contains(a@[i as int]));
            return false;
        }
        i += 1;
    }
    i = 0;
    while i < b.len()
        invariant
            i <= b@.len(),
            forall|j: int| 0 <= j < a@.len() ==> b@.contains(#[trigger] a@[j]),
            forall|j: int| 0 <= j < i ==> a@.contains(#[trigger] b@[j]),
        decreases b@.len() - i,
    {
        if !lists(a, b[i]) {
            assert(b@.contains(b@[i as int]));
            return false;
        }
        i += 1;
    }
    true
}

/// The queue after every chunk of the first `n` old ones that is wanted no more has been
/// appended, unless it waits there already.
pub open spec fn queued(
    queue: Seq<ChunkCoord>,
    old_chunks: Seq<ChunkCoord>,
    targets: Seq<ChunkCoord>,
    n: nat,
) -> Seq<ChunkCoord>
    decreases n,
{
    if n == 0 {
        queue
    } else {
        let before = queued(queue, old_chunks, targets, (n - 1) as nat);
        let c = old_chunks[n - 1];
        if targets.contains(c) || before.contains(c) {
            before
        } else {
            before.push(c)
        }
    }
}

/// Those of the first `n` targets that are neither shown nor being built.
pub open spec fn to_build(
    targets: Seq<ChunkCoord>,
    shown: Seq<ChunkCoord>,
    pending: Seq<ChunkCoord>,
    n: nat,
) -> Seq<ChunkCoord>
    decreases n,
{
    if n == 0 {
        seq![]
    } else {
        let before = to_build(targets, shown, pending, (n - 1) as nat);
        let c = targets[n - 1];
        if shown.contains(c) || pending.contains(c) {
            before
        } else {
            before.push(c)
        }
    }
}

proof fn lemma_queued(
    queue: Seq<ChunkCoord>,
    old_chunks: Seq<ChunkCoord>,
    targets: Seq<ChunkCoord>,
    n: nat,
)
    requires
        n <= old_chunks.len(),
    ensures
        forall|c: ChunkCoord| #[trigger]
            queued(queue, old_chunks, targets, n).contains(c) <==> queue.contains(c) || (
            old_chunks.take(n as int).contains(c) && !targets.contains(c)),
    decreases n,
{
    let after = queued(queue, old_chunks, targets, n);
    if n > 0 {
        lemma_queued(queue, old_chunks, targets, (n - 1) as nat);
        let before = queued(queue, old_chunks, targets, (n - 1) as nat);
        let last = old_chunks[n - 1];
        let part = old_chunks.take(n as int);
        let prior = old_chunks.take(n - 1);
        assert(part =~= prior.push(last));
        assert(part[n - 1] == last);
        assert forall|c: ChunkCoord| part.contains(c) <==> prior.contains(c) || c == last by {
            if prior.contains(c) {
                let k = choose|k: int| 0 <= k < prior.len() && prior[k] == c;
                assert(part[k] == c);
            }
            if part.contains(c) {
                let k = choose|k: int| 0 <= k < part.len() && part[k] == c;
                if k < n - 1 {
                    assert(prior[k] == c);
                }
            }
        }
        if !(targets.contains(last) || before.contains(last)) {
            assert(after[after.len() - 1] == last);
            assert forall|c: ChunkCoord| after.contains(c) <==> before.contains(c) || c == last by {
                if before.contains(c) {
                    let k = choose|k: int| 0 <= k < before.len() && before[k] == c;
                    assert(after[k] == c);
                }
            }
        }
    }
}

proof fn lemma_to_build(
    targets: Seq<ChunkCoord>,
    shown: Seq<ChunkCoord>,
    pending: Seq<ChunkCoord>,
    n: nat,
)
    requires
        n <= targets.len(),
        targets.no_duplicates(),
    ensures
        forall|c: ChunkCoord| #[trigger]
            to_build(targets, shown, pending, n).contains(c) <==> targets.take(n as int).contains(c)
                && !shown.contains(c) && !pending.contains(c),
        to_build(targets, shown, pending, n).no_duplicates(),
    decreases n,
{
    let after = to_build(targets, shown, pending, n);
    if n > 0 {
        lemma_to_build(targets, shown, pending, (n - 1) as nat);
        let before = to_build(targets, shown, pending, (n - 1) as nat);
        let last = targets[n - 1];
        let part = targets.take(n as int);
        let prior = targets.take(n - 1);
        assert(part =~= prior.push(last));
        assert(part[n - 1] == last);
        assert(!prior.contains(last));
        assert forall|c: ChunkCoord| part.contains(c) <==> prior.contains(c) || c == last by {
            if prior.contains(c) {
                let k = choose|k: int| 0 <= k < prior.len() && prior[k] == c;
                assert(part[k] == c);
            }
            if part.contains(c) {
                let k = choose|k: int| 0 <= k < part.len() && part[k] == c;
                if k < n - 1 {
                    assert(prior[k] == c);
                }
            }
        }
        if !(shown.contains(last) || pending.contains(last)) {
            assert(!before.contains(last));
            assert(after == before.push(last));
            assert(after[after.len() - 1] == last);
            assert forall|c: ChunkCoord| after.contains(c) <==> before.contains(c) || c == last by {
                if before.contains(c) {
                    let k = choose|k: int| 0 <= k < before.len() && before[k] == c;
                    assert(after[k] == c);
                }
            }
        }
    }
}

/// Whether one of the finished builds is of the chunk.
pub open spec fn built<R>(ready: Seq<(ChunkCoord, R)>, coord: ChunkCoord) -> bool {
    exists|i: int| 0 <= i < ready.len() && (#[trigger] ready[i]).0 == coord
}

/// A list without one of its chunks.
pub open spec fn without(list: Seq<ChunkCoord>, coord: ChunkCoord) -> Seq<ChunkCoord>
    decreases list.len(),
{
    if list.len() == 0 {
        list
    } else {
        let rest = without(list.drop_last(), coord);
        if list.last() == coord {
            rest
        } else {
            rest.push(list.last())
        }
    }
}

/// The finished builds of all chunks but one.
pub open spec fn builds_without<R>(ready: Seq<(ChunkCoord, R)>, coord: ChunkCoord) -> Seq<
    (ChunkCoord, R),
>
    decreases ready.len(),
{
    if ready.len() == 0 {
        ready
    } else {
        let rest = builds_without(ready.drop_last(), coord);
        if ready.last().0 == coord {
            rest
        } else {
            rest.push(ready.last())
        }
    }
}

/// What is left of a list has all its other chunks.
pub proof fn lemma_without(list: Seq<ChunkCoord>, coord: ChunkCoord)
    ensures
        forall|c: ChunkCoord| #[trigger]
            without(list, coord).contains(c) <==> list.contains(c) && c != coord,
    decreases list.len(),
{
    if list.len() > 0 {
        let rest = list.drop_last();
        lemma_without(rest, coord);
        let kept = without(rest, coord);
        let after = without(list, coord);
        let last = list.last();
        assert(list[list.len() - 1] == last);
        assert forall|c: ChunkCoord| list.contains(c) <==> rest.contains(c) || c == last by {
            if rest.contains(c) {
                let k = choose|k: int| 0 <= k < rest.len() && rest[k] == c;
                assert(list[k] == c);
            }
            if list.contains(c) {
                let k = choose|k: int| 0 <= k < list.len() && list[k] == c;
                if k < rest.len() {
                    assert(rest[k] == c);
                }
            }
        }
        if last != coord {
            assert(after[after.len() - 1] == last);
            assert forall|c: ChunkCoord| after.contains(c) <==> kept.contains(c) || c == last by {
                if kept.contains(c) {
                    let k = choose|k: int| 0 <= k < kept.len() && kept[k] == c;
                    assert(after[k] == c);
                }
            }
        }
    }
}

proof fn lemma_builds_without<R>(ready: Seq<(ChunkCoord, R)>, coord: ChunkCoord)
    ensures
        forall|c: ChunkCoord| #[trigger]
            built(builds_without(ready, coord), c) <==> built(ready, c) && c != coord,
    decreases ready.len(),
{
    if ready.len() > 0 {
        let rest = ready.drop_last();
        lemma_builds_without(rest, coord);
        let kept = builds_without(rest, coord);
        let after = builds_without(ready, coord);
        let last = ready.last();
        assert(ready[ready.len() - 1] == last);
        assert forall|c: ChunkCoord| built(ready, c) <==> built(rest, c) || c == last.0 by {
            if built(rest, c) {
                let k = choose|k: int| 0 <= k < rest.len() && (#[trigger] rest[k]).0 == c;
                assert(ready[k].0 == c);
            }
            if built(ready, c) {
                let k = choose|k: int| 0 <= k < ready.len() && (#[trigger] ready[k]).0 == c;
                if k < rest.len() {
                    assert(rest[k].0 == c);
                }
            }
        }
        if last.0 != coord {
            assert(after[after.len() - 1] == last);
            assert forall|c: ChunkCoord| built(after, c) <==> built(kept, c) || c == last.0 by {
                if built(kept, c) {
                    let k = choose|k: int| 0 <= k < kept.len() && (#[trigger] kept[k]).0 == c;
                    assert(after[k].0 == c);
                }
            }
        }
    }
}

pub(crate) fn drop_chunk(list: &mut Vec<ChunkCoord>, coord: ChunkCoord)
    ensures
        final(list)@ == without(old(list)@, coord),
{
    let mut kept: Vec<ChunkCoord> = Vec::with_capacity(list.len());
    let mut i: usize = 0;
    while i < list.len()
        invariant
            i <= list@.len(),
            list@ == old(list)@,
            kept@ == without(list@.take(i as int), coord),
        decreases list@.len() - i,
    {
        assert(list@.take(i + 1).drop_last() =~= list@.take(i as int));
        if list[i] != coord {
            kept.push(list[i]);
        }
        i += 1;
    }
    assert(list@.take(i as int) =~= list@);
    *list = kept;
}

fn drop_builds<R>(ready: Vec<(ChunkCoord, R)>, coord: ChunkCoord) -> (kept: Vec<(ChunkCoord, R)>)
    ensures
        kept@ == builds_without(ready@, coord),
{
    let ghost all = ready@;
    let mut rest: Vec<(ChunkCoord, R)> = ready;
    let mut kept: Vec<(ChunkCoord, R)> = Vec::new();
    let mut i: usize = 0;
    let n: usize = rest.len();
    while i < n
        invariant
            i <= n,
            n == all.len(),
            rest@ == all.skip(i as int),
            kept@ == builds_without(all.take(i as int), coord),
        decreases n - i,
    {
        assert(all.take(i + 1).drop_last() =~= all.take(i as int));
        assert(rest@[0] == all[i as int]);
        let item = rest.remove(0);
        if item.0 != coord {
            kept.push(item);
        }
        i += 1;
        assert(rest@ =~= all.skip(i as int));
    }
    assert(all.take(n as int) =~= all);
    kept
}

/// What one tick does: a chunk to take away and a finished chunk to put up, which
/// replaces what is shown of it.
#[derive(Debug)]
pub struct ChunkTick<R> {
    pub despawn: Option<ChunkCoord>,
    pub spawn: Option<(ChunkCoord, R)>,
}

/// The chunks around the camera: wanted, shown, being built, finished, and due for
/// removal. `R` is what a build hands back.
#[derive(Debug)]
pub struct ChunkStream<R> {
    pub desired: Vec<ChunkCoord>,
    pub shown: Vec<ChunkCoord>,
    pub pending: Vec<ChunkCoord>,
    pub ready: Vec<(ChunkCoord, R)>,
    pub despawn_queue: Vec<ChunkCoord>,
    pub last_center: Option<ChunkCoord>,
}

impl<R> ChunkStream<R> {
    /// No chunk stays up that is neither wanted nor due for removal, and every wanted
    /// chunk is shown, being built, or finished.
    pub open spec fn sound(self) -> bool {
        &&& forall|c: ChunkCoord| #[trigger]
            self.shown@.contains(c) ==> self.desired@.contains(c) || self.despawn_queue@.contains(c)
        &&& forall|c: ChunkCoord| #[trigger]
            self.desired@.contains(c) ==> self.shown@.contains(c) || self.pending@.contains(c)
                || built(self.ready@, c)
    }

    pub fn new() -> (stream: Self)
        ensures
            stream.sound(),
            stream.desired@ == Seq::<ChunkCoord>::empty(),
            stream.shown@ == Seq::<ChunkCoord>::empty(),
            stream.pending@ == Seq::<ChunkCoord>::empty(),
            stream.ready@ == Seq::<(ChunkCoord, R)>::empty(),
            stream.despawn_queue@ == Seq::<ChunkCoord>::empty(),
            stream.last_center is None,
    {
        ChunkStream {
            desired: Vec::new(),
            shown: Vec::new(),
            pending: Vec::new(),
            ready: Vec::new(),
            despawn_queue: Vec::new(),
            last_center: None,
        }
    }

    /// Whether the camera over world tile `(fx, fz)` leaves the wanted chunks as they are:
    /// it stays in the dead zone of the chunk that it was in, or wants the same chunks.
    pub open spec fn settled(self, fx: int, fz: int) -> bool {
        let center = chunk_of(fx, fz);
        let local = local_of(fx, fz);
        ||| self.last_center == Some(center) && in_dead_zone(local)
        ||| same_chunks(targets_of(center, local), self.desired@)
    }

    /// Moves the camera over world tile `(fx, fz)`. Where the wanted chunks change, hands
    /// back those to build: wanted, and neither shown nor being built.
    pub fn update_visible(&mut self, fx: i32, fz: i32) -> (builds: Option<Vec<ChunkCoord>>)
        requires
            old(self).sound(),
        ensures
            final(self).sound(),
            final(self).last_center == Some(chunk_of(fx as int, fz as int)),
            final(self).shown@ == old(self).shown@,
            final(self).ready@ == old(self).ready@,
            builds is None <==> old(self).settled(fx as int, fz as int),
            match builds {
                None => {
                    &&& final(self).desired@ == old(self).desired@
                    &&& final(self).pending@ == old(self).pending@
                    &&& final(self).despawn_queue@ == old(self).despawn_queue@
                },
                Some(list) => {
                    let targets = targets_of(
                        chunk_of(fx as int, fz as int),
                        local_of(fx as int, fz as int),
                    );
                    &&& final(self).desired@ == targets
                    &&& list@ == to_build(targets, old(self).shown@, old(self).pending@, 3)
                    &&& final(self).pending@ == old(self).pending@ + list@
                    &&& final(self).despawn_queue@ == queued(
                        old(self).despawn_queue@,
                        old(self).desired@,
                        targets,
                        old(self).desired@.len(),
                    )
                },
            },
    {
        let ghost before = *self;
        let (center, local) = world_to_chunk_local(fx, fz);
        let center_changed: bool = match self.last_center {
            Some(last) => last != center,
            None => true,
        };
        self.last_center = Some(center);
        if !center_changed && is_in_center_dead_zone(local) {
            return None;
        }
        let targets = target_chunks_for(center, local);
        if name_same(&targets, &self.desired) {
            return None;
        }
        let mut i: usize = 0;
        while i < self.desired.len()
            invariant
                i <= self.desired@.len(),
                *self == (ChunkStream {
                    last_center: Some(center),
                    despawn_queue: self.despawn_queue,
                    ..before
                }),
                self.despawn_queue@ == queued(
                    before.despawn_queue@,
                    before.desired@,
                    targets@,
                    i as nat,
                ),
            decreases self.desired@.len() - i,
        {
            let obsolete: ChunkCoord = self.desired[i];
            if !lists(&targets, obsolete) && !lists(&self.despawn_queue, obsolete) {
                self.despawn_queue.push(obsolete);
            }
            i += 1;
        }
        let mut builds: Vec<ChunkCoord> = Vec::new();
        i = 0;
        while i < targets.len()
            invariant
                i <= targets@.len(),
                builds@ == to_build(targets@, self.shown@, self.pending@, i as nat),
            decreases targets@.len() - i,
        {
            let c: ChunkCoord = targets[i];
            if !lists(&self.shown, c) && !lists(&self.pending, c) {
                builds.push(c);
            }
            i += 1;
        }
        i = 0;
        let ghost queue = self.despawn_queue;
        while i < builds.len()
            invariant
                i <= builds@.len(),
                *self == (ChunkStream {
                    last_center: Some(center),
                    despawn_queue: queue,
                    pending: self.pending,
                    ..before
                }),
                self.pending@ == before.pending@ + builds@.take(i as int),
            decreases builds@.len() - i,
        {
            self.pending.push(builds[i]);
            i += 1;
            assert(self.pending@ =~= before.pending@ + builds@.take(i as int));
        }
        assert(builds@.take(builds@.len() as int) =~= builds@);
        self.desired = targets;
        proof {
            let n = before.desired@.len();
            lemma_queued(before.despawn_queue@, before.desired@, targets@, n);
            assert(before.desired@.take(n as int) =~= before.desired@);
            lemma_to_build(targets@, before.shown@, before.pending@, 3);
            assert(targets@.take(3) =~= targets@);
            let joined = before.pending@ + builds@;
            assert forall|c: ChunkCoord| before.pending@.contains(c) implies joined.contains(c) by {
                let k = choose|k: int| 0 <= k < before.pending@.len() && before.pending@[k] == c;
                assert(joined[k] == c);
            }
            assert forall|c: ChunkCoord| builds@.contains(c) implies joined.contains(c) by {
                let k = choose|k: int| 0 <= k < builds@.len() && builds@[k] == c;
                assert(joined[before.pending@.len() + k] == c);
            }
        }
        Some(builds)
    }

    /// Starts a chunk's build afresh after its cells were edited; an unfinished or unshown
    /// build of it is dropped. Only wanted chunks are rebuilt. What is shown stays up until
    /// the new build is done.
    pub fn remesh(&mut self, coord: ChunkCoord) -> (rebuild: bool)
        requires
            old(self).sound(),
        ensures
            final(self).sound(),
            rebuild == old(self).desired@.contains(coord),
            final(self).desired@ == old(self).desired@,
            final(self).shown@ == old(self).shown@,
            final(self).despawn_queue@ == old(self).despawn_queue@,
            final(self).last_center == old(self).last_center,
            final(self).pending@ == if rebuild {
                without(old(self).pending@, coord).push(coord)
            } else {
                old(self).pending@
            },
            final(self).ready@ == if rebuild {
                builds_without(old(self).ready@, coord)
            } else {
                old(self).ready@
            },
    {
        if !lists(&self.desired, coord) {
            return false;
        }
        let ghost before = *self;
        drop_chunk(&mut self.pending, coord);
        let ghost kept = self.pending@;
        self.pending.push(coord);
        let mut ready: Vec<(ChunkCoord, R)> = Vec::new();
        std::mem::swap(&mut ready, &mut self.ready);
        self.ready = drop_builds(ready, coord);
        proof {
            lemma_without(before.pending@, coord);
            lemma_builds_without(before.ready@, coord);
            assert(self.pending@[kept.len() as int] == coord);
            assert forall|c: ChunkCoord| kept.contains(c) implies self.pending@.contains(c) by {
                let k = choose|k: int| 0 <= k < kept.len() && kept[k] == c;
                assert(self.pending@[k] == c);
            }
            assert forall|c: ChunkCoord| #[trigger] self.desired@.contains(c) implies self.shown@.contains(
                c,
            ) || self.pending@.contains(c) || built(self.ready@, c) by {
                assert(before.desired@.contains(c));
                if before.pending@.contains(c) && c != coord {
                    assert(kept.contains(c));
                }
                if built(before.ready@, c) && c != coord {
                    assert(built(self.ready@, c));
                }
            }
        }
        true
    }

    /// Takes in a finished build.
    pub fn complete(&mut self, coord: ChunkCoord, prepared: R)
        requires
            old(self).sound(),
        ensures
            final(self).sound(),
            final(self).desired@ == old(self).desired@,
            final(self).shown@ == old(self).shown@,
            final(self).despawn_queue@ == old(self).despawn_queue@,
            final(self).last_center == old(self).last_center,
            final(self).pending@ == without(old(self).pending@, coord),
            final(self).ready@ == old(self).ready@.push((coord, prepared)),
    {
        let ghost before = *self;
        drop_chunk(&mut self.pending, coord);
        self.ready.push((coord, prepared));
        proof {
            lemma_without(before.pending@, coord);
            assert(self.ready@[before.ready@.len() as int].0 == coord);
            assert forall|c: ChunkCoord| built(before.ready@, c) implies built(self.ready@, c) by {
                let k = choose|k: int|
                    0 <= k < before.ready@.len() && (#[trigger] before.ready@[k]).0 == c;
                assert(self.ready@[k].0 == c);
            }
        }
    }

    /// What a tick takes away: the chunk that waits longest, unless it is wanted again.
    pub open spec fn next_removal(self) -> Option<ChunkCoord> {
        if self.despawn_queue@.len() > 0 && !self.desired@.contains(self.despawn_queue@[0]) {
            Some(self.despawn_queue@[0])
        } else {
            None
        }
    }

    /// What a tick puts up: the build that was finished first, unless it is wanted no more.
    pub open spec fn next_arrival(self) -> Option<(ChunkCoord, R)> {
        if self.ready@.len() > 0 && self.desired@.contains(self.ready@[0].0) {
            Some(self.ready@[0])
        } else {
            None
        }
    }

    /// One frame of the renderer: where the cadence is due or a build is finished, looks at
    /// one waiting removal and one finished build.
    pub fn tick(&mut self, cadence_due: bool) -> (tick: ChunkTick<R>)
        requires
            old(self).sound(),
        ensures
            final(self).sound(),
            final(self).desired@ == old(self).desired@,
            final(self).pending@ == old(self).pending@,
            final(self).last_center == old(self).last_center,
            !cadence_due && old(self).ready@.len() == 0 ==> tick.despawn is None && tick.spawn is None
                && final(self).shown@ == old(self).shown@ && final(self).ready@ == old(self).ready@
                && final(self).despawn_queue@ == old(self).despawn_queue@,
            cadence_due || old(self).ready@.len() > 0 ==> {
                &&& tick.despawn == old(self).next_removal()
                &&& tick.spawn == old(self).next_arrival()
                &&& final(self).despawn_queue@ == if old(self).despawn_queue@.len() > 0 {
                    old(self).despawn_queue@.skip(1)
                } else {
                    old(self).despawn_queue@
                }
                &&& final(self).ready@ == if old(self).ready@.len() > 0 {
                    old(self).ready@.skip(1)
                } else {
                    old(self).ready@
                }
                &&& forall|c: ChunkCoord| #[trigger]
                    final(self).shown@.contains(c) <==> (old(self).shown@.contains(c) && old(
                        self,
                    ).next_removal() != Some(c)) || (tick.spawn matches Some(item) && item.0 == c)
            },
    {
        let ghost before = *self;
        if !cadence_due && self.ready.len() == 0 {
            return ChunkTick { despawn: None, spawn: None };
        }
        let mut despawn: Option<ChunkCoord> = None;
        if self.despawn_queue.len() > 0 {
            let coord: ChunkCoord = self.despawn_queue.remove(0);
            assert(self.despawn_queue@ =~= before.despawn_queue@.skip(1));
            if !lists(&self.desired, coord) {
                drop_chunk(&mut self.shown, coord);
                despawn = Some(coord);
                proof {
                    lemma_without(before.shown@, coord);
                }
            }
        }
        let ghost middle = *self;
        let mut spawn: Option<(ChunkCoord, R)> = None;
        if self.ready.len() > 0 {
            let item = self.ready.remove(0);
            assert(self.ready@ =~= before.ready@.skip(1));
            if lists(&self.desired, item.0) {
                drop_chunk(&mut self.shown, item.0);
                let ghost kept = self.shown@;
                self.shown.push(item.0);
                proof {
                    lemma_without(middle.shown@, item.0);
                    assert(self.shown@[kept.len() as int] == item.0);
                    assert forall|c: ChunkCoord| kept.contains(c) implies self.shown@.contains(c) by {
                        let k = choose|k: int| 0 <= k < kept.len() && kept[k] == c;
                        assert(self.shown@[k] == c);
                    }
                }
                spawn = Some(item);
            }
        }
        proof {
            assert forall|c: ChunkCoord|
                before.despawn_queue@.contains(c) && !self.despawn_queue@.contains(c) implies c
                == before.despawn_queue@[0] by {
                let k = choose|k: int|
                    0 <= k < before.despawn_queue@.len() && before.despawn_queue@[k] == c;
                if k > 0 {
                    assert(self.despawn_queue@[k - 1] == c);
                }
            }
            assert forall|c: ChunkCoord| built(before.ready@, c) && !built(self.ready@, c) implies c
                == before.ready@[0].0 by {
                let k = choose|k: int|
                    0 <= k < before.ready@.len() && (#[trigger] before.ready@[k]).0 == c;
                if k > 0 {
                    assert(self.ready@[k - 1].0 == c);
                }
            }
            assert forall|c: ChunkCoord| #[trigger]
                self.shown@.contains(c) <==> (before.shown@.contains(c) && despawn != Some(c)) || (
                spawn matches Some(item) && item.0 == c) by {
                assert(middle.shown@.contains(c) <==> before.shown@.contains(c) && despawn != Some(c));
                if spawn is Some {
                    let item = before.ready@[0];
                    assert(without(middle.shown@, item.0).contains(c) <==> middle.shown@.contains(c)
                        && c != item.0);
                }
            }
            assert forall|c: ChunkCoord| #[trigger]
                self.shown@.contains(c) implies self.desired@.contains(c)
                || self.despawn_queue@.contains(c) by {
                if before.shown@.contains(c) && !self.desired@.contains(c) {
                    assert(before.despawn_queue@.contains(c));
                }
            }
            assert forall|c: ChunkCoord| #[trigger] self.desired@.contains(c) implies self.shown@.contains(
                c,
            ) || self.pending@.contains(c) || built(self.ready@, c) by {
                assert(before.desired@.contains(c));
                if built(before.ready@, c) && !built(self.ready@, c) {
                    assert(self.shown@.contains(c));
                }
            }
        }
        ChunkTick { despawn, spawn }
    }

    /// Whether the chunk that contains world tile `(world_x, world_z)` is on screen.
    pub fn is_world_pos_rendered(&self, world_x: i32, world_z: i32) -> (shown: bool)
        ensures
            shown == self.shown@.contains(chunk_of(world_x as int, world_z as int)),
    {
        let (coord, _) = world_to_chunk_local(world_x, world_z);
        lists(&self.shown, coord)
    }

    /// Chunk coordinates currently targeted for rendering.
    pub fn desired_chunk_coords(&self) -> (coords: Vec<ChunkCoord>)
        ensures
            coords@ == self.desired@,
    {
        let mut coords: Vec<ChunkCoord> = Vec::with_capacity(self.desired.len());
        let mut i: usize = 0;
        while i < self.desired.len()
            invariant
                i <= self.desired@.len(),
                coords@ == self.desired@.take(i as int),
            decreases self.desired@.len() - i,
        {
            coords.push(self.desired[i]);
            i += 1;
            assert(coords@ =~= self.desired@.take(i as int));
        }
        assert(coords@ =~= self.desired@);
        coords
    }
}

/// Chunks that must be built again after cell edits; none occurs twice.
#[derive(Debug)]
pub struct HypermapChunkRemeshQueue(pub Vec<ChunkCoord>);

impl Default for HypermapChunkRemeshQueue {
    fn default() -> (queue: Self)
        ensures
            queue.0@ == Seq::<ChunkCoord>::empty(),
    {
        HypermapChunkRemeshQueue(Vec::new())
    }
}

/// Queues a chunk for mesh rebuild after editing tile `(world_x, world_z)` (ground plane indices).
pub fn queue_hypermap_chunk_remesh(
    queue: &mut HypermapChunkRemeshQueue,
    world_x: i32,
    world_z: i32,
)
    requires
        old(queue).0@.no_duplicates(),
    ensures
        final(queue).0@.no_duplicates(),
        final(queue).0@ == if old(queue).0@.contains(chunk_of(world_x as int, world_z as int)) {
            old(queue).0@
        } else {
            old(queue).0@.push(chunk_of(world_x as int, world_z as int))
        },
{
    let (coord, _) = world_to_chunk_local(world_x, world_z);
    note_chunk(&mut queue.0, coord);
}

/// Notes the floor that is looked at; true when it differs from the one noted before.
pub fn floor_changed(prev_floor: &mut Option<i32>, current: i32) -> (changed: bool)
    ensures
        *final(prev_floor) == Some(current),
        changed == (*old(prev_floor) is Some && *old(prev_floor) != Some(current)),
{
    let changed: bool = match *prev_floor {
        Some(floor) => floor != current,
        None => false,
    };
    *prev_floor = Some(current);
    changed
}

} // verus!
