//! Per-cell actor occupancy: which actors currently stand on each world tile,
//! plus each tracked bot's kinematics (where it is, which way it's going, its
//! size).
//!
//! Positions are counted in thousandths of a tile.
use vstd::prelude::*;

use crate::map::field_interactions::{actor_main_tile, tile_of};
use crate::table::{without_key, Table, TableKey};

verus! {

/// A tile as a key.
#[derive(Debug, Clone, Copy, PartialEq, Eq, Structural)]
pub struct TileKey {
    pub x: i32,
    pub y: i32,
}

impl TableKey for TileKey {
    /// Both components, shifted to be non-negative and laid side by side.
    open spec fn number(self) -> u128 {
        ((self.x + 0x8000_0000) * 0x1_0000_0000 + (self.y + 0x8000_0000)) as u128
    }

    fn table_number(&self) -> (n: u128) {
        (self.x as i64 + 0x8000_0000) as u128 * 0x1_0000_0000 + (self.y as i64 + 0x8000_0000) as u128
    }

    fn same_key(&self, other: &Self) -> (same: bool) {
        *self == *other
    }

    proof fn one_number_one_key(a: Self, b: Self) {
        let (ax, ay) = (a.x + 0x8000_0000, a.y + 0x8000_0000);
        let (bx, by) = (b.x + 0x8000_0000, b.y + 0x8000_0000);
        assert(ax * 0x1_0000_0000 + ay == bx * 0x1_0000_0000 + by);
        assert(ax == bx && ay == by);
    }
}

/// Per-bot kinematics tracked alongside cell occupancy: enough to reason about a
/// neighbour's motion (where it is, which way it's going, how big it is).
#[derive(Debug, Clone, Copy, PartialEq, Eq)]
pub struct BotKinematics {
    /// Main tile (the [`CellOccupancy`] key).
    pub tile: (i32, i32),
    /// Center, in thousandths of a tile.
    pub center: (i64, i64),
    /// Movement direction in thousandths; none when both are zero.
    pub heading: (i32, i32),
    /// Footprint radius in subtiles.
    pub radius_subtiles: i32,
}

impl BotKinematics {
    /// `true` when this bot has a known movement direction.
    pub fn is_moving(&self) -> (moving: bool)
        ensures
            moving == (self.heading != (0i32, 0i32)),
    {
        self.heading.0 != 0 || self.heading.1 != 0
    }
}

/// A list of which one item was taken out, the last one moved into its place.
pub open spec fn swapped_out(list: Seq<u64>, at: int) -> Seq<u64> {
    list.update(at, list.last()).drop_last()
}

/// Live map of `world tile -> actors whose main tile is that tile`, plus a
/// per-actor [`BotKinematics`] index.
#[derive(Debug)]
pub struct CellOccupancy {
    cells: Table<TileKey, Vec<u64>>,
    info: Table<u64, BotKinematics>,
}

pub open spec fn key_of(tile: (i32, i32)) -> TileKey {
    TileKey { x: tile.0, y: tile.1 }
}

impl CellOccupancy {
    /// The actors listed on a tile.
    pub closed spec fn on_tile(self, tile: (i32, i32)) -> Seq<u64> {
        if self.cells@.contains_key(key_of(tile)) {
            self.cells@[key_of(tile)]@
        } else {
            seq![]
        }
    }

    /// What is recorded of an actor.
    pub closed spec fn record(self, actor: u64) -> Option<BotKinematics> {
        if self.info@.contains_key(actor) {
            Some(self.info@[actor])
        } else {
            None
        }
    }

    /// The tracked actors.
    pub closed spec fn actors(self) -> Seq<u64> {
        self.info.keys_in_order()
    }

    /// An actor is listed on a tile exactly when it is recorded there, once, and no tile
    /// without actors is kept.
    pub closed spec fn wf(self) -> bool {
        &&& self.cells.wf()
        &&& self.info.wf()
        &&& forall|k: TileKey| #[trigger] self.cells@.contains_key(k) ==> self.cells@[k]@.len() > 0
        &&& forall|t: (i32, i32)| #[trigger] self.on_tile(t).no_duplicates()
        &&& forall|t: (i32, i32), a: u64| #[trigger]
            self.on_tile(t).contains(a) <==> self.info@.contains_key(a) && self.info@[a].tile == t
    }

    /// Every actor is listed on the tile that is recorded for it, once, and on no other.
    pub proof fn lists_mirror_records(self)
        requires
            self.wf(),
        ensures
            forall|t: (i32, i32)| #[trigger] self.on_tile(t).no_duplicates(),
            forall|t: (i32, i32), a: u64| #[trigger]
                self.on_tile(t).contains(a) <==> (self.record(a) matches Some(k) && k.tile == t),
            self.actors().no_duplicates(),
            forall|a: u64| #[trigger] self.actors().contains(a) <==> self.record(a) is Some,
    {
        self.info.keys_are_the_domain();
    }

    pub fn new() -> (occupancy: Self)
        ensures
            occupancy.wf(),
            forall|t: (i32, i32)| #[trigger] occupancy.on_tile(t) == Seq::<u64>::empty(),
            forall|a: u64| #[trigger] occupancy.record(a) is None,
            occupancy.actors() == Seq::<u64>::empty(),
    {
        CellOccupancy { cells: Table::new(), info: Table::new() }
    }

    /// All actors whose main tile is `tile`. Empty slice when the cell is empty.
    pub fn entities_in(&self, tile: (i32, i32)) -> (actors: &[u64])
        ensures
            actors@ == self.on_tile(tile),
    {
        match self.cells.get(TileKey { x: tile.0, y: tile.1 }) {
            Some(list) => list.as_slice(),
            None => &[],
        }
    }

    /// Whether a list is kept for a tile: none is kept without actors.
    pub fn keeps_cell(&self, tile: (i32, i32)) -> (kept: bool)
        requires
            self.wf(),
        ensures
            kept == (self.on_tile(tile).len() > 0),
    {
        self.cells.contains(TileKey { x: tile.0, y: tile.1 })
    }

    /// The cell `actor` is currently recorded in, if it is tracked.
    pub fn cell_of(&self, actor: u64) -> (tile: Option<(i32, i32)>)
        ensures
            tile == match self.record(actor) {
                Some(k) => Some(k.tile),
                None => None,
            },
    {
        match self.info.get(actor) {
            Some(k) => Some(k.tile),
            None => None,
        }
    }

    /// The full kinematics snapshot recorded for `actor`, if it is tracked.
    pub fn kinematics_of(&self, actor: u64) -> (kin: Option<BotKinematics>)
        ensures
            kin == self.record(actor),
    {
        match self.info.get(actor) {
            Some(k) => Some(*k),
            None => None,
        }
    }

    /// Number of tracked actors (one per live actor).
    pub fn tracked_len(&self) -> (n: usize)
        ensures
            n == self.actors().len(),
    {
        self.info.keys().len()
    }

    pub fn is_empty(&self) -> (empty: bool)
        ensures
            empty == (self.actors().len() == 0),
    {
        self.info.keys().len() == 0
    }
}

impl Default for CellOccupancy {
    fn default() -> (occupancy: Self)
        ensures
            occupancy.wf(),
            forall|t: (i32, i32)| #[trigger] occupancy.on_tile(t) == Seq::<u64>::empty(),
            forall|a: u64| #[trigger] occupancy.record(a) is None,
            occupancy.actors() == Seq::<u64>::empty(),
    {
        CellOccupancy::new()
    }
}

fn position(list: &Vec<u64>, actor: u64) -> (at: usize)
    requires
        list@.contains(actor),
    ensures
        at < list@.len(),
        list@[at as int] == actor,
{
    let mut i: usize = 0;
    while i < list.len()
        invariant
            i <= list@.len(),
            list@.contains(actor),
            forall|j: int| 0 <= j < i ==> list@[j] != actor,
        decreases list@.len() - i,
    {
        if list[i] == actor {
            return i;
        }
        i += 1;
    }
    proof {
        let j = choose|j: int| 0 <= j < list@.len() && list@[j] == actor;
        assert(list@[j] != actor);
    }
    0
}

proof fn lemma_swapped_out(list: Seq<u64>, at: int)
    requires
        list.no_duplicates(),
        0 <= at < list.len(),
    ensures
        swapped_out(list, at).no_duplicates(),
        forall|a: u64| #[trigger]
            swapped_out(list, at).contains(a) <==> list.contains(a) && a != list[at],
{
    let after = swapped_out(list, at);
    assert forall|i: int| 0 <= i < after.len() implies #[trigger] after[i] == if i == at {
        list[list.len() - 1]
    } else {
        list[i]
    } by {}
    assert forall|a: u64| #[trigger] after.contains(a) <==> list.contains(a) && a != list[at] by {
        if after.contains(a) {
            let i = choose|i: int| 0 <= i < after.len() && after[i] == a;
            assert(list[if i == at {
                list.len() - 1
            } else {
                i
            }] == a);
        }
        if list.contains(a) && a != list[at] {
            let i = choose|i: int| 0 <= i < list.len() && list[i] == a;
            if i == list.len() - 1 {
                assert(after[at] == a);
            } else {
                assert(after[i] == a);
            }
        }
    }
}

/// Whether the actor was taken out of the list.
pub open spec fn left_by(before: Seq<u64>, after: Seq<u64>, actor: u64) -> bool {
    exists|at: int|
        0 <= at < before.len() && before[at] == actor && after == #[trigger] swapped_out(before, at)
}

impl CellOccupancy {
    /// Lists are kept only for tiles with actors.
    spec fn sparse(self) -> bool {
        self.cells.wf() && forall|k: TileKey| #[trigger]
            self.cells@.contains_key(k) ==> self.cells@[k]@.len() > 0
    }

    /// Adds `actor` to `tile`'s list (creating the cell entry if needed).
    fn attach(&mut self, actor: u64, tile: (i32, i32))
        requires
            old(self).sparse(),
        ensures
            final(self).sparse(),
            final(self).info == old(self).info,
            forall|t: (i32, i32)| #[trigger]
                final(self).on_tile(t) == if t == tile {
                    old(self).on_tile(t).push(actor)
                } else {
                    old(self).on_tile(t)
                },
    {
        let ghost before = *self;
        let list = self.cells.slot(TileKey { x: tile.0, y: tile.1 }, Vec::new());
        list.push(actor);
        proof {
            assert forall|t: (i32, i32)| #[trigger]
                self.on_tile(t) == if t == tile {
                    before.on_tile(t).push(actor)
                } else {
                    before.on_tile(t)
                } by {
                if t != tile {
                    assert(key_of(t) != key_of(tile));
                }
            }
        }
    }

    /// Removes `actor` from `tile`'s list, pruning the entry when it empties so
    /// the map stays sparse.
    fn detach(&mut self, actor: u64, tile: (i32, i32))
        requires
            old(self).sparse(),
            old(self).on_tile(tile).contains(actor),
        ensures
            final(self).sparse(),
            final(self).info == old(self).info,
            left_by(old(self).on_tile(tile), final(self).on_tile(tile), actor),
            forall|t: (i32, i32)| t != tile ==> #[trigger] final(self).on_tile(t) == old(self).on_tile(t),
    {
        let ghost before = *self;
        let key = TileKey { x: tile.0, y: tile.1 };
        let at: usize = match self.cells.get(key) {
            Some(list) => position(list, actor),
            None => 0,
        };
        let list = self.cells.slot(key, Vec::new());
        let _ = list.swap_remove(at);
        let empty: bool = list.len() == 0;
        if empty {
            let _ = self.cells.remove(key);
        }
        proof {
            assert forall|t: (i32, i32)| t != tile implies #[trigger] self.on_tile(t)
                == before.on_tile(t) by {
                assert(key_of(t) != key_of(tile));
            }
            assert(self.on_tile(tile) =~= swapped_out(before.on_tile(tile), at as int));
        }
    }

    /// Records `actor`'s current `kin`, moving it between cells when its main tile
    /// changed. Returns `true` when the **cell** actually changed (or the actor is
    /// new); the kinematics value is always refreshed regardless.
    pub fn update(&mut self, actor: u64, kin: BotKinematics) -> (changed: bool)
        requires
            old(self).wf(),
        ensures
            final(self).wf(),
            changed <==> !(old(self).record(actor) matches Some(k) && k.tile == kin.tile),
            forall|a: u64| #[trigger]
                final(self).record(a) == if a == actor {
                    Some(kin)
                } else {
                    old(self).record(a)
                },
            final(self).actors() == if old(self).record(actor) is None {
                old(self).actors().push(actor)
            } else {
                old(self).actors()
            },
            forall|t: (i32, i32)|
                if !changed {
                    #[trigger] final(self).on_tile(t) == old(self).on_tile(t)
                } else if t == kin.tile {
                    final(self).on_tile(t) == old(self).on_tile(t).push(actor)
                } else if old(self).record(actor) matches Some(k) && k.tile == t {
                    left_by(old(self).on_tile(t), final(self).on_tile(t), actor)
                } else {
                    final(self).on_tile(t) == old(self).on_tile(t)
                },
    {
        let ghost before = *self;
        proof {
            before.lists_mirror_records();
        }
        let changed: bool = match self.cell_of(actor) {
            Some(prev) => {
                if prev.0 == kin.tile.0 && prev.1 == kin.tile.1 {
                    false
                } else {
                    assert(before.on_tile(prev).contains(actor));
                    self.detach(actor, prev);
                    self.attach(actor, kin.tile);
                    true
                }
            },
            None => {
                self.attach(actor, kin.tile);
                true
            },
        };
        let ghost middle = *self;
        let slot = self.info.slot(actor, kin);
        *slot = kin;
        proof {
            assert(self.cells == middle.cells);
            assert forall|t: (i32, i32)| #[trigger] self.on_tile(t) == middle.on_tile(t) by {}
            assert forall|t: (i32, i32), a: u64| #[trigger]
                self.on_tile(t).contains(a) <==> self.info@.contains_key(a) && self.info@[a].tile
                    == t by {
                self.lemma_listed(before, actor, kin, changed, t, a);
            }
            assert forall|t: (i32, i32)| #[trigger] self.on_tile(t).no_duplicates() by {
                self.lemma_listed(before, actor, kin, changed, t, actor);
            }
        }
        changed
    }

    proof fn lemma_listed(
        self,
        before: Self,
        actor: u64,
        kin: BotKinematics,
        changed: bool,
        t: (i32, i32),
        a: u64,
    )
        requires
            before.wf(),
            changed <==> !(before.record(actor) matches Some(k) && k.tile == kin.tile),
            self.info@ == before.info@.insert(actor, kin),
            if !changed {
                self.on_tile(t) == before.on_tile(t)
            } else if t == kin.tile {
                self.on_tile(t) == before.on_tile(t).push(actor)
            } else if before.record(actor) matches Some(k) && k.tile == t {
                left_by(before.on_tile(t), self.on_tile(t), actor)
            } else {
                self.on_tile(t) == before.on_tile(t)
            },
        ensures
            self.on_tile(t).contains(a) <==> self.info@.contains_key(a) && self.info@[a].tile == t,
            self.on_tile(t).no_duplicates(),
    {
        let old_list = before.on_tile(t);
        let new_list = self.on_tile(t);
        assert(old_list.no_duplicates());
        assert(old_list.contains(a) <==> before.info@.contains_key(a) && before.info@[a].tile == t);
        assert(old_list.contains(actor) <==> before.info@.contains_key(actor)
            && before.info@[actor].tile == t);
        if changed && t == kin.tile {
            assert(!old_list.contains(actor));
            assert(new_list[old_list.len() as int] == actor);
            if old_list.contains(a) {
                let i = choose|i: int| 0 <= i < old_list.len() && old_list[i] == a;
                assert(new_list[i] == a);
            }
            if new_list.contains(a) && a != actor {
                let i = choose|i: int| 0 <= i < new_list.len() && new_list[i] == a;
                assert(old_list[i] == a);
            }
        } else if changed && (before.record(actor) matches Some(k) && k.tile == t) {
            let at = choose|at: int|
                0 <= at < old_list.len() && old_list[at] == actor && new_list == #[trigger] swapped_out(
                    old_list,
                    at,
                );
            lemma_swapped_out(old_list, at);
        }
    }

    /// Drops `actor` from the map entirely (despawn / no longer an actor).
    pub fn remove(&mut self, actor: u64)
        requires
            old(self).wf(),
        ensures
            final(self).wf(),
            forall|a: u64| #[trigger]
                final(self).record(a) == if a == actor {
                    None
                } else {
                    old(self).record(a)
                },
            final(self).actors() == without_key(old(self).actors(), actor),
            forall|t: (i32, i32)|
                if old(self).record(actor) matches Some(k) && k.tile == t {
                    left_by(old(self).on_tile(t), #[trigger] final(self).on_tile(t), actor)
                } else {
                    final(self).on_tile(t) == old(self).on_tile(t)
                },
    {
        let ghost before = *self;
        proof {
            before.lists_mirror_records();
        }
        let taken = self.info.remove(actor);
        match taken {
            Some(kin) => {
                assert(before.on_tile(kin.tile).contains(actor));
                assert(self.on_tile(kin.tile) == before.on_tile(kin.tile));
                self.detach(actor, kin.tile);
            },
            None => {},
        }
        proof {
            assert forall|t: (i32, i32)|
                if before.record(actor) matches Some(k) && k.tile == t {
                    left_by(before.on_tile(t), #[trigger] self.on_tile(t), actor)
                } else {
                    self.on_tile(t) == before.on_tile(t)
                } by {}
            assert forall|t: (i32, i32), a: u64| #[trigger]
                self.on_tile(t).contains(a) <==> self.info@.contains_key(a) && self.info@[a].tile
                    == t by {
                self.lemma_left(before, actor, t, a);
            }
            assert forall|t: (i32, i32)| #[trigger] self.on_tile(t).no_duplicates() by {
                self.lemma_left(before, actor, t, actor);
            }
        }
    }

    proof fn lemma_left(self, before: Self, actor: u64, t: (i32, i32), a: u64)
        requires
            before.wf(),
            self.info@ == before.info@.remove(actor),
            if before.record(actor) matches Some(k) && k.tile == t {
                left_by(before.on_tile(t), self.on_tile(t), actor)
            } else {
                self.on_tile(t) == before.on_tile(t)
            },
        ensures
            self.on_tile(t).contains(a) <==> self.info@.contains_key(a) && self.info@[a].tile == t,
            self.on_tile(t).no_duplicates(),
    {
        let old_list = before.on_tile(t);
        let new_list = self.on_tile(t);
        assert(old_list.no_duplicates());
        assert(old_list.contains(a) <==> before.info@.contains_key(a) && before.info@[a].tile == t);
        assert(old_list.contains(actor) <==> before.info@.contains_key(actor)
            && before.info@[actor].tile == t);
        if before.record(actor) matches Some(k) && k.tile == t {
            let at = choose|at: int|
                0 <= at < old_list.len() && old_list[at] == actor && new_list == #[trigger] swapped_out(
                    old_list,
                    at,
                );
            lemma_swapped_out(old_list, at);
        }
    }
}

/// Squared distance from a center to the middle of a subtile, in thousandths of a tile.
pub open spec fn distance2(center: (i64, i64), subtile: (i32, i32)) -> int {
    let dx = center.0 - (2 * subtile.0 + 1) * 100;
    let dy = center.1 - (2 * subtile.1 + 1) * 100;
    dx * dx + dy * dy
}

/// Square of the footprint radius plus one subtile, in thousandths of a tile.
pub open spec fn reach2(radius_subtiles: i32) -> int {
    ((radius_subtiles + 1) * 200) * ((radius_subtiles + 1) * 200)
}

/// The squared distance, if it is within reach.
fn distance_in_reach(center: (i64, i64), subtile: (i32, i32), radius_subtiles: i32) -> (d: Option<
    i128,
>)
    ensures
        match d {
            Some(d) => d == distance2(center, subtile) && d <= reach2(radius_subtiles),
            None => distance2(center, subtile) > reach2(radius_subtiles),
        },
{
    let dx: i128 = center.0 as i128 - (2 * subtile.0 as i128 + 1) * 100;
    let dy: i128 = center.1 as i128 - (2 * subtile.1 as i128 + 1) * 100;
    let signed: i128 = (radius_subtiles as i128 + 1) * 200;
    let reach: i128 = if signed < 0 {
        -signed
    } else {
        signed
    };
    proof {
        assert(reach * reach == signed * signed) by (nonlinear_arith)
            requires
                reach == signed || reach == -signed,
        ;
        assert(reach2(radius_subtiles) == signed * signed);
    }
    if dx > reach || dx < -reach || dy > reach || dy < -reach {
        proof {
            assert(dx * dx + dy * dy > reach * reach) by (nonlinear_arith)
                requires
                    reach >= 0,
                    dx > reach || dx < -reach || dy > reach || dy < -reach,
            ;
        }
        return None;
    }
    proof {
        assert(dx * dx <= reach * reach && dy * dy <= reach * reach && reach * reach
            <= 0x1_0000_0000_0000_0000_0000_0000) by (nonlinear_arith)
            requires
                0 <= reach <= 0x1_0000_0000_0000,
                -reach <= dx <= reach,
                -reach <= dy <= reach,
        ;
        assert(dx * dx >= 0 && dy * dy >= 0) by (nonlinear_arith);
    }
    let d2: i128 = dx * dx + dy * dy;
    if d2 <= reach * reach {
        Some(d2)
    } else {
        None
    }
}

impl CellOccupancy {
    /// Whether the actor's body can reach the middle of the subtile, and it is not the one
    /// left out.
    pub open spec fn reaches_subtile(self, actor: u64, subtile: (i32, i32), exclude: u64) -> bool {
        actor != exclude && (self.record(actor) matches Some(k) && distance2(k.center, subtile)
            <= reach2(k.radius_subtiles))
    }

    /// Whether the actor may own the subtile: it is recorded on the subtile's tile or a
    /// neighbour of it, and its body reaches.
    pub open spec fn may_own(self, actor: u64, subtile: (i32, i32), exclude: u64) -> bool {
        self.reaches_subtile(actor, subtile, exclude) && (self.record(actor) matches Some(k)
            && subtile.0 as int / 5 - 1 <= k.tile.0 <= subtile.0 as int / 5 + 1 && subtile.1 as int / 5
            - 1 <= k.tile.1 <= subtile.1 as int / 5 + 1)
    }

    spec fn best_so_far(
        self,
        best: Option<(u64, BotKinematics, i128)>,
        subtile: (i32, i32),
        exclude: u64,
    ) -> bool {
        best matches Some(b) ==> self.may_own(b.0, subtile, exclude) && self.record(b.0) == Some(b.1)
            && b.2 == distance2(b.1.center, subtile)
    }

    spec fn beats(
        self,
        best: Option<(u64, BotKinematics, i128)>,
        tile: (i32, i32),
        subtile: (i32, i32),
        exclude: u64,
    ) -> bool {
        forall|a: u64| #[trigger]
            self.on_tile(tile).contains(a) && self.reaches_subtile(a, subtile, exclude) ==> (
            best matches Some(b) && b.2 <= distance2(self.record(a)->0.center, subtile))
    }

    fn scan_tile(
        &self,
        tile: (i32, i32),
        subtile: (i32, i32),
        exclude: u64,
        best: Option<(u64, BotKinematics, i128)>,
    ) -> (found: Option<(u64, BotKinematics, i128)>)
        requires
            self.wf(),
            self.best_so_far(best, subtile, exclude),
            subtile.0 as int / 5 - 1 <= tile.0 <= subtile.0 as int / 5 + 1,
            subtile.1 as int / 5 - 1 <= tile.1 <= subtile.1 as int / 5 + 1,
        ensures
            self.best_so_far(found, subtile, exclude),
            best matches Some(b) ==> (found matches Some(f) && f.2 <= b.2),
            self.beats(found, tile, subtile, exclude),
    {
        proof {
            self.lists_mirror_records();
        }
        let here = self.entities_in(tile);
        let mut found: Option<(u64, BotKinematics, i128)> = best;
        let mut i: usize = 0;
        while i < here.len()
            invariant
                i <= here@.len(),
                self.wf(),
                here@ == self.on_tile(tile),
                subtile.0 as int / 5 - 1 <= tile.0 <= subtile.0 as int / 5 + 1,
                subtile.1 as int / 5 - 1 <= tile.1 <= subtile.1 as int / 5 + 1,
                forall|a: u64| #[trigger]
                    self.on_tile(tile).contains(a) <==> (self.record(a) matches Some(k) && k.tile
                        == tile),
                self.best_so_far(found, subtile, exclude),
                best matches Some(b) ==> (found matches Some(f) && f.2 <= b.2),
                forall|j: int|
                    0 <= j < i && self.reaches_subtile(#[trigger] here@[j], subtile, exclude) ==> (
                    found matches Some(f) && f.2 <= distance2(
                        self.record(here@[j])->0.center,
                        subtile,
                    )),
            decreases here@.len() - i,
        {
            let actor: u64 = here[i];
            assert(self.on_tile(tile).contains(actor));
            if actor != exclude {
                match self.kinematics_of(actor) {
                    Some(kin) => match distance_in_reach(kin.center, subtile, kin.radius_subtiles) {
                        Some(d2) => {
                            let nearer: bool = match found {
                                Some((_, _, best_d2)) => d2 < best_d2,
                                None => true,
                            };
                            if nearer {
                                found = Some((actor, kin, d2));
                            }
                        },
                        None => {},
                    },
                    None => {},
                }
            }
            i += 1;
        }
        proof {
            assert forall|a: u64| #[trigger]
                self.on_tile(tile).contains(a) && self.reaches_subtile(a, subtile, exclude) implies (
            found matches Some(b) && b.2 <= distance2(self.record(a)->0.center, subtile)) by {
                let j = choose|j: int| 0 <= j < here@.len() && here@[j] == a;
                assert(self.reaches_subtile(here@[j], subtile, exclude));
            }
        }
        found
    }

    /// The bot most likely occupying `world_subtile` (a collision's blocked
    /// subtile), excluding `exclude` (the querying bot). A bot's footprint can
    /// spill one tile past its main cell, so this scans the subtile's tile plus its
    /// eight neighbours and returns the **nearest-centered** candidate whose body
    /// can plausibly reach the probed subtile (footprint radius plus one subtile).
    /// `None` when nothing qualifies. Which of several equally near ones is returned is
    /// left open.
    pub fn resolve_blocker(&self, world_subtile: (i32, i32), exclude: u64) -> (owner: Option<
        (u64, BotKinematics),
    >)
        requires
            self.wf(),
        ensures
            match owner {
                Some((actor, kin)) => {
                    &&& self.record(actor) == Some(kin)
                    &&& self.may_own(actor, world_subtile, exclude)
                    &&& forall|a: u64| #[trigger]
                        self.may_own(a, world_subtile, exclude) ==> distance2(
                            kin.center,
                            world_subtile,
                        ) <= distance2(self.record(a)->0.center, world_subtile)
                },
                None => forall|a: u64| !#[trigger] self.may_own(a, world_subtile, exclude),
            },
    {
        proof {
            self.lists_mirror_records();
        }
        let x: i32 = floor_fifth(world_subtile.0);
        let y: i32 = floor_fifth(world_subtile.1);
        let mut best: Option<(u64, BotKinematics, i128)> = None;
        let mut dy: i32 = -1;
        while dy <= 1
            invariant
                self.wf(),
                -1 <= dy <= 2,
                x == world_subtile.0 as int / 5,
                y == world_subtile.1 as int / 5,
                -429_496_730 <= x <= 429_496_729,
                -429_496_730 <= y <= 429_496_729,
                self.best_so_far(best, world_subtile, exclude),
                forall|tx: i32, ty: i32|
                    x - 1 <= tx <= x + 1 && y - 1 <= ty < y + dy ==> #[trigger] self.beats(
                        best,
                        (tx, ty),
                        world_subtile,
                        exclude,
                    ),
            decreases 2 - dy,
        {
            let mut dx: i32 = -1;
            while dx <= 1
                invariant
                    self.wf(),
                    -1 <= dx <= 2,
                    -1 <= dy <= 1,
                    x == world_subtile.0 as int / 5,
                    y == world_subtile.1 as int / 5,
                    -429_496_730 <= x <= 429_496_729,
                    -429_496_730 <= y <= 429_496_729,
                    self.best_so_far(best, world_subtile, exclude),
                    forall|tx: i32, ty: i32|
                        (x - 1 <= tx <= x + 1 && y - 1 <= ty < y + dy) || (x - 1 <= tx < x + dx && ty
                            == y + dy) ==> #[trigger] self.beats(
                            best,
                            (tx, ty),
                            world_subtile,
                            exclude,
                        ),
                decreases 2 - dx,
            {
                let ghost prior = best;
                best = self.scan_tile((x + dx, y + dy), world_subtile, exclude, best);
                proof {
                    assert forall|tx: i32, ty: i32|
                        (x - 1 <= tx <= x + 1 && y - 1 <= ty < y + dy) || (x - 1 <= tx < x + dx + 1
                            && ty == y + dy) implies #[trigger] self.beats(
                        best,
                        (tx, ty),
                        world_subtile,
                        exclude,
                    ) by {
                        if !(tx == x + dx && ty == y + dy) {
                            assert(self.beats(prior, (tx, ty), world_subtile, exclude));
                        }
                    }
                }
                dx += 1;
            }
            dy += 1;
        }
        proof {
            assert forall|a: u64| #[trigger] self.may_own(a, world_subtile, exclude) implies (
            best matches Some(b) && b.2 <= distance2(self.record(a)->0.center, world_subtile)) by {
                let t = self.record(a)->0.tile;
                assert(self.on_tile(t).contains(a));
                assert(self.beats(best, (t.0, t.1), world_subtile, exclude));
            }
        }
        match best {
            Some((actor, kin, _)) => Some((actor, kin)),
            None => None,
        }
    }
}

fn floor_fifth(a: i32) -> (q: i32)
    ensures
        q == a as int / 5,
        -429_496_730 <= q <= 429_496_729,
{
    if a >= 0 {
        a / 5
    } else {
        -((-(a + 1)) / 5) - 1
    }
}

/// A live actor as it reports itself.
#[derive(Debug, Clone, Copy)]
pub struct ActorReport {
    pub actor: u64,
    pub center: (i64, i64),
    pub heading: (i32, i32),
    pub radius_subtiles: i32,
}

impl ActorReport {
    /// The record that the report leads to.
    pub open spec fn recorded(self, kin: BotKinematics) -> bool {
        &&& kin.tile.0 == tile_of(self.center.0 as int)
        &&& kin.tile.1 == tile_of(self.center.1 as int)
        &&& kin.center == self.center
        &&& kin.heading == self.heading
        &&& kin.radius_subtiles == self.radius_subtiles
    }
}

/// Keeps the map in step with the actors: drops those that are gone, then records every live
/// one's main tile and movement.
pub fn track_cell_occupancy(
    occupancy: &mut CellOccupancy,
    actors: &Vec<ActorReport>,
    removed: &Vec<u64>,
)
    requires
        old(occupancy).wf(),
    ensures
        final(occupancy).wf(),
        forall|i: int|
            #![trigger actors@[i]]
            0 <= i < actors@.len() && (forall|j: int|
                i < j < actors@.len() ==> (#[trigger] actors@[j]).actor != actors@[i].actor)
                ==> (final(occupancy).record(actors@[i].actor) matches Some(kin)
                && actors@[i].recorded(kin)),
        forall|a: u64|
            (forall|i: int| 0 <= i < actors@.len() ==> (#[trigger] actors@[i]).actor != a)
                ==> #[trigger] final(occupancy).record(a) == if removed@.contains(a) {
                None
            } else {
                old(occupancy).record(a)
            },
{
    let mut k: usize = 0;
    while k < removed.len()
        invariant
            k <= removed@.len(),
            occupancy.wf(),
            forall|a: u64| #[trigger]
                occupancy.record(a) == if removed@.take(k as int).contains(a) {
                    None
                } else {
                    old(occupancy).record(a)
                },
        decreases removed@.len() - k,
    {
        occupancy.remove(removed[k]);
        proof {
            let fewer = removed@.take(k as int);
            let more = removed@.take(k + 1);
            assert(more =~= fewer.push(removed@[k as int]));
            assert forall|a: u64| more.contains(a) == (fewer.contains(a) || a == removed@[k as int]) by {
                if fewer.contains(a) {
                    let i = choose|i: int| 0 <= i < fewer.len() && fewer[i] == a;
                    assert(more[i] == a);
                }
                assert(more[k as int] == removed@[k as int]);
            }
        }
        k += 1;
    }
    assert(removed@.take(k as int) =~= removed@);
    let ghost cleared = *occupancy;
    let mut i: usize = 0;
    while i < actors.len()
        invariant
            i <= actors@.len(),
            occupancy.wf(),
            forall|p: int|
                #![trigger actors@[p]]
                0 <= p < i && (forall|j: int|
                    p < j < i ==> (#[trigger] actors@[j]).actor != actors@[p].actor) ==> (
                occupancy.record(actors@[p].actor) matches Some(kin) && actors@[p].recorded(kin)),
            forall|a: u64|
                (forall|p: int| 0 <= p < i ==> (#[trigger] actors@[p]).actor != a)
                    ==> #[trigger] occupancy.record(a) == cleared.record(a),
        decreases actors@.len() - i,
    {
        let report = actors[i];
        let kin = BotKinematics {
            tile: actor_main_tile(report.center),
            center: report.center,
            heading: report.heading,
            radius_subtiles: report.radius_subtiles,
        };
        let ghost before = *occupancy;
        occupancy.update(report.actor, kin);
        proof {
            assert(actors@[i as int] == report);
            assert forall|p: int|
                #![trigger actors@[p]]
                0 <= p < i + 1 && (forall|j: int|
                    p < j < i + 1 ==> (#[trigger] actors@[j]).actor != actors@[p].actor) implies (
            occupancy.record(actors@[p].actor) matches Some(kin) && actors@[p].recorded(kin)) by {
                if p < i {
                    assert(actors@[i as int].actor != actors@[p].actor);
                    assert(before.record(actors@[p].actor) is Some);
                }
            }
        }
        i += 1;
    }
}

} // verus!
