//! Overlay textures above the chunks: which chunks have one, and how the occupancy layer
//! colours every subtile.
use vstd::prelude::*;

use crate::map::hypermap::{ChunkCoord, Hypermap, LocalCoord};
use crate::map::hypermap_world::streaming::lists;
use crate::map::passability::{
    SubtilePassability, FLAG_BLOCKED, FLAG_CREATURE, FLAG_VOID, SUBTILE_COUNT,
};
use crate::table::{Table, TableKey};

verus! {

/// Texels per axis: one per subtile.
pub const OVERLAY_RES: u32 = 640;

/// Texels of one overlay.
const OVERLAY_TEXELS: usize = 409_600;

/// Whether the occupancy layer is shown.
#[derive(Debug, Clone, Copy, PartialEq, Eq, Structural)]
pub struct OccupancyOverlayEnabled(pub bool);

/// Whether paths and targets are drawn on the generic layer.
#[derive(Debug, Clone, Copy, PartialEq, Eq, Structural)]
pub struct PathOverlayEnabled(pub bool);

impl Default for OccupancyOverlayEnabled {
    fn default() -> (enabled: Self)
        ensures
            enabled == OccupancyOverlayEnabled(false),
    {
        OccupancyOverlayEnabled(false)
    }
}

impl Default for PathOverlayEnabled {
    fn default() -> (enabled: Self)
        ensures
            enabled == PathOverlayEnabled(false),
    {
        PathOverlayEnabled(false)
    }
}

impl OccupancyOverlayEnabled {
    /// What pressing the layer's key or button does.
    pub fn toggle(&mut self)
        ensures
            *final(self) == OccupancyOverlayEnabled(!old(self).0),
    {
        self.0 = !self.0;
    }
}

impl PathOverlayEnabled {
    /// What pressing the layer's key or button does.
    pub fn toggle(&mut self)
        ensures
            *final(self) == PathOverlayEnabled(!old(self).0),
    {
        self.0 = !self.0;
    }
}

impl TableKey for ChunkCoord {
    open spec fn number(self) -> u128 {
        self.key() as u128
    }

    fn table_number(&self) -> (n: u128) {
        let x: u128 = (self.x as i64 + 0x8000_0000) as u128;
        let y: u128 = (self.y as i64 + 0x8000_0000) as u128;
        x * 0x1_0000_0000 + y
    }

    fn same_key(&self, other: &Self) -> (same: bool) {
        *self == *other
    }

    proof fn one_number_one_key(a: Self, b: Self) {
        let (ax, ay) = (a.x + 0x8000_0000, a.y + 0x8000_0000);
        let (bx, by) = (b.x + 0x8000_0000, b.y + 0x8000_0000);
        assert(ax * 0x1_0000_0000 + ay == bx * 0x1_0000_0000 + by);
        assert(ax == bx && ay == by);
    }
}

/// The plane, texture and material of one chunk's overlay.
#[derive(Debug)]
pub struct OverlayPlane<I, M> {
    pub plane: u64,
    pub image: I,
    pub material: M,
}

/// What an overlay layer must do to show the wanted chunks.
#[derive(Debug)]
pub struct OverlaySync {
    /// Planes to take away.
    pub gone: Vec<u64>,
    /// Chunks that need a plane.
    pub wanted: Vec<ChunkCoord>,
}

/// The planes of those chunks of a list that are not desired, in the list's order.
pub open spec fn planes_gone<I, M>(
    keys: Seq<ChunkCoord>,
    overlays: Map<ChunkCoord, OverlayPlane<I, M>>,
    desired: Seq<ChunkCoord>,
) -> Seq<u64>
    decreases keys.len(),
{
    if keys.len() == 0 {
        seq![]
    } else {
        let before = planes_gone(keys.drop_last(), overlays, desired);
        if desired.contains(keys.last()) {
            before
        } else {
            before.push(overlays[keys.last()].plane)
        }
    }
}

/// The desired chunks that have no overlay, in the order in which they are desired.
pub open spec fn chunks_without_overlay<I, M>(
    desired: Seq<ChunkCoord>,
    overlays: Map<ChunkCoord, OverlayPlane<I, M>>,
) -> Seq<ChunkCoord>
    decreases desired.len(),
{
    if desired.len() == 0 {
        seq![]
    } else {
        let before = chunks_without_overlay(desired.drop_last(), overlays);
        if overlays.contains_key(desired.last()) {
            before
        } else {
            before.push(desired.last())
        }
    }
}

/// One overlay layer: the plane of each visible chunk.
#[derive(Debug)]
pub struct ChunkOverlayState<I, M> {
    pub overlays: Table<ChunkCoord, OverlayPlane<I, M>>,
}

impl<I, M> ChunkOverlayState<I, M> {
    pub open spec fn wf(self) -> bool {
        self.overlays.wf()
    }

    pub fn new() -> (state: Self)
        ensures
            state.wf(),
            state.overlays@ == Map::<ChunkCoord, OverlayPlane<I, M>>::empty(),
    {
        ChunkOverlayState { overlays: Table::new() }
    }

    /// The texture of a chunk's overlay, if the chunk is visible.
    pub fn image_for(&self, coord: ChunkCoord) -> (image: Option<&I>)
        ensures
            match image {
                Some(i) => self.overlays@.contains_key(coord) && *i
                    == self.overlays@[coord].image,
                None => !self.overlays@.contains_key(coord),
            },
    {
        match self.overlays.get(coord) {
            Some(plane) => Some(&plane.image),
            None => None,
        }
    }

    /// The material of a chunk's overlay, if the chunk is visible.
    pub fn material_for(&self, coord: ChunkCoord) -> (material: Option<&M>)
        ensures
            match material {
                Some(m) => self.overlays@.contains_key(coord) && *m
                    == self.overlays@[coord].material,
                None => !self.overlays@.contains_key(coord),
            },
    {
        match self.overlays.get(coord) {
            Some(plane) => Some(&plane.material),
            None => None,
        }
    }

    /// The chunks that have an overlay.
    pub fn iter_coords(&self) -> (coords: &Vec<ChunkCoord>)
        requires
            self.wf(),
        ensures
            coords@.no_duplicates(),
            forall|c: ChunkCoord| coords@.contains(c) <==> #[trigger] self.overlays@.contains_key(c),
    {
        proof {
            self.overlays.keys_are_the_domain();
        }
        self.overlays.keys()
    }

    /// Gives a chunk its overlay.
    pub fn insert(&mut self, coord: ChunkCoord, plane: u64, image: I, material: M)
        requires
            old(self).wf(),
            !old(self).overlays@.contains_key(coord),
        ensures
            final(self).wf(),
            final(self).overlays@ == old(self).overlays@.insert(
                coord,
                (OverlayPlane { plane, image, material }),
            ),
    {
        let _slot = self.overlays.slot(coord, OverlayPlane { plane, image, material });
    }

    /// Forgets the overlays of all chunks that are no longer desired and names the desired
    /// chunks that have none. With nothing desired the layer is empty afterwards.
    pub fn sync(&mut self, desired: &Vec<ChunkCoord>) -> (sync: OverlaySync)
        requires
            old(self).wf(),
        ensures
            final(self).wf(),
            forall|c: ChunkCoord| #[trigger]
                final(self).overlays@.contains_key(c) <==> old(self).overlays@.contains_key(c)
                    && desired@.contains(c),
            forall|c: ChunkCoord| #[trigger]
                final(self).overlays@.contains_key(c) ==> final(self).overlays@[c] == old(
                    self,
                ).overlays@[c],
            sync.gone@ == planes_gone(
                old(self).overlays.keys_in_order(),
                old(self).overlays@,
                desired@,
            ),
            sync.wanted@ == chunks_without_overlay(desired@, old(self).overlays@),
    {
        let ghost before = self.overlays@;
        let mut wanted: Vec<ChunkCoord> = Vec::new();
        let mut i: usize = 0;
        while i < desired.len()
            invariant
                i <= desired@.len(),
                self.overlays@ == before,
                wanted@ == chunks_without_overlay(desired@.take(i as int), before),
                self.overlays.wf(),
                self.overlays.keys_in_order() == old(self).overlays.keys_in_order(),
            decreases desired@.len() - i,
        {
            assert(desired@.take(i + 1).drop_last() =~= desired@.take(i as int));
            if !self.overlays.contains(desired[i]) {
                wanted.push(desired[i]);
            }
            i += 1;
        }
        assert(desired@.take(i as int) =~= desired@);
        let mut keys: Vec<ChunkCoord> = Vec::new();
        {
            let held = self.overlays.keys();
            let mut j: usize = 0;
            while j < held.len()
                invariant
                    j <= held@.len(),
                    keys@ == held@.take(j as int),
                decreases held@.len() - j,
            {
                keys.push(held[j]);
                j += 1;
            }
            assert(held@.take(j as int) =~= held@);
        }
        proof {
            self.overlays.keys_are_the_domain();
        }
        let mut gone: Vec<u64> = Vec::new();
        let mut k: usize = 0;
        while k < keys.len()
            invariant
                k <= keys@.len(),
                self.overlays.wf(),
                keys@.no_duplicates(),
                forall|c: ChunkCoord| keys@.contains(c) <==> #[trigger] before.contains_key(c),
                gone@ == planes_gone(keys@.take(k as int), before, desired@),
                forall|c: ChunkCoord| #[trigger]
                    self.overlays@.contains_key(c) <==> before.contains_key(c) && (
                    desired@.contains(c) || !keys@.take(k as int).contains(c)),
                forall|c: ChunkCoord| #[trigger]
                    self.overlays@.contains_key(c) ==> self.overlays@[c] == before[c],
            decreases keys@.len() - k,
        {
            let key = keys[k];
            let ghost passed = keys@.take(k as int);
            let ghost next = keys@.take(k + 1);
            proof {
                assert(next.drop_last() =~= passed);
                assert(keys@.contains(key));
                assert(!passed.contains(key)) by {
                    if passed.contains(key) {
                        let m = choose|m: int| 0 <= m < passed.len() && passed[m] == key;
                        assert(keys@[m] == keys@[k as int]);
                    }
                }
                assert forall|c: ChunkCoord| next.contains(c) <==> passed.contains(c) || c
                    == key by {
                    if passed.contains(c) {
                        let m = choose|m: int| 0 <= m < passed.len() && passed[m] == c;
                        assert(next[m] == c);
                    }
                    if next.contains(c) && c != key {
                        let m = choose|m: int| 0 <= m < next.len() && next[m] == c;
                        assert(passed[m] == c);
                    }
                    assert(next[k as int] == key);
                }
            }
            if !lists(desired, key) {
                match self.overlays.remove(key) {
                    Some(plane) => {
                        gone.push(plane.plane);
                    },
                    None => {},
                }
            }
            k += 1;
        }
        assert(keys@.take(k as int) =~= keys@);
        OverlaySync { gone, wanted }
    }
}

/// The colour of a subtile: bodies red, walls orange, void blue, passable ground transparent.
pub open spec fn occupancy_color(flags: u64) -> Seq<u8> {
    if flags & FLAG_CREATURE != 0 {
        seq![220, 60, 60, 200]
    } else if flags & FLAG_BLOCKED != 0 {
        seq![210, 130, 50, 160]
    } else if flags & FLAG_VOID != 0 {
        seq![50, 90, 210, 110]
    } else {
        seq![0, 0, 0, 0]
    }
}

pub fn flags_to_rgba(flags: u64) -> (color: [u8; 4])
    ensures
        color@ == occupancy_color(flags),
{
    let color: [u8; 4] = if flags & FLAG_CREATURE != 0 {
        [220, 60, 60, 200]
    } else if flags & FLAG_BLOCKED != 0 {
        [210, 130, 50, 160]
    } else if flags & FLAG_VOID != 0 {
        [50, 90, 210, 110]
    } else {
        [0, 0, 0, 0]
    };
    assert(color@ =~= occupancy_color(flags));
    color
}

/// The four bytes of a texel in a texture of `width` texels per row.
pub open spec fn texel(data: Seq<u8>, width: int, px: int, py: int) -> Seq<u8> {
    data.subrange((py * width + px) * 4, (py * width + px) * 4 + 4)
}

/// Adds one texel to a texture.
pub(crate) fn push_texel(data: &mut Vec<u8>, color: [u8; 4])
    ensures
        final(data)@ == old(data)@ + color@,
{
    data.push(color[0]);
    data.push(color[1]);
    data.push(color[2]);
    data.push(color[3]);
    assert(data@ =~= old(data)@ + color@);
}

/// The flags of the subtile under a texel.
pub open spec fn flags_under(
    passability: Hypermap<SubtilePassability>,
    coord: ChunkCoord,
    px: int,
    py: int,
) -> u64 {
    passability.tile_in(coord, LocalCoord { x: (px / 5) as i32, y: (py / 5) as i32 }, 0).at(
        py % 5,
        px % 5,
    )
}

/// The colour of a texel of the occupancy layer; a chunk without collision data is
/// transparent.
pub open spec fn occupancy_at(
    passability: Hypermap<SubtilePassability>,
    coord: ChunkCoord,
    px: int,
    py: int,
) -> Seq<u8> {
    if passability.has(coord) {
        occupancy_color(flags_under(passability, coord, px, py))
    } else {
        seq![0, 0, 0, 0]
    }
}

/// Colours every subtile of a chunk by its collision flags.
pub fn paint_occupancy(passability: &Hypermap<SubtilePassability>, coord: ChunkCoord) -> (data: Vec<
    u8,
>)
    requires
        passability.wf(),
    ensures
        data@.len() == 640 * 640 * 4,
        forall|px: int, py: int|
            0 <= px < 640 && 0 <= py < 640 ==> #[trigger] texel(data@, 640, px, py)
                == occupancy_at(*passability, coord, px, py),
{
    let held = passability.get_chunk(coord);
    let mut data: Vec<u8> = Vec::with_capacity(OVERLAY_TEXELS * 4);
    let mut n: usize = 0;
    while n < OVERLAY_TEXELS
        invariant
            n <= OVERLAY_TEXELS,
            data@.len() == n * 4,
            match held {
                Some(chunk) => passability.has(coord) && *chunk == passability.chunk(coord)
                    && chunk.wf(),
                None => !passability.has(coord),
            },
            forall|px: int, py: int|
                0 <= px < 640 && 0 <= py && py * 640 + px < n ==> #[trigger] texel(
                    data@,
                    640,
                    px,
                    py,
                ) == occupancy_at(*passability, coord, px, py),
        decreases OVERLAY_TEXELS - n,
    {
        let ghost before = data@;
        let px: usize = n % 640;
        let py: usize = n / 640;
        let color = match held {
            Some(chunk) => {
                let local = LocalCoord::new(
                    (px / SUBTILE_COUNT) as i32,
                    (py / SUBTILE_COUNT) as i32,
                );
                let tile = chunk.get_local(local);
                flags_to_rgba(tile.flags_at(py % SUBTILE_COUNT, px % SUBTILE_COUNT))
            },
            None => {
                let clear: [u8; 4] = [0, 0, 0, 0];
                assert(clear@ =~= seq![0u8, 0, 0, 0]);
                clear
            },
        };
        push_texel(&mut data, color);
        proof {
            assert forall|x: int, y: int|
                0 <= x < 640 && 0 <= y && y * 640 + x < n + 1 implies #[trigger] texel(
                data@,
                640,
                x,
                y,
            ) == occupancy_at(*passability, coord, x, y) by {
                if y * 640 + x < n {
                    assert(texel(data@, 640, x, y) =~= texel(before, 640, x, y));
                } else {
                    assert(x == px && y == py);
                    assert(texel(data@, 640, x, y) =~= color@);
                }
            }
        }
        n += 1;
    }
    data
}

} // verus!
