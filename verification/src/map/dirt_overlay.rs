//! The dirt stains drawn above the floor: one smooth texture per chunk.
//!
//! Dirt is one number per tile, in millionths of fully dirty. The texture has four texels per
//! tile edge, each blended from the four nearest tile centres.
use vstd::prelude::*;

use crate::map::chunk_overlay::{push_texel, texel, ChunkOverlayState, OverlaySync};
use crate::map::dirt::DirtLedger;
use crate::map::hypermap::{ChunkCoord, Hypermap};
use crate::map::hypermap_world::streaming::lists;

verus! {

/// Texels per tile edge.
pub const DIRT_OVERLAY_SUPERSAMPLE: u32 = 4;

/// Texels per chunk edge.
pub const DIRT_OVERLAY_TEXELS: u32 = 512;

/// Texels of one chunk.
const CHUNK_TEXELS: usize = 262_144;

/// The dirt layer.
pub type DirtOverlayState<I, M> = ChunkOverlayState<I, M>;

/// Whether the chunk and the ring of tiles around it have world coordinates.
pub open spec fn ring_in_world(coord: ChunkCoord) -> bool {
    -0x100_0000 < coord.x < 0xff_ffff && -0x100_0000 < coord.y < 0xff_ffff
}

/// The dirt of a tile given by its place relative to a chunk, which may lie next to the chunk.
pub open spec fn sample(dirt: Hypermap<u32>, coord: ChunkCoord, lx: int, ly: int) -> int {
    dirt.tile(coord.x * 128 + lx, coord.y * 128 + ly, 0) as int
}

/// Eight times the value at `t` eighths of the way from `a` to `b`.
pub open spec fn blended(a: int, b: int, t: int) -> int {
    a * (8 - t) + b * t
}

/// Column or row of the tile centre before a texel's centre.
pub open spec fn tile_before(p: int) -> int {
    (2 * p + 5) / 8 - 1
}

/// Eighths of a tile from that tile centre to the texel's centre.
pub open spec fn eighths_past(p: int) -> int {
    (2 * p + 5) % 8
}

/// Sixty-four times the dirt under a texel's centre.
pub open spec fn dirt_under(dirt: Hypermap<u32>, coord: ChunkCoord, px: int, py: int) -> int {
    let (x, y) = (tile_before(px), tile_before(py));
    let tx = eighths_past(px);
    blended(
        blended(sample(dirt, coord, x, y), sample(dirt, coord, x + 1, y), tx),
        blended(sample(dirt, coord, x, y + 1), sample(dirt, coord, x + 1, y + 1), tx),
        eighths_past(py),
    )
}

/// Stains have no seams: the dirt that one chunk shows past its border is the dirt that the
/// neighbouring chunk shows there.
pub proof fn stains_have_no_seams(
    dirt: Hypermap<u32>,
    coord: ChunkCoord,
    right: ChunkCoord,
    below: ChunkCoord,
    px: int,
    py: int,
)
    requires
        right.x == coord.x + 1,
        right.y == coord.y,
        below.x == coord.x,
        below.y == coord.y + 1,
    ensures
        dirt_under(dirt, coord, px + 512, py) == dirt_under(dirt, right, px, py),
        dirt_under(dirt, coord, px, py + 512) == dirt_under(dirt, below, px, py),
{
    assert(tile_before(px + 512) == tile_before(px) + 128);
    assert(tile_before(py + 512) == tile_before(py) + 128);
    assert(eighths_past(px + 512) == eighths_past(px));
    assert(eighths_past(py + 512) == eighths_past(py));
    let (x, y) = (tile_before(px), tile_before(py));
    assert(coord.x * 128 + (x + 128) == right.x * 128 + x);
    assert(coord.y * 128 + (y + 128) == below.y * 128 + y);
}

/// The opacity of a stain: the dirt, at most full, scaled to a byte and rounded.
pub open spec fn opacity(dirt_times_64: int) -> int {
    let full = 64_000_000;
    let dirt = if dirt_times_64 > full {
        full
    } else {
        dirt_times_64
    };
    (dirt * 255 + 32_000_000) / full
}

/// The colour of a texel; a chunk without dirt data is transparent.
pub open spec fn stain_at(dirt: Hypermap<u32>, coord: ChunkCoord, px: int, py: int) -> Seq<u8> {
    seq![
        0,
        0,
        0,
        (if dirt.has(coord) {
            opacity(dirt_under(dirt, coord, px, py))
        } else {
            0
        }) as u8,
    ]
}

/// The colour of dirt: black, the more opaque the dirtier.
pub fn dirt_to_rgba(dirt_times_64: u64) -> (color: [u8; 4])
    ensures
        0 <= opacity(dirt_times_64 as int) <= 255,
        color@ == seq![0u8, 0, 0, opacity(dirt_times_64 as int) as u8],
{
    let full: u64 = 64_000_000;
    let dirt: u64 = if dirt_times_64 > full {
        full
    } else {
        dirt_times_64
    };
    let alpha: u64 = (dirt * 255 + 32_000_000) / full;
    let color: [u8; 4] = [0, 0, 0, alpha as u8];
    assert(color@ =~= seq![0u8, 0, 0, alpha as u8]);
    color
}

fn blend(a: u64, b: u64, t: u64) -> (mix: u64)
    requires
        a <= 8 * u32::MAX,
        b <= 8 * u32::MAX,
        t <= 8,
    ensures
        mix == blended(a as int, b as int, t as int),
        mix <= 64 * u32::MAX,
        a <= u32::MAX && b <= u32::MAX ==> mix <= 8 * u32::MAX,
{
    let ghost limit: int = if a <= u32::MAX && b <= u32::MAX {
        u32::MAX as int
    } else {
        8 * u32::MAX
    };
    proof {
        assert(0 <= a * (8 - t) <= limit * (8 - t)) by (nonlinear_arith)
            requires
                0 <= a <= limit,
                t <= 8,
        ;
        assert(0 <= b * t <= limit * t) by (nonlinear_arith)
            requires
                0 <= b <= limit,
                0 <= t,
        ;
        assert(limit * (8 - t) + limit * t == limit * 8) by (nonlinear_arith);
    }
    a * (8 - t) + b * t
}

fn dirt_near(dirt: &Hypermap<u32>, coord: ChunkCoord, lx: i32, ly: i32) -> (value: u64)
    requires
        dirt.wf(),
        ring_in_world(coord),
        -1 <= lx <= 128,
        -1 <= ly <= 128,
    ensures
        value == sample(*dirt, coord, lx as int, ly as int),
        value <= u32::MAX,
{
    dirt.get(coord.x * 128 + lx, coord.y * 128 + ly) as u64
}

fn blend_texel(dirt: &Hypermap<u32>, coord: ChunkCoord, px: usize, py: usize) -> (value: u64)
    requires
        dirt.wf(),
        ring_in_world(coord),
        px < 512,
        py < 512,
    ensures
        value == dirt_under(*dirt, coord, px as int, py as int),
{
    let x: i32 = (2 * px as i32 + 5) / 8 - 1;
    let y: i32 = (2 * py as i32 + 5) / 8 - 1;
    let tx: u64 = (2 * px as u64 + 5) % 8;
    let ty: u64 = (2 * py as u64 + 5) % 8;
    let top: u64 = blend(
        dirt_near(dirt, coord, x, y),
        dirt_near(dirt, coord, x + 1, y),
        tx,
    );
    let bottom: u64 = blend(
        dirt_near(dirt, coord, x, y + 1),
        dirt_near(dirt, coord, x + 1, y + 1),
        tx,
    );
    blend(top, bottom, ty)
}

/// Draws one chunk's dirt. Texels at the border blend with the neighbouring chunks, so that
/// stains have no seams.
pub fn paint_dirt_chunk_supersampled(dirt: &Hypermap<u32>, coord: ChunkCoord) -> (data: Vec<u8>)
    requires
        dirt.wf(),
        ring_in_world(coord),
    ensures
        data@.len() == 512 * 512 * 4,
        forall|px: int, py: int|
            0 <= px < 512 && 0 <= py < 512 ==> #[trigger] texel(data@, 512, px, py) == stain_at(
                *dirt,
                coord,
                px,
                py,
            ),
{
    let held: bool = dirt.has_chunk(coord);
    let mut data: Vec<u8> = Vec::with_capacity(CHUNK_TEXELS * 4);
    let mut n: usize = 0;
    while n < CHUNK_TEXELS
        invariant
            n <= CHUNK_TEXELS,
            data@.len() == n * 4,
            dirt.wf(),
            ring_in_world(coord),
            held == dirt.has(coord),
            forall|px: int, py: int|
                0 <= px < 512 && 0 <= py && py * 512 + px < n ==> #[trigger] texel(
                    data@,
                    512,
                    px,
                    py,
                ) == stain_at(*dirt, coord, px, py),
        decreases CHUNK_TEXELS - n,
    {
        let ghost before = data@;
        let px: usize = n % 512;
        let py: usize = n / 512;
        let value: u64 = if held {
            blend_texel(dirt, coord, px, py)
        } else {
            0
        };
        let color = dirt_to_rgba(value);
        push_texel(&mut data, color);
        proof {
            assert forall|x: int, y: int|
                0 <= x < 512 && 0 <= y && y * 512 + x < n + 1 implies #[trigger] texel(
                data@,
                512,
                x,
                y,
            ) == stain_at(*dirt, coord, x, y) by {
                if y * 512 + x < n {
                    assert(texel(data@, 512, x, y) =~= texel(before, 512, x, y));
                } else {
                    assert(x == px && y == py);
                    assert(texel(data@, 512, x, y) =~= color@);
                    assert(color@ =~= stain_at(*dirt, coord, x, y));
                }
            }
        }
        n += 1;
    }
    data
}

/// The chunks of one list that another list names too.
pub open spec fn named_in(list: Seq<ChunkCoord>, names: Seq<ChunkCoord>) -> Seq<ChunkCoord>
    decreases list.len(),
{
    if list.len() == 0 {
        seq![]
    } else {
        let before = named_in(list.drop_last(), names);
        if names.contains(list.last()) {
            before.push(list.last())
        } else {
            before
        }
    }
}

/// Takes the dirty chunks from the ledger and names those that have an overlay to repaint.
pub fn overlays_to_repaint<I, M>(state: &DirtOverlayState<I, M>, ledger: &mut DirtLedger) -> (chunks:
    Vec<ChunkCoord>)
    requires
        state.wf(),
    ensures
        chunks@ == named_in(state.overlays.keys_in_order(), old(ledger).dirty_chunks@),
        final(ledger).dirty_chunks@ == Seq::<ChunkCoord>::empty(),
        final(ledger).seeded_chunks == old(ledger).seeded_chunks,
        final(ledger).hydrated_level == old(ledger).hydrated_level,
{
    let dirty = ledger.take_dirty_chunks();
    let keys = state.overlays.keys();
    let mut chunks: Vec<ChunkCoord> = Vec::new();
    let mut i: usize = 0;
    while i < keys.len()
        invariant
            i <= keys@.len(),
            chunks@ == named_in(keys@.take(i as int), dirty@),
        decreases keys@.len() - i,
    {
        assert(keys@.take(i + 1).drop_last() =~= keys@.take(i as int));
        if lists(&dirty, keys[i]) {
            chunks.push(keys[i]);
        }
        i += 1;
    }
    assert(keys@.take(i as int) =~= keys@);
    chunks
}

/// Brings the dirt layer in line with the desired chunks; a chunk that gets a new overlay is
/// marked for drawing.
pub fn sync_dirt_overlays<I, M>(
    state: &mut DirtOverlayState<I, M>,
    ledger: &mut DirtLedger,
    desired: &Vec<ChunkCoord>,
) -> (sync: OverlaySync)
    requires
        old(state).wf(),
    ensures
        final(state).wf(),
        forall|c: ChunkCoord| #[trigger]
            final(state).overlays@.contains_key(c) <==> old(state).overlays@.contains_key(c)
                && desired@.contains(c),
        forall|c: ChunkCoord| #[trigger]
            final(state).overlays@.contains_key(c) ==> final(state).overlays@[c] == old(
                state,
            ).overlays@[c],
        sync.gone@ == crate::map::chunk_overlay::planes_gone(
            old(state).overlays.keys_in_order(),
            old(state).overlays@,
            desired@,
        ),
        sync.wanted@ == crate::map::chunk_overlay::chunks_without_overlay(
            desired@,
            old(state).overlays@,
        ),
        forall|c: ChunkCoord| #[trigger]
            final(ledger).dirty_chunks@.contains(c) <==> old(ledger).dirty_chunks@.contains(c)
                || sync.wanted@.contains(c),
        final(ledger).seeded_chunks == old(ledger).seeded_chunks,
        final(ledger).hydrated_level == old(ledger).hydrated_level,
{
    let sync = state.sync(desired);
    let mut i: usize = 0;
    while i < sync.wanted.len()
        invariant
            i <= sync.wanted@.len(),
            forall|c: ChunkCoord| #[trigger]
                ledger.dirty_chunks@.contains(c) <==> old(ledger).dirty_chunks@.contains(c) || (
                exists|j: int| 0 <= j < i && #[trigger] sync.wanted@[j] == c),
            ledger.seeded_chunks == old(ledger).seeded_chunks,
            ledger.hydrated_level == old(ledger).hydrated_level,
        decreases sync.wanted@.len() - i,
    {
        let ghost before = ledger.dirty_chunks@;
        ledger.mark_dirty(sync.wanted[i]);
        proof {
            let added = sync.wanted@[i as int];
            assert forall|c: ChunkCoord| #[trigger]
                ledger.dirty_chunks@.contains(c) <==> before.contains(c) || c == added by {
                let after = ledger.dirty_chunks@;
                if before.contains(c) && !before.contains(added) {
                    let m = choose|m: int| 0 <= m < before.len() && before[m] == c;
                    assert(after[m] == c);
                }
                if !before.contains(added) {
                    assert(after[before.len() as int] == added);
                    if after.contains(c) && c != added {
                        let m = choose|m: int| 0 <= m < after.len() && after[m] == c;
                        assert(before[m] == c);
                    }
                }
            }
        }
        i += 1;
    }
    sync
}

} // verus!
