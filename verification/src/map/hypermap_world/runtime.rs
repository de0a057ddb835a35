//! The world's layers and the ways in which a chunk comes into them.
use vstd::prelude::*;

use crate::map::chunk_metadata::ChunkGeneratorMetadata;
use crate::map::hypermap::{floor_in_range, ChunkCoord, Hypermap, HypermapChunk, LocalCoord};
use crate::map::hypermap_world::chunk_cells::{
    answers, cell_subtiles, chunk_set, clear_upper_floors_to_void, flagged,
    mirror_chunk_into_passability, mirror_chunk_into_subtile_cache, reset_style_chunk,
};
use crate::map::map_generator::draft::{becomes, MapDraft};
use crate::map::map_generator::pipeline::{
    describes, fill_procedural_chunk, laid_out_for, shown_over,
};
use crate::map::passability::SubtilePassability;
use crate::map::world_map::{cell_passability, passable, CellType, LampDecoration, TileStyle};

verus! {

/// Whether the text floors are laid on the chunk.
pub open spec fn is_center(coord: ChunkCoord) -> bool {
    coord.x == 0 && coord.y == 0
}

/// Whether the passability layer says of every tile and floor what the world shows there.
pub open spec fn in_step(map: Hypermap<CellType>, passability: Hypermap<bool>) -> bool {
    forall|c: ChunkCoord, l: LocalCoord, f: int|
        l.in_chunk() && floor_in_range(f) ==> #[trigger] passability.tile_in(c, l, f) == passable(
            map.tile_in(c, l, f),
        )
}

/// The world's layers.
#[derive(Debug)]
pub struct HypermapRuntime {
    pub map: Hypermap<CellType>,
    /// Per-cell static passability mirroring `map`. "Static" because no runtime obstacles
    /// (units, doors) participate, only the authored or procedural geometry.
    pub static_passability_map: Hypermap<bool>,
    /// Per-subtile flags of static geometry, renewed only when geometry changes.
    pub static_subtile_cache: Hypermap<SubtilePassability>,
    /// Material of the floor quad under any cell.
    pub style_floor_map: Hypermap<TileStyle>,
    /// Material of wall slabs and pillars.
    pub style_wall_map: Hypermap<TileStyle>,
    pub decoration_lamp_map: Hypermap<LampDecoration>,
    /// Per-chunk procedural layout reference (rooms, entrypoints).
    pub procedural_metadata: ChunkGeneratorMetadata,
}

impl HypermapRuntime {
    /// Every layer is sound, and world and passability never drift apart.
    pub open spec fn wf(self) -> bool {
        &&& self.map.wf()
        &&& self.static_passability_map.wf()
        &&& self.static_subtile_cache.wf()
        &&& self.style_floor_map.wf()
        &&& self.style_wall_map.wf()
        &&& self.decoration_lamp_map.wf()
        &&& in_step(self.map, self.static_passability_map)
    }

    /// An empty world: road everywhere.
    pub fn new() -> (runtime: Self)
        ensures
            runtime.wf(),
            forall|c: ChunkCoord| !#[trigger] runtime.map.has(c),
            runtime.map.default_value() == CellType::Road,
            forall|c: ChunkCoord| !#[trigger] runtime.static_subtile_cache.has(c),
            forall|sy: int, sx: int|
                0 <= sy < 5 && 0 <= sx < 5
                    ==> #[trigger] runtime.static_subtile_cache.default_value().at(sy, sx) == 0,
            forall|c: ChunkCoord| !#[trigger] runtime.style_floor_map.has(c),
            runtime.style_floor_map.default_value() == TileStyle::Regular,
            forall|c: ChunkCoord| !#[trigger] runtime.style_wall_map.has(c),
            runtime.style_wall_map.default_value() == TileStyle::Regular,
            forall|c: ChunkCoord| !#[trigger] runtime.decoration_lamp_map.has(c),
            runtime.decoration_lamp_map.default_value() == LampDecoration::Bare,
            forall|c: ChunkCoord| #[trigger] runtime.procedural_metadata.held(c) is None,
    {
        HypermapRuntime {
            map: Hypermap::new(CellType::Road),
            static_passability_map: Hypermap::new(cell_passability(CellType::Road)),
            static_subtile_cache: Hypermap::new(SubtilePassability::empty()),
            style_floor_map: Hypermap::new(TileStyle::DEFAULT),
            style_wall_map: Hypermap::new(TileStyle::DEFAULT),
            decoration_lamp_map: Hypermap::new(LampDecoration::Bare),
            procedural_metadata: ChunkGeneratorMetadata::default(),
        }
    }

    /// Writes a world cell and mirrors its passability and subtile flags in lock-step.
    pub fn write_world_cell<F: Fn(CellType, usize, usize) -> u64>(
        &mut self,
        world_x: i32,
        world_y: i32,
        floor: i32,
        cell: CellType,
        flags: &F,
    )
        requires
            old(self).wf(),
            floor_in_range(floor as int),
            answers(*flags),
        ensures
            final(self).wf(),
            final(self).map.wrote(
                old(self).map,
                world_x as int,
                world_y as int,
                floor as int,
                cell,
            ),
            final(self).static_passability_map.wrote(
                old(self).static_passability_map,
                world_x as int,
                world_y as int,
                floor as int,
                passable(cell),
            ),
            floor != 0 ==> final(self).static_subtile_cache == old(self).static_subtile_cache,
            floor == 0 ==> exists|tile: SubtilePassability| #[trigger]
                flagged(tile, *flags, cell) && final(self).static_subtile_cache.wrote(
                    old(self).static_subtile_cache,
                    world_x as int,
                    world_y as int,
                    0,
                    tile,
                ),
            final(self).style_floor_map == old(self).style_floor_map,
            final(self).style_wall_map == old(self).style_wall_map,
            final(self).decoration_lamp_map == old(self).decoration_lamp_map,
            final(self).procedural_metadata == old(self).procedural_metadata,
    {
        self.map.set_floor(world_x, world_y, floor, cell);
        self.static_passability_map.set_floor(world_x, world_y, floor, cell_passability(cell));
        if floor == 0 {
            let tile = cell_subtiles(cell, flags);
            self.static_subtile_cache.set(world_x, world_y, tile);
        }
    }

    /// Writes the floor quad style for a cell.
    pub fn write_world_floor_style(
        &mut self,
        world_x: i32,
        world_y: i32,
        floor: i32,
        style: TileStyle,
    )
        requires
            old(self).wf(),
            floor_in_range(floor as int),
        ensures
            final(self).wf(),
            *final(self) == (HypermapRuntime {
                style_floor_map: final(self).style_floor_map,
                ..*old(self)
            }),
            final(self).style_floor_map.wrote(
                old(self).style_floor_map,
                world_x as int,
                world_y as int,
                floor as int,
                style,
            ),
    {
        self.style_floor_map.set_floor(world_x, world_y, floor, style);
    }

    /// Writes the wall slab style for a cell.
    pub fn write_world_wall_style(
        &mut self,
        world_x: i32,
        world_y: i32,
        floor: i32,
        style: TileStyle,
    )
        requires
            old(self).wf(),
            floor_in_range(floor as int),
        ensures
            final(self).wf(),
            *final(self) == (HypermapRuntime {
                style_wall_map: final(self).style_wall_map,
                ..*old(self)
            }),
            final(self).style_wall_map.wrote(
                old(self).style_wall_map,
                world_x as int,
                world_y as int,
                floor as int,
                style,
            ),
    {
        self.style_wall_map.set_floor(world_x, world_y, floor, style);
    }
}

/// Whether the chunk's ground floor is built from the draft and its upper floors are void.
pub open spec fn built_from_draft(draft: MapDraft, chunk: HypermapChunk<CellType>) -> bool {
    forall|l: LocalCoord, f: int|
        l.in_chunk() && floor_in_range(f) ==> if f == 0 {
            becomes(draft.tile(l.x as int, l.y as int), #[trigger] chunk.at(l, f))
        } else {
            chunk.at(l, f) == CellType::Void
        }
}

/// Whether floor styles, lamps and description of the chunk are those of the draft and
/// nothing else about them changed.
pub open spec fn dressed_from_draft(
    draft: MapDraft,
    coord: ChunkCoord,
    before: HypermapRuntime,
    after: HypermapRuntime,
) -> bool {
    &&& after.style_floor_map.replaced_chunk(
        before.style_floor_map,
        coord,
        after.style_floor_map.chunk(coord),
    )
    &&& shown_over(
        draft.floor_styles,
        after.style_floor_map.chunk(coord),
        before.style_floor_map,
        coord,
    )
    &&& after.decoration_lamp_map.replaced_chunk(
        before.decoration_lamp_map,
        coord,
        after.decoration_lamp_map.chunk(coord),
    )
    &&& shown_over(
        draft.lamps,
        after.decoration_lamp_map.chunk(coord),
        before.decoration_lamp_map,
        coord,
    )
    &&& after.procedural_metadata.held(coord) matches Some(meta) && describes(meta, draft)
    &&& forall|c: ChunkCoord|
        c != coord ==> #[trigger] after.procedural_metadata.held(c)
            == before.procedural_metadata.held(c)
}

/// Whether the draft is a full-chunk layout that fits the world around the chunk.
pub open spec fn lays_out(draft: MapDraft, map: Hypermap<CellType>, coord: ChunkCoord) -> bool {
    laid_out_for(draft, map, coord) && draft.size == 128 && draft.margin == 2
}

/// Replaces the chunk with fresh procedural geometry, upper floors void. A layout in which a
/// house got no door is not used: then nothing changes and the result is false.
pub(crate) fn fill_chunk_random(runtime: &mut HypermapRuntime, coord: ChunkCoord) -> (filled: bool)
    requires
        old(runtime).map.wf(),
        old(runtime).style_floor_map.wf(),
        old(runtime).decoration_lamp_map.wf(),
        i32::MIN < coord.x < i32::MAX,
        i32::MIN < coord.y < i32::MAX,
    ensures
        final(runtime).map.wf(),
        final(runtime).style_floor_map.wf(),
        final(runtime).decoration_lamp_map.wf(),
        final(runtime).static_passability_map == old(runtime).static_passability_map,
        final(runtime).static_subtile_cache == old(runtime).static_subtile_cache,
        final(runtime).style_wall_map == old(runtime).style_wall_map,
        exists|draft: MapDraft| #[trigger]
            lays_out(draft, old(runtime).map, coord) && draft.all_have_doors() == filled && if filled {
                &&& final(runtime).map.replaced_chunk(
                    old(runtime).map,
                    coord,
                    final(runtime).map.chunk(coord),
                )
                &&& built_from_draft(draft, final(runtime).map.chunk(coord))
                &&& dressed_from_draft(draft, coord, *old(runtime), *final(runtime))
            } else {
                *final(runtime) == *old(runtime)
            },
{
    let ghost before = *runtime;
    let meta = fill_procedural_chunk(
        &mut runtime.map,
        &mut runtime.style_floor_map,
        &mut runtime.decoration_lamp_map,
        coord,
        &mut runtime.procedural_metadata,
    );
    let ghost draft = choose|draft: MapDraft|
        #![trigger laid_out_for(draft, before.map, coord)]
        {
            &&& laid_out_for(draft, before.map, coord)
            &&& draft.size == 128
            &&& draft.margin == 2
            &&& match meta {
                Some(meta) => {
                    &&& draft.all_have_doors()
                    &&& describes(meta, draft)
                    &&& crate::map::map_generator::pipeline::maps_written(
                        draft,
                        coord,
                        before.map,
                        runtime.map,
                        before.style_floor_map,
                        runtime.style_floor_map,
                        before.decoration_lamp_map,
                        runtime.decoration_lamp_map,
                    )
                    &&& forall|c: ChunkCoord| #[trigger]
                        runtime.procedural_metadata.held(c) == if c == coord {
                            runtime.procedural_metadata.held(coord)
                        } else {
                            before.procedural_metadata.held(c)
                        }
                    &&& runtime.procedural_metadata.held(coord) matches Some(kept)
                        && crate::map::chunk_metadata::same_metadata(kept, meta)
                },
                None => !draft.all_have_doors() && runtime.map == before.map
                    && runtime.style_floor_map == before.style_floor_map
                    && runtime.decoration_lamp_map == before.decoration_lamp_map
                    && runtime.procedural_metadata == before.procedural_metadata,
            }
        };
    if meta.is_none() {
        assert(lays_out(draft, before.map, coord));
        return false;
    }
    let ghost middle = *runtime;
    let chunk = runtime.map.get_or_create_chunk(coord);
    clear_upper_floors_to_void(chunk);
    proof {
        assert(lays_out(draft, before.map, coord));
        let after = runtime.map.chunk(coord);
        let mid = middle.map.chunk(coord);
        assert forall|l: LocalCoord, f: int|
            l.in_chunk() && floor_in_range(f) implies if f == 0 {
            becomes(draft.tile(l.x as int, l.y as int), #[trigger] after.at(l, f))
        } else {
            after.at(l, f) == CellType::Void
        } by {
            if f == 0 {
                assert(after.at(l, 0) == mid.at(l, 0));
            }
        }
        assert(dressed_from_draft(draft, coord, before, *runtime));
    }
    true
}

impl HypermapRuntime {
    /// Brings the passability and subtile layers up to date with one chunk of the world.
    pub(crate) fn mirror_chunk<F: Fn(CellType, usize, usize) -> u64>(&mut self, coord: ChunkCoord, flags: &F)
        requires
            old(self).map.wf(),
            old(self).static_passability_map.wf(),
            old(self).static_subtile_cache.wf(),
            old(self).map.has(coord),
            answers(*flags),
            forall|c: ChunkCoord, l: LocalCoord, f: int|
                c != coord && l.in_chunk() && floor_in_range(f) ==> #[trigger] old(
                    self).static_passability_map.tile_in(c, l, f) == passable(
                    old(self).map.tile_in(c, l, f),
                ),
        ensures
            *final(self) == (HypermapRuntime {
                static_passability_map: final(self).static_passability_map,
                static_subtile_cache: final(self).static_subtile_cache,
                ..*old(self)
            }),
            final(self).static_passability_map.wf(),
            final(self).static_subtile_cache.wf(),
            in_step(final(self).map, final(self).static_passability_map),
            mirrored_subtiles(*old(self), *final(self), coord, *flags),
    {
        mirror_chunk_into_passability(&self.map, &mut self.static_passability_map, coord);
        mirror_chunk_into_subtile_cache(&self.map, &mut self.static_subtile_cache, coord, flags);
    }

    /// Replaces one chunk with fresh procedural geometry (no disk load, no text floors) and
    /// plain wall styles. A layout in which a house got no door is not used: then only the
    /// styles are reset and the result is false.
    pub fn regenerate_procedural_chunk<F: Fn(CellType, usize, usize) -> u64>(
        &mut self,
        coord: ChunkCoord,
        flags: &F,
    ) -> (filled: bool)
        requires
            old(self).wf(),
            i32::MIN < coord.x < i32::MAX,
            i32::MIN < coord.y < i32::MAX,
            answers(*flags),
        ensures
            final(self).wf(),
            chunk_set(
                old(self).style_wall_map,
                final(self).style_wall_map,
                coord,
                |l: LocalCoord, f: int| TileStyle::Regular,
            ),
            exists|draft: MapDraft, plain: HypermapRuntime| #[trigger]
                redrawn(draft, plain, *old(self), *final(self), coord, filled),
            filled ==> mirrored_subtiles(*old(self), *final(self), coord, *flags),
            !filled ==> final(self).static_passability_map == old(self).static_passability_map
                && final(self).static_subtile_cache == old(self).static_subtile_cache,
    {
        let ghost before = *self;
        reset_style_chunk(&mut self.style_floor_map, coord);
        reset_style_chunk(&mut self.style_wall_map, coord);
        let ghost plain = *self;
        let filled: bool = fill_chunk_random(self, coord);
        let ghost draft = choose|draft: MapDraft| #[trigger]
            lays_out(draft, plain.map, coord) && draft.all_have_doors() == filled && if filled {
                &&& self.map.replaced_chunk(plain.map, coord, self.map.chunk(coord))
                &&& built_from_draft(draft, self.map.chunk(coord))
                &&& dressed_from_draft(draft, coord, plain, *self)
            } else {
                *self == plain
            };
        assert(redrawn(draft, plain, before, *self, coord, filled));
        if !filled {
            return false;
        }
        let ghost drawn = *self;
        self.mirror_chunk(coord, flags);
        assert(redrawn(draft, plain, before, *self, coord, filled));
        true
    }
}

/// Whether the subtile layer shows the flags of the chunk's ground floor and is otherwise
/// as before.
pub open spec fn mirrored_subtiles<F: Fn(CellType, usize, usize) -> u64>(
    before: HypermapRuntime,
    after: HypermapRuntime,
    coord: ChunkCoord,
    flags: F,
) -> bool {
    &&& after.static_subtile_cache.replaced_chunk(
        before.static_subtile_cache,
        coord,
        after.static_subtile_cache.chunk(coord),
    )
    &&& forall|l: LocalCoord|
        l.in_chunk() ==> flagged(
            #[trigger] after.static_subtile_cache.chunk(coord).at(l, 0),
            flags,
            after.map.chunk(coord).at(l, 0),
        )
    &&& forall|l: LocalCoord, f: int|
        l.in_chunk() && 0 < f < 10 ==> #[trigger] after.static_subtile_cache.tile_in(coord, l, f)
            == before.static_subtile_cache.tile_in(coord, l, f)
}

/// Whether `after` is `before` with plain styles on the chunk, which `plain` has, and, where
/// `filled`, the draft laid over them.
pub open spec fn redrawn(
    draft: MapDraft,
    plain: HypermapRuntime,
    before: HypermapRuntime,
    after: HypermapRuntime,
    coord: ChunkCoord,
    filled: bool,
) -> bool {
    &&& plain == HypermapRuntime {
        style_floor_map: plain.style_floor_map,
        style_wall_map: plain.style_wall_map,
        ..before
    }
    &&& chunk_set(
        before.style_floor_map,
        plain.style_floor_map,
        coord,
        |l: LocalCoord, f: int| TileStyle::Regular,
    )
    &&& lays_out(draft, before.map, coord)
    &&& draft.all_have_doors() == filled
    &&& if filled {
        &&& after.map.replaced_chunk(before.map, coord, after.map.chunk(coord))
        &&& built_from_draft(draft, after.map.chunk(coord))
        &&& dressed_from_draft(draft, coord, plain, after)
    } else {
        after == plain
    }
}

} // verus!
