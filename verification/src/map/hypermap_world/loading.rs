//! A chunk that is wanted for the first time comes from its level files or, without them,
//! from the generator.
use vstd::prelude::*;

use crate::map::hypermap::{floor_in_range, ChunkCoord, Hypermap, HypermapChunk, LocalCoord};
use crate::map::hypermap_world::chunk_cells::{answers, apply_world_map_to_floor, overlaid};
use crate::map::hypermap_world::runtime::{
    built_from_draft, dressed_from_draft, fill_chunk_random, is_center, lays_out,
    mirrored_subtiles, HypermapRuntime,
};
use crate::map::level::{
    apply_level_geometry_text, apply_sections, parse_layer, parse_level_style_sections,
    parsed_sections_are_complete, section_complete, section_value, sections_view, LevelTextError,
};
use crate::map::map_generator::draft::MapDraft;
use crate::map::map_generator::types::GeneratedChunkMetadata;
use crate::map::world_map::{CellType, MapParseError, TileStyle, WorldMapFloor};
use crate::map::world_map_floor::{fits, good_rows, parse_fails, text_rows};

verus! {

/// What the level holds about the layout of a chunk.
#[derive(Debug)]
pub enum MetadataFile {
    /// There is no file.
    Absent,
    /// There is one, but it cannot be read.
    Unreadable,
    Read(GeneratedChunkMetadata),
}

/// The texts that the disk holds for a chunk; a text that is not there or cannot be read is
/// left out.
#[derive(Debug)]
pub struct ChunkFiles {
    pub geometry: Option<String>,
    pub metadata: MetadataFile,
    pub floor_style: Option<String>,
    pub wall_style: Option<String>,
    /// Text floors for the center chunk.
    pub world_floor0: Option<String>,
    pub world_floor1: Option<String>,
}

/// Where a chunk came from.
#[derive(Debug, Clone, Copy, PartialEq, Eq, Structural)]
pub enum ChunkSource {
    /// The world held it already.
    Held,
    /// The level's geometry file.
    Loaded,
    /// The generator.
    Generated,
    /// The generator left a house without a door: the world still lacks the chunk.
    Doorless,
}

/// Where a chunk came from, and which texts were rejected on the way.
#[derive(Debug, Clone, Copy, PartialEq, Eq)]
pub struct ChunkReport {
    pub source: ChunkSource,
    pub geometry: Option<LevelTextError>,
    pub world_floor0: Option<MapParseError>,
    pub world_floor1: Option<MapParseError>,
    pub floor_style: Option<LevelTextError>,
    pub wall_style: Option<LevelTextError>,
}

/// How a style layer looks after the text was laid over one chunk: the text's floors show
/// it, all else is as before. A text that is rejected, or none, changes nothing.
pub open spec fn styled(
    before: Hypermap<TileStyle>,
    after: Hypermap<TileStyle>,
    coord: ChunkCoord,
    text: Option<Seq<char>>,
) -> bool {
    if text is Some && parse_layer::<TileStyle>(text->0) is Ok {
        &&& after.replaced_chunk(before, coord, after.chunk(coord))
        &&& forall|l: LocalCoord, f: int|
            l.in_chunk() && floor_in_range(f) ==> #[trigger] after.chunk(coord).at(l, f)
                == section_value(
                parse_layer::<TileStyle>(text->0)->Ok_0,
                l,
                f,
                before.tile_in(coord, l, f),
            )
    } else {
        after == before
    }
}

/// The error of a text, if there is a text and it is rejected.
pub open spec fn style_error(text: Option<Seq<char>>, error: Option<LevelTextError>) -> bool {
    match error {
        Some(e) => text is Some && parse_layer::<TileStyle>(text->0) == Err::<
            Seq<(i32, Seq<Seq<TileStyle>>)>,
            _,
        >(e),
        None => text is None || parse_layer::<TileStyle>(text->0) is Ok,
    }
}

/// The characters of a text that is there.
pub open spec fn chars_in(text: Option<String>) -> Option<Seq<char>> {
    match text {
        Some(t) => Some(t@),
        None => None,
    }
}

/// Lays a style text over one chunk of a style layer.
pub fn load_chunk_style_text_into_map(
    text: &Option<String>,
    map: &mut Hypermap<TileStyle>,
    coord: ChunkCoord,
) -> (error: Option<LevelTextError>)
    requires
        old(map).wf(),
    ensures
        final(map).wf(),
        styled(*old(map), *final(map), coord, chars_in(*text)),
        style_error(chars_in(*text), error),
{
    let text: &str = match text {
        Some(text) => text.as_str(),
        None => {
            return None;
        },
    };
    match parse_level_style_sections(text) {
        Err(e) => Some(e),
        Ok(sections) => {
            proof {
                parsed_sections_are_complete::<TileStyle>(text@);
                let model = sections_view(sections@);
                assert forall|i: int| 0 <= i < sections@.len() implies section_complete(
                    #[trigger] model[i],
                ) by {
                    assert(model[i] == parse_layer::<TileStyle>(text@)->Ok_0[i]);
                }
            }
            let chunk = map.get_or_create_chunk(coord);
            apply_sections(chunk, &sections);
            None
        },
    }
}

/// Whether the floor is what the text stands for.
pub open spec fn floor_of_text(floor: WorldMapFloor, text: Seq<char>) -> bool {
    let rows = text_rows(text, 0);
    &&& rows.len() > 0
    &&& fits(rows)
    &&& good_rows(rows, false, rows.len() as int)
    &&& floor.wf()
    &&& floor.shows(rows, false)
}

/// Whether `after` is `before` with the text floor over the middle of one of its floors.
pub open spec fn laid_over(
    before: HypermapChunk<CellType>,
    after: HypermapChunk<CellType>,
    m: WorldMapFloor,
    floor: int,
) -> bool {
    forall|l: LocalCoord, f: int|
        l.in_chunk() && floor_in_range(f) ==> #[trigger] after.at(l, f) == overlaid(
            before,
            m,
            floor,
            l,
            f,
        )
}

/// Whether `after` is `before` with the text's floor laid over it.
pub open spec fn shows_text(
    before: HypermapChunk<CellType>,
    after: HypermapChunk<CellType>,
    floor: int,
    text: Seq<char>,
) -> bool {
    exists|m: WorldMapFloor| #[trigger]
        floor_of_text(m, text) && laid_over(before, after, m, floor)
}

/// How a chunk looks after a text floor was laid over the middle of one of its floors. A
/// text that is rejected, or none, changes nothing.
pub open spec fn floor_laid(
    before: HypermapChunk<CellType>,
    after: HypermapChunk<CellType>,
    floor: int,
    text: Option<Seq<char>>,
    error: Option<MapParseError>,
) -> bool {
    match text {
        Some(t) => match error {
            Some(e) => parse_fails(text_rows(t, 0), false, e) && after == before,
            None => shows_text(before, after, floor, t),
        },
        None => after == before && error is None,
    }
}

fn lay_floor(chunk: &mut HypermapChunk<CellType>, floor: i32, text: &Option<String>) -> (error:
    Option<MapParseError>)
    requires
        old(chunk).wf(),
        floor_in_range(floor as int),
    ensures
        final(chunk).wf(),
        floor_laid(*old(chunk), *final(chunk), floor as int, chars_in(*text), error),
{
    match text {
        Some(text) => match WorldMapFloor::from_ascii(text.as_str()) {
            Ok(map) => {
                apply_world_map_to_floor(chunk, floor, &map);
                proof {
                    assert(floor_of_text(map, text@));
                    assert(laid_over(*old(chunk), *chunk, map, floor as int));
                    assert(shows_text(*old(chunk), *chunk, floor as int, text@));
                }
                None
            },
            Err(e) => Some(e),
        },
        None => None,
    }
}

/// Whether the chunk shows what the geometry text says.
pub open spec fn geometry_shown(chunk: HypermapChunk<CellType>, text: Seq<char>) -> bool {
    parse_layer::<CellType>(text) is Ok && forall|l: LocalCoord, f: int|
        l.in_chunk() && floor_in_range(f) ==> #[trigger] chunk.at(l, f) == section_value(
            parse_layer::<CellType>(text)->Ok_0,
            l,
            f,
            CellType::Void,
        )
}

/// Whether the chunk's description became what its file says: a missing file takes an old
/// description away, an unreadable one leaves it.
pub open spec fn metadata_loaded(
    before: HypermapRuntime,
    after: HypermapRuntime,
    coord: ChunkCoord,
    file: MetadataFile,
) -> bool {
    forall|c: ChunkCoord| #[trigger]
        after.procedural_metadata.held(c) == if c == coord && file is Absent {
            None
        } else if c == coord && file is Read {
            Some(file->Read_0)
        } else {
            before.procedural_metadata.held(c)
        }
}

/// Whether the chunk came from the generator, with the text floors on top if it is the
/// center chunk. `styles` is the floor style layer before any style file was read.
pub open spec fn generated(
    draft: MapDraft,
    before: HypermapRuntime,
    drawn: HypermapRuntime,
    after: HypermapRuntime,
    coord: ChunkCoord,
    files: ChunkFiles,
    report: ChunkReport,
) -> bool {
    &&& lays_out(draft, before.map, coord)
    &&& draft.all_have_doors()
    &&& built_from_draft(draft, drawn.map.chunk(coord))
    &&& dressed_from_draft(draft, coord, before, drawn)
    &&& after.procedural_metadata == drawn.procedural_metadata
    &&& after.decoration_lamp_map == drawn.decoration_lamp_map
    &&& styled(drawn.style_floor_map, after.style_floor_map, coord, chars_in(files.floor_style))
    &&& if is_center(coord) {
        exists|ground: HypermapChunk<CellType>| #[trigger]
            floor_laid(
                drawn.map.chunk(coord),
                ground,
                0,
                chars_in(files.world_floor0),
                report.world_floor0,
            ) && floor_laid(
                ground,
                after.map.chunk(coord),
                1,
                chars_in(files.world_floor1),
                report.world_floor1,
            )
    } else {
        after.map.chunk(coord) == drawn.map.chunk(coord)
    }
}

impl HypermapRuntime {
    /// Takes the chunk from the level's geometry, if there is one and it is accepted.
    fn load_geometry(&mut self, coord: ChunkCoord, text: &Option<String>) -> (loaded: Result<
        bool,
        LevelTextError,
    >)
        requires
            old(self).map.wf(),
        ensures
            final(self).map.wf(),
            *final(self) == (HypermapRuntime { map: final(self).map, ..*old(self) }),
            match loaded {
                Ok(true) => text is Some && final(self).map.replaced_chunk(
                    old(self).map,
                    coord,
                    final(self).map.chunk(coord),
                ) && geometry_shown(final(self).map.chunk(coord), text->0@),
                Ok(false) => text is None && *final(self) == *old(self),
                Err(e) => text is Some && parse_layer::<CellType>(text->0@) == Err::<
                    Seq<(i32, Seq<Seq<CellType>>)>,
                    _,
                >(e) && *final(self) == *old(self),
            },
    {
        let text: &str = match text {
            Some(text) => text.as_str(),
            None => {
                return Ok(false);
            },
        };
        let mut fresh = HypermapChunk::new(&CellType::Void);
        match apply_level_geometry_text(&mut fresh, text) {
            Ok(_) => {
                let chunk = self.map.get_or_create_chunk(coord);
                *chunk = fresh;
                Ok(true)
            },
            Err(e) => Err(e),
        }
    }
}

impl HypermapRuntime {
    /// Lays the text floors over the center chunk.
    fn lay_world_floors(&mut self, coord: ChunkCoord, files: &ChunkFiles) -> (errors: (
        Option<MapParseError>,
        Option<MapParseError>,
    ))
        requires
            old(self).map.wf(),
            old(self).map.has(coord),
        ensures
            final(self).map.wf(),
            *final(self) == (HypermapRuntime { map: final(self).map, ..*old(self) }),
            final(self).map.replaced_chunk(old(self).map, coord, final(self).map.chunk(coord)),
            if is_center(coord) {
                exists|ground: HypermapChunk<CellType>| #[trigger]
                    floor_laid(
                        old(self).map.chunk(coord),
                        ground,
                        0,
                        chars_in(files.world_floor0),
                        errors.0,
                    ) && floor_laid(
                        ground,
                        final(self).map.chunk(coord),
                        1,
                        chars_in(files.world_floor1),
                        errors.1,
                    )
            } else {
                final(self).map.chunk(coord) == old(self).map.chunk(coord) && errors.0 is None
                    && errors.1 is None
            },
    {
        if coord.x != 0 || coord.y != 0 {
            return (None, None);
        }
        let chunk = self.map.get_or_create_chunk(coord);
        let ghost start = *chunk;
        let first = lay_floor(chunk, 0, &files.world_floor0);
        let ghost ground = *chunk;
        let second = lay_floor(chunk, 1, &files.world_floor1);
        assert(floor_laid(start, ground, 0, chars_in(files.world_floor0), first));
        (first, second)
    }
}

/// Whether the report names the geometry text's error, if it has one.
pub open spec fn geometry_error(text: Option<Seq<char>>, error: Option<LevelTextError>) -> bool {
    match error {
        Some(e) => text is Some && parse_layer::<CellType>(text->0) == Err::<
            Seq<(i32, Seq<Seq<CellType>>)>,
            _,
        >(e),
        None => text is None || parse_layer::<CellType>(text->0) is Ok,
    }
}

/// What a chunk that was not held before has become.
pub open spec fn arrived(
    before: HypermapRuntime,
    after: HypermapRuntime,
    coord: ChunkCoord,
    files: ChunkFiles,
    report: ChunkReport,
) -> bool {
    &&& after.map.replaced_chunk(before.map, coord, after.map.chunk(coord))
    &&& styled(before.style_wall_map, after.style_wall_map, coord, chars_in(files.wall_style))
    &&& style_error(chars_in(files.floor_style), report.floor_style)
    &&& style_error(chars_in(files.wall_style), report.wall_style)
    &&& match report.source {
        ChunkSource::Loaded => {
            &&& geometry_shown(after.map.chunk(coord), chars_in(files.geometry)->0)
            &&& metadata_loaded(before, after, coord, files.metadata)
            &&& styled(
                before.style_floor_map,
                after.style_floor_map,
                coord,
                chars_in(files.floor_style),
            )
            &&& after.decoration_lamp_map == before.decoration_lamp_map
            &&& report.world_floor0 is None
            &&& report.world_floor1 is None
        },
        _ => exists|draft: MapDraft, drawn: HypermapRuntime| #[trigger]
            generated(draft, before, drawn, after, coord, files, report),
    }
}

impl HypermapRuntime {
    /// Makes sure that the world holds the chunk. One that it lacks is taken from the level's
    /// geometry, and from the generator where there is none or it is rejected; the center
    /// chunk of a generated world gets the text floors. The mirrors follow, and the style
    /// texts come last.
    pub fn ensure_chunk_generated<F: Fn(CellType, usize, usize) -> u64>(
        &mut self,
        coord: ChunkCoord,
        files: ChunkFiles,
        flags: &F,
    ) -> (report: ChunkReport)
        requires
            old(self).wf(),
            i32::MIN < coord.x < i32::MAX,
            i32::MIN < coord.y < i32::MAX,
            answers(*flags),
        ensures
            final(self).wf(),
            report.source is Held <==> old(self).map.has(coord),
            report.source is Held || report.source is Doorless ==> *final(self) == *old(self),
            report.source !is Held ==> {
                &&& geometry_error(chars_in(files.geometry), report.geometry)
                &&& report.source is Loaded <==> files.geometry is Some && report.geometry is None
            },
            report.source is Doorless ==> exists|draft: MapDraft| #[trigger]
                lays_out(draft, old(self).map, coord) && !draft.all_have_doors(),
            report.source is Loaded || report.source is Generated ==> arrived(
                *old(self),
                *final(self),
                coord,
                files,
                report,
            ) && mirrored_subtiles(*old(self), *final(self), coord, *flags),
    {
        let ghost before = *self;
        let mut report = ChunkReport {
            source: ChunkSource::Held,
            geometry: None,
            world_floor0: None,
            world_floor1: None,
            floor_style: None,
            wall_style: None,
        };
        if self.map.has_chunk(coord) {
            return report;
        }
        let mut loaded: bool = false;
        match self.load_geometry(coord, &files.geometry) {
            Ok(found) => {
                loaded = found;
            },
            Err(e) => {
                report.geometry = Some(e);
            },
        }
        let ghost mut drawn = *self;
        let ghost mut draft: MapDraft = arbitrary();
        if loaded {
            report.source = ChunkSource::Loaded;
        } else {
            let filled: bool = fill_chunk_random(self, coord);
            proof {
                draft = choose|draft: MapDraft| #[trigger]
                    lays_out(draft, before.map, coord) && draft.all_have_doors() == filled && if filled {
                        &&& self.map.replaced_chunk(before.map, coord, self.map.chunk(coord))
                        &&& built_from_draft(draft, self.map.chunk(coord))
                        &&& dressed_from_draft(draft, coord, before, *self)
                    } else {
                        *self == before
                    };
                drawn = *self;
            }
            if !filled {
                report.source = ChunkSource::Doorless;
                return report;
            }
            report.source = ChunkSource::Generated;
            let (first, second) = self.lay_world_floors(coord, &files);
            report.world_floor0 = first;
            report.world_floor1 = second;
        }
        if loaded {
            match files.metadata {
                MetadataFile::Read(meta) => self.procedural_metadata.insert(coord, meta),
                MetadataFile::Absent => self.procedural_metadata.remove(coord),
                MetadataFile::Unreadable => {},
            }
        }
        let ghost settled = *self;
        self.mirror_chunk(coord, flags);
        report.floor_style = load_chunk_style_text_into_map(
            &files.floor_style,
            &mut self.style_floor_map,
            coord,
        );
        report.wall_style = load_chunk_style_text_into_map(
            &files.wall_style,
            &mut self.style_wall_map,
            coord,
        );
        proof {
            if !loaded {
                assert(generated(draft, before, drawn, *self, coord, files, report));
            }
        }
        report
    }
}

} // verus!
