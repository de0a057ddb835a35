//! The whole pipeline, from an empty draft to a chunk.
use vstd::prelude::*;

use crate::map::chunk_metadata::{copy_metadata, same_metadata, ChunkGeneratorMetadata};
use crate::map::hypermap::{
    floor_in_range, random_rng_seed, ChunkCoord, Hypermap, HypermapChunk, LocalCoord,
};
use crate::map::level::{encode_chunk_geometry, floors_text};
use crate::map::map_generator::connector_laws::margin_shows;
use crate::map::map_generator::draft::{
    becomes, tile_at, Cells, DraftTile, MapDraft, Room, RoomRecord,
};
use crate::map::map_generator::grid::{in_grid, is_square, read, value_at};
use crate::map::map_generator::house::{
    house_fits, lemma_rects_of, rects_of, union_has, House,
};
use crate::map::map_generator::inner_doors_laws::{
    entry_near, inner_doors_placed, lemma_member_origin,
};
use crate::map::map_generator::stations::{
    all_chargers_placed, all_depots_placed, chargers_placed, depot_placed, depots_placed, site_at,
    stations_placed, stations_put, StationSite,
};
use crate::map::map_generator::step_carpet::{carpeted, fill_rect};
use crate::map::map_generator::step_chunk_connectors::{
    corridors_opened, lemma_planned_near, near, on_corridor, plan_chunk_connectors, planned, ChunkSide,
};
use crate::map::map_generator::step_corners::pillars_stamped;
use crate::map::map_generator::step_door::same_tiles;
use crate::map::map_generator::step_home_crawler::homes_crawled;
use crate::map::map_generator::step_house_doors::{
    doors_placed, house_doors_placed, looser, opens_only, same_footprints,
};
use crate::map::map_generator::step_houses::{
    built_from, clustered, houses_clustered, leaders, members,
};
use crate::map::map_generator::step_inner_walls::{
    all_walls_laid, cuts_allowed, houses_split, leads, one_house_walled, walls_laid,
};
use crate::map::map_generator::step_place_lamps::lamps_hung;
use crate::map::map_generator::step_ponds::ponds_dug;
use crate::map::map_generator::step_rooms::{inside_growth, rooms_grown};
use crate::map::map_generator::step_seeds::{seeds_placed, subseeds_spawned};
use crate::map::map_generator::step_shell::{interior_painted, shell_built};
use crate::map::map_generator::types::{
    ChunkRoadConnectors, GeneratedChunkMetadata, MapGeneratorConfig, CHUNK_VOID_MARGIN,
};
use crate::map::world_map::{CellType, LampDecoration, TileStyle};

verus! {

/// Smallest boundary side (in cells) the editor "House" tool accepts.
pub const MIN_HOUSE_TOOL_SIDE: i32 = 10;

/// Exterior road ring kept around a tool-generated house so doors can open
/// onto road on every side (matches the procedural carpet that surrounds
/// houses in a full chunk).
const HOUSE_TOOL_PAD: i32 = 4;

/// Whether the same cells are void before and after.
pub open spec fn keeps_voids(before: Cells, after: Cells) -> bool {
    forall|x: int, z: int|
        (#[trigger] tile_at(after, x, z) is Void) == (tile_at(before, x, z) is Void)
}

proof fn lemma_chain_keeps(states: Seq<Cells>, n: int)
    requires
        states.len() == n + 1,
        n >= 0,
        forall|i: int| 0 <= i < n ==> keeps_voids(#[trigger] states[i], states[i + 1]),
    ensures
        keeps_voids(states[0], states[n]),
    decreases n,
{
    if n > 0 {
        let shorter = states.take(n);
        assert forall|i: int| 0 <= i < n - 1 implies keeps_voids(
            #[trigger] shorter[i],
            shorter[i + 1],
        ) by {
            assert(shorter[i] == states[i] && shorter[i + 1] == states[i + 1]);
        }
        lemma_chain_keeps(shorter, n - 1);
        assert(keeps_voids(states[n - 1], states[n - 1 + 1]));
        assert forall|x: int, z: int|
            (#[trigger] tile_at(states[n], x, z) is Void) == (tile_at(states[0], x, z) is Void) by {
            assert((tile_at(states[n - 1], x, z) is Void) == (tile_at(states[0], x, z) is Void));
        }
    }
}

proof fn lemma_opening_keeps(before: Cells, after: Cells)
    requires
        opens_only(before, after),
    ensures
        keeps_voids(before, after),
{
    assert forall|x: int, z: int|
        (#[trigger] tile_at(after, x, z) is Void) == (tile_at(before, x, z) is Void) by {
        assert(looser(tile_at(before, x, z), tile_at(after, x, z)));
    }
}

proof fn lemma_walls_keep(before: Cells, after: Cells, houses: Seq<House>, n: int)
    requires
        0 <= n <= houses.len(),
        all_walls_laid(before, after, houses, n),
    ensures
        keeps_voids(before, after),
{
    let states = choose|states: Seq<Cells>| #[trigger]
        leads(states, before, after, n) && forall|i: int|
            0 <= i < n ==> one_house_walled(states[i], states[i + 1], #[trigger] houses[i]);
    assert forall|i: int| 0 <= i < n implies keeps_voids(#[trigger] states[i], states[i + 1]) by {
        let house = houses[i];
        assert(one_house_walled(states[i], states[i + 1], house));
        if house.footprint_area < 30 {
            assert(same_tiles(states[i], states[i + 1]));
            assert forall|x: int, z: int|
                (#[trigger] tile_at(states[i + 1], x, z) is Void) == (tile_at(
                    states[i],
                    x,
                    z,
                ) is Void) by {
                assert(tile_at(states[i], x, z) == tile_at(states[i + 1], x, z));
            }
        } else {
            let (h, v) = choose|h: Seq<i32>, v: Seq<i32>| #[trigger]
                cuts_allowed(house, h, v) && walls_laid(states[i], states[i + 1], house, h, v);
            assert(walls_laid(states[i], states[i + 1], house, h, v));
        }
    }
    lemma_chain_keeps(states, n);
}

proof fn lemma_stations_keep(
    before: Cells,
    after: Cells,
    house: House,
    sites: Seq<StationSite>,
    depot: bool,
)
    requires
        stations_put(before, after, house, sites, depot),
    ensures
        keeps_voids(before, after),
{
    assert forall|x: int, z: int|
        (#[trigger] tile_at(after, x, z) is Void) == (tile_at(before, x, z) is Void) by {
        if site_at(sites, x, z) {
            let i = choose|i: int|
                0 <= i < sites.len() && (#[trigger] sites[i]).0 == x && sites[i].1 == z;
            assert(tile_at(before, sites[i].0 as int, sites[i].1 as int) == DraftTile::Open);
        }
    }
}

proof fn lemma_chargers_keep(before: Cells, after: Cells, houses: Seq<House>, n: int)
    requires
        0 <= n <= houses.len(),
        all_chargers_placed(before, after, houses, n),
    ensures
        keeps_voids(before, after),
{
    let states = choose|states: Seq<Cells>| #[trigger]
        leads(states, before, after, n) && forall|i: int|
            0 <= i < n ==> chargers_placed(states[i], states[i + 1], #[trigger] houses[i]);
    assert forall|i: int| 0 <= i < n implies keeps_voids(#[trigger] states[i], states[i + 1]) by {
        assert(chargers_placed(states[i], states[i + 1], houses[i]));
        let sites = choose|sites: Seq<StationSite>| #[trigger]
            stations_put(states[i], states[i + 1], houses[i], sites, false);
        lemma_stations_keep(states[i], states[i + 1], houses[i], sites, false);
    }
    lemma_chain_keeps(states, n);
}

proof fn lemma_depots_keep(before: Cells, after: Cells, houses: Seq<House>, n: int)
    requires
        0 <= n <= houses.len(),
        all_depots_placed(before, after, houses, n),
    ensures
        keeps_voids(before, after),
{
    let states = choose|states: Seq<Cells>| #[trigger]
        leads(states, before, after, n) && forall|i: int|
            0 <= i < n ==> depot_placed(states[i], states[i + 1], #[trigger] houses[i]);
    assert forall|i: int| 0 <= i < n implies keeps_voids(#[trigger] states[i], states[i + 1]) by {
        assert(depot_placed(states[i], states[i + 1], houses[i]));
        let sites = choose|sites: Seq<StationSite>| #[trigger]
            stations_put(states[i], states[i + 1], houses[i], sites, true);
        lemma_stations_keep(states[i], states[i + 1], houses[i], sites, true);
    }
    lemma_chain_keeps(states, n);
}

/// All cells of the houses.
pub open spec fn footprint(houses: Seq<House>, x: int, z: int) -> bool {
    union_has(rects_of(houses, houses.len()), x, z)
}

/// Whether the drafts of `course` are what the steps that make buildings of houses leave
/// behind, one after the other.
pub open spec fn building_course(course: Seq<MapDraft>, before: MapDraft, after: MapDraft) -> bool {
    &&& course.len() == 11
    &&& course[0] == before
    &&& course[10] == after
    &&& interior_painted(course[0], course[1])
    &&& shell_built(course[1], course[2])
    &&& pillars_stamped(course[2], course[3])
    &&& house_doors_placed(course[3], course[4])
    &&& houses_split(course[4], course[5])
    &&& inner_doors_placed(course[5], course[6])
    &&& homes_crawled(course[6], course[7])
    &&& stations_placed(course[7], course[8])
    &&& depots_placed(course[8], course[9])
    &&& lamps_hung(course[9], course[10])
}

/// Whether the houses were made into buildings, step by step.
pub open spec fn built(before: MapDraft, after: MapDraft) -> bool {
    exists|course: Seq<MapDraft>| #[trigger] building_course(course, before, after)
}

impl MapDraft {
    /// Turns already-populated `self.houses` (sitting on an `Open` carpet) into
    /// finished buildings: outer shell walls, inner corner pillars, one or two doors per
    /// house, inner room walls + doors, floor-style crawlers, and chargers.
    ///
    /// Shared by the procedural pipeline (after seed clustering) and the editor
    /// "House" tool (a single hand-placed footprint) so both paths produce
    /// identical building geometry.
    ///
    /// Whatever is rolled, the footprint of the houses ends up without void, and void outside
    /// of it stays void.
    pub fn build_house_structures(&mut self)
        requires
            old(self).wf(),
            forall|i: int|
                0 <= i < old(self).houses@.len() ==> entry_near(#[trigger] old(self).houses@[i]),
        ensures
            final(self).wf(),
            built(*old(self), *final(self)),
            *final(self) == (MapDraft {
                cells: final(self).cells,
                floor_styles: final(self).floor_styles,
                lamps: final(self).lamps,
                houses: final(self).houses,
                rng: final(self).rng,
                ..*old(self)
            }),
            same_footprints(old(self).houses@, final(self).houses@),
            forall|i: int|
                0 <= i < final(self).houses@.len() ==> entry_near(
                    #[trigger] final(self).houses@[i],
                ),
            forall|x: int, z: int|
                in_grid(old(self).size as int, x, z) ==> (#[trigger] final(self).tile(x, z) is Void)
                    == (old(self).tile(x, z) is Void && !footprint(old(self).houses@, x, z)),
    {
        let ghost n = self.size as int;
        self.step_paint_union_interior();
        let ghost d1 = *self;
        let ghost painted = self.cells;
        proof {
            assert forall|x: int, z: int| in_grid(n, x, z) implies (#[trigger] tile_at(
                painted,
                x,
                z,
            ) is Void) == (old(self).tile(x, z) is Void && !footprint(old(self).houses@, x, z)) by {
                assert(self.tile(x, z) == tile_at(painted, x, z));
            }
        }
        self.step_build_union_outer_walls();
        let ghost d2 = *self;
        let ghost shell = self.cells;
        proof {
            assert forall|x: int, z: int| in_grid(n, x, z) implies (#[trigger] tile_at(
                shell,
                x,
                z,
            ) is Void) == (tile_at(painted, x, z) is Void) by {
                assert(self.tile(x, z) == tile_at(shell, x, z));
            }
        }
        self.step_stamp_union_inner_corner_pillars();
        let ghost d3 = *self;
        let ghost pillars = self.cells;
        proof {
            assert forall|x: int, z: int|
                (#[trigger] tile_at(pillars, x, z) is Void) == (tile_at(shell, x, z) is Void) by {
                assert(self.tile(x, z) == tile_at(pillars, x, z));
            }
        }
        self.step_place_house_doors();
        let ghost d4 = *self;
        let ghost doors = self.cells;
        proof {
            lemma_opening_keeps(pillars, doors);
            assert forall|i: int| 0 <= i < self.houses@.len() implies entry_near(
                #[trigger] self.houses@[i],
            ) by {
                assert(entry_near(old(self).houses@[i]));
                assert(doors_placed(pillars, doors, old(self).houses@[i], self.houses@, i));
            }
        }
        self.step_split_houses_into_rooms();
        let ghost d5 = *self;
        let ghost walls = self.cells;
        proof {
            lemma_walls_keep(doors, walls, self.houses@, self.houses@.len() as int);
        }
        self.step_place_inner_doors();
        let ghost d6 = *self;
        let ghost inner = self.cells;
        proof {
            lemma_opening_keeps(walls, inner);
        }
        self.step_home_crawlers();
        let ghost d7 = *self;
        self.step_place_charging_stations();
        let ghost d8 = *self;
        let ghost chargers = self.cells;
        proof {
            lemma_chargers_keep(inner, chargers, self.houses@, self.houses@.len() as int);
        }
        self.step_place_parts_depots();
        let ghost d9 = *self;
        let ghost depots = self.cells;
        proof {
            lemma_depots_keep(chargers, depots, self.houses@, self.houses@.len() as int);
        }
        self.step_place_lamps();
        let ghost d10 = *self;
        proof {
            let course = seq![*old(self), d1, d2, d3, d4, d5, d6, d7, d8, d9, d10];
            assert(building_course(course, *old(self), *self));
            assert forall|x: int, z: int| in_grid(self.size as int, x, z) implies (
            #[trigger] self.tile(x, z) is Void) == (old(self).tile(x, z) is Void && !footprint(
                old(self).houses@,
                x,
                z,
            )) by {
                assert((tile_at(depots, x, z) is Void) == (tile_at(chargers, x, z) is Void));
                assert((tile_at(chargers, x, z) is Void) == (tile_at(inner, x, z) is Void));
                assert((tile_at(inner, x, z) is Void) == (tile_at(walls, x, z) is Void));
                assert((tile_at(walls, x, z) is Void) == (tile_at(doors, x, z) is Void));
                assert((tile_at(doors, x, z) is Void) == (tile_at(pillars, x, z) is Void));
                assert((tile_at(pillars, x, z) is Void) == (tile_at(shell, x, z) is Void));
                assert((tile_at(shell, x, z) is Void) == (tile_at(painted, x, z) is Void));
            }
        }
    }
}

/// Houses that grew inside the bounds have no cell in the margin.
proof fn lemma_footprint_in_growth(
    records: Seq<RoomRecord>,
    houses: Seq<House>,
    bounds: crate::map::map_generator::draft::DraftBounds,
    x: int,
    z: int,
)
    requires
        clustered(records, houses),
        inside_growth(records, bounds),
        footprint(houses, x, z),
    ensures
        bounds.grow_lo <= x <= bounds.grow_hi,
        bounds.grow_lo <= z <= bounds.grow_hi,
{
    lemma_rects_of(houses, houses.len(), x, z);
    let h = choose|h: int| 0 <= h < houses.len() && (#[trigger] houses[h]).has(x, z);
    let lead = leaders(records, records.len())[h];
    let rects = members(records, lead, records.len());
    assert(built_from(houses[h], rects));
    let i = choose|i: int| 0 <= i < rects.len() && (#[trigger] rects[i]).has(x, z);
    let k = lemma_member_origin(records, lead, records.len(), i);
    assert(records[k].bounds.has(x, z));
}

/// Whether the drafts of `course` are what the steps of the pipeline leave behind, one after
/// the other.
pub open spec fn generation_course(
    course: Seq<MapDraft>,
    before: MapDraft,
    after: MapDraft,
) -> bool {
    &&& course.len() == 9
    &&& course[0] == before
    &&& course[8] == after
    &&& carpeted(course[0], course[1])
    &&& seeds_placed(course[1], course[2])
    &&& subseeds_spawned(course[2], course[3])
    &&& rooms_grown(course[3], course[4])
    &&& houses_clustered(course[4], course[5])
    &&& built(course[5], course[6])
    &&& ponds_dug(course[6], course[7])
    &&& corridors_opened(course[7], course[8])
}

/// Whether the pipeline made the one draft of the other, step by step.
pub open spec fn generated_from(before: MapDraft, after: MapDraft) -> bool {
    exists|course: Seq<MapDraft>| #[trigger] generation_course(course, before, after)
}

impl MapDraft {
    /// Whether every house has its main doorway.
    pub open spec fn all_have_doors(self) -> bool {
        forall|i: int| 0 <= i < self.houses@.len() ==> (#[trigger] self.houses@[i]).entry is Some
    }

    /// Runs all steps on an empty draft.
    ///
    /// Whatever is rolled, the margin is road on the planned corridors and void elsewhere.
    pub fn run_pipeline(&mut self)
        requires
            old(self).wf(),
            old(self).size >= 2 * old(self).margin + 5,
            near(old(self).connector_plan.west@),
            near(old(self).connector_plan.east@),
            near(old(self).connector_plan.south@),
            near(old(self).connector_plan.north@),
            forall|x: int, z: int| #[trigger] old(self).tile(x, z) == DraftTile::Void,
        ensures
            final(self).wf(),
            generated_from(*old(self), *final(self)),
            final(self).size == old(self).size,
            final(self).margin == old(self).margin,
            final(self).bounds == old(self).bounds,
            final(self).connector_plan == old(self).connector_plan,
            final(self).generator_seed == old(self).generator_seed,
            margin_shows(
                final(self).cells,
                old(self).connector_plan,
                old(self).margin as int,
                old(self).size as int,
            ),
    {
        let ghost m = self.margin as int;
        let ghost n = self.size as int;
        self.step_init_carpet();
        let ghost d1 = *self;
        let ghost carpet = self.cells;
        proof {
            assert forall|x: int, z: int| !(m <= x < n - m && m <= z < n - m) implies #[trigger] tile_at(
                carpet,
                x,
                z,
            ) is Void by {
                assert(self.tile(x, z) == tile_at(carpet, x, z));
                assert(old(self).tile(x, z) is Void);
            }
        }
        self.step_place_primary_seeds();
        let ghost d2 = *self;
        self.step_separate_primary_seeds();
        self.step_spawn_subseeds();
        let ghost d3 = *self;
        self.step_grow_rooms();
        let ghost d4 = *self;
        let ghost records = self.room_records@;
        self.step_cluster_houses();
        let ghost d5 = *self;
        let ghost clusters = self.houses@;
        proof {
            assert forall|i: int| 0 <= i < self.houses@.len() implies entry_near(
                #[trigger] self.houses@[i],
            ) by {
                assert(built_from(
                    self.houses@[i],
                    members(records, leaders(records, records.len())[i], records.len()),
                ));
            }
        }
        self.build_house_structures();
        let ghost d6 = *self;
        let ghost built = self.cells;
        proof {
            assert forall|x: int, z: int|
                in_grid(n, x, z) && !(m <= x < n - m && m <= z < n - m) implies #[trigger] tile_at(
                built,
                x,
                z,
            ) is Void by {
                assert(self.tile(x, z) == tile_at(built, x, z));
                assert(tile_at(carpet, x, z) is Void);
                if footprint(clusters, x, z) {
                    lemma_footprint_in_growth(records, clusters, self.bounds, x, z);
                }
            }
        }
        self.step_place_ponds();
        let ghost d7 = *self;
        let ghost ponds = self.cells;
        proof {
            assert forall|x: int, z: int|
                in_grid(n, x, z) && !(m <= x < n - m && m <= z < n - m) implies #[trigger] tile_at(
                ponds,
                x,
                z,
            ) is Void by {
                assert(self.tile(x, z) == tile_at(ponds, x, z));
                assert(tile_at(built, x, z) is Void);
            }
        }
        self.step_stamp_chunk_connectors();
        let ghost d8 = *self;
        proof {
            let course = seq![*old(self), d1, d2, d3, d4, d5, d6, d7, d8];
            assert(generation_course(course, *old(self), *self));
            assert forall|x: int, z: int|
                in_grid(n, x, z) && !(m <= x < n - m && m <= z < n - m) implies #[trigger] tile_at(
                self.cells,
                x,
                z,
            ) == if on_corridor(self.connector_plan, m, n, x, z) {
                DraftTile::Open
            } else {
                DraftTile::Void
            } by {
                assert(self.tile(x, z) == tile_at(self.cells, x, z));
                assert(tile_at(ponds, x, z) is Void);
            }
        }
    }

    /// Runs the full pipeline and returns finished floor-0 tiles; without planned corridors
    /// the margin stays void.
    pub fn generate(config: MapGeneratorConfig) -> (cells: Vec<Vec<CellType>>)
        requires
            config.valid(),
            config.size >= 2 * config.margin + 5,
        ensures
            is_square(cells, config.size as int),
            exists|start: MapDraft, draft: MapDraft|
                #![trigger generated_from(start, draft)]
                {
                    &&& fresh(start, config.size as int, config.margin as int)
                    &&& unplanned(start.connector_plan)
                    &&& generated_from(start, draft)
                    &&& forall|x: int, z: int|
                        in_grid(config.size as int, x, z) ==> becomes(
                            draft.tile(x, z),
                            #[trigger] value_at(cells, x, z),
                        )
                },
            forall|x: int, z: int|
                in_grid(config.size as int, x, z) && !(config.margin <= x < config.size
                    - config.margin && config.margin <= z < config.size - config.margin)
                    ==> #[trigger] value_at(cells, x, z) == CellType::Void,
    {
        let mut draft = MapDraft::new(config);
        let ghost start = draft;
        draft.run_pipeline();
        let cells = draft.finish();
        proof {
            assert(fresh(start, config.size as int, config.margin as int));
            assert(generated_from(start, draft));
            let m = config.margin as int;
            let n = config.size as int;
            assert forall|x: int, z: int|
                in_grid(n, x, z) && !(m <= x < n - m && m <= z < n - m) implies #[trigger] value_at(
                cells,
                x,
                z,
            ) == CellType::Void by {
                assert(draft.tile(x, z) == tile_at(draft.cells, x, z));
                assert(!on_corridor(draft.connector_plan, m, n, x, z));
            }
        }
        cells
    }
}

/// Whether the draft is empty: void everywhere, without styles and lamps.
pub open spec fn fresh(draft: MapDraft, size: int, margin: int) -> bool {
    &&& draft.wf()
    &&& draft.size == size
    &&& draft.margin == margin
    &&& forall|x: int, z: int| #[trigger] draft.tile(x, z) == DraftTile::Void
    &&& forall|x: int, z: int|
        in_grid(size, x, z) ==> #[trigger] draft.style(x, z) == TileStyle::Regular
    &&& forall|x: int, z: int|
        in_grid(size, x, z) ==> #[trigger] draft.lamp(x, z) == LampDecoration::Bare
}

/// Whether no corridor is planned.
pub open spec fn unplanned(plan: ChunkRoadConnectors) -> bool {
    plan.west@.len() == 0 && plan.east@.len() == 0 && plan.south@.len() == 0 && plan.north@.len()
        == 0
}

/// Whether the ground floor of the chunk is built from the draft and the rest is as the map
/// had it.
pub open spec fn built_over(
    draft: MapDraft,
    chunk: HypermapChunk<CellType>,
    map: Hypermap<CellType>,
    coord: ChunkCoord,
) -> bool {
    forall|l: LocalCoord, f: int|
        l.in_chunk() && floor_in_range(f) ==> if f == 0 && in_grid(
            draft.size as int,
            l.x as int,
            l.y as int,
        ) {
            becomes(draft.tile(l.x as int, l.y as int), #[trigger] chunk.at(l, f))
        } else {
            chunk.at(l, f) == map.tile_in(coord, l, f)
        }
}

/// Whether the ground floor of the chunk shows the grid and the rest is as the map had it.
pub open spec fn shown_over<T: Copy>(
    grid: Vec<Vec<T>>,
    chunk: HypermapChunk<T>,
    map: Hypermap<T>,
    coord: ChunkCoord,
) -> bool {
    forall|l: LocalCoord, f: int|
        l.in_chunk() && floor_in_range(f) ==> #[trigger] chunk.at(l, f) == if f == 0 && in_grid(
            grid@.len() as int,
            l.x as int,
            l.y as int,
        ) {
            value_at(grid, l.x as int, l.y as int)
        } else {
            map.tile_in(coord, l, f)
        }
}

/// Whether the pipeline made the draft of `start` for the chunk: its corridors fit the
/// neighbours and its margin shows them.
pub open spec fn laid_out_from(
    start: MapDraft,
    draft: MapDraft,
    map: Hypermap<CellType>,
    coord: ChunkCoord,
) -> bool {
    &&& draft.wf()
    &&& generated_from(MapDraft { connector_plan: draft.connector_plan, ..start }, draft)
    &&& planned(map, coord, draft.margin as int, draft.size as int, draft.connector_plan)
    &&& margin_shows(
        draft.cells,
        draft.connector_plan,
        draft.margin as int,
        draft.size as int,
    )
}

/// Whether the draft is a layout for the chunk that the pipeline made of an empty draft.
pub open spec fn laid_out_for(draft: MapDraft, map: Hypermap<CellType>, coord: ChunkCoord) -> bool {
    exists|start: MapDraft| #[trigger]
        laid_out_from(start, draft, map, coord) && fresh(
            start,
            draft.size as int,
            draft.margin as int,
        )
}

/// Whether the description is that of the draft.
pub open spec fn describes(meta: GeneratedChunkMetadata, draft: MapDraft) -> bool {
    &&& meta.version == 4
    &&& meta.generator_seed == draft.generator_seed
    &&& meta.houses@ == Seq::new(draft.houses@.len(), |i: int| draft.houses@[i].generated())
    &&& meta.road_connectors.west@ == draft.connector_plan.west@
    &&& meta.road_connectors.east@ == draft.connector_plan.east@
    &&& meta.road_connectors.south@ == draft.connector_plan.south@
    &&& meta.road_connectors.north@ == draft.connector_plan.north@
}

/// Whether the three maps hold the draft at the chunk and are otherwise as before.
pub open spec fn maps_written(
    draft: MapDraft,
    coord: ChunkCoord,
    map0: Hypermap<CellType>,
    map1: Hypermap<CellType>,
    styles0: Hypermap<TileStyle>,
    styles1: Hypermap<TileStyle>,
    lamps0: Hypermap<LampDecoration>,
    lamps1: Hypermap<LampDecoration>,
) -> bool {
    &&& map1.replaced_chunk(map0, coord, map1.chunk(coord))
    &&& built_over(draft, map1.chunk(coord), map0, coord)
    &&& styles1.replaced_chunk(styles0, coord, styles1.chunk(coord))
    &&& shown_over(draft.floor_styles, styles1.chunk(coord), styles0, coord)
    &&& lamps1.replaced_chunk(lamps0, coord, lamps1.chunk(coord))
    &&& shown_over(draft.lamps, lamps1.chunk(coord), lamps0, coord)
}

impl MapDraft {
    fn have_doors(&self) -> (yes: bool)
        ensures
            yes == self.all_have_doors(),
    {
        let mut i: usize = 0;
        while i < self.houses.len()
            invariant
                i <= self.houses@.len(),
                forall|j: int| 0 <= j < i ==> (#[trigger] self.houses@[j]).entry is Some,
            decreases self.houses@.len() - i,
        {
            if self.houses[i].entry.is_none() {
                return false;
            }
            i += 1;
        }
        true
    }

    /// Lays out an empty draft for the chunk at `coord`.
    fn lay_out(self, map: &Hypermap<CellType>, coord: ChunkCoord) -> (draft: MapDraft)
        requires
            self.wf(),
            2 * self.margin + 5 <= self.size <= 128,
            forall|x: int, z: int| #[trigger] self.tile(x, z) == DraftTile::Void,
            map.wf(),
            i32::MIN < coord.x < i32::MAX,
            i32::MIN < coord.y < i32::MAX,
        ensures
            laid_out_from(self, draft, *map, coord),
            draft.size == self.size,
            draft.margin == self.margin,
            draft.generator_seed == self.generator_seed,
    {
        let mut draft = self;
        draft.connector_plan = plan_chunk_connectors(
            map,
            coord,
            draft.margin,
            draft.size,
            draft.generator_seed,
        );
        proof {
            let m = draft.margin as int;
            let n = draft.size as int;
            let plan = draft.connector_plan;
            lemma_plan_near(*map, coord, m, n, plan);
            assert forall|x: int, z: int| #[trigger] draft.tile(x, z) == DraftTile::Void by {
                assert(self.tile(x, z) == DraftTile::Void);
            }
        }
        draft.run_pipeline();
        draft
    }

    /// Generates the chunk at `coord` and writes it to the maps. A layout in which a house
    /// found no place for its doorway is not written and has no description.
    pub fn run_into_chunk(
        self,
        map: &mut Hypermap<CellType>,
        style_floor_map: &mut Hypermap<TileStyle>,
        decoration_lamp_map: &mut Hypermap<LampDecoration>,
        coord: ChunkCoord,
    ) -> (meta: Option<GeneratedChunkMetadata>)
        requires
            self.wf(),
            2 * self.margin + 5 <= self.size <= 128,
            forall|x: int, z: int| #[trigger] self.tile(x, z) == DraftTile::Void,
            old(map).wf(),
            old(style_floor_map).wf(),
            old(decoration_lamp_map).wf(),
            i32::MIN < coord.x < i32::MAX,
            i32::MIN < coord.y < i32::MAX,
        ensures
            final(map).wf(),
            final(style_floor_map).wf(),
            final(decoration_lamp_map).wf(),
            exists|draft: MapDraft|
                #![trigger laid_out_from(self, draft, *old(map), coord)]
                {
                    &&& laid_out_from(self, draft, *old(map), coord)
                    &&& draft.size == self.size
                    &&& draft.margin == self.margin
                    &&& draft.generator_seed == self.generator_seed
                    &&& match meta {
                        Some(meta) => draft.all_have_doors() && describes(meta, draft)
                            && maps_written(
                            draft,
                            coord,
                            *old(map),
                            *final(map),
                            *old(style_floor_map),
                            *final(style_floor_map),
                            *old(decoration_lamp_map),
                            *final(decoration_lamp_map),
                        ),
                        None => !draft.all_have_doors() && *final(map) == *old(map) && *final(
                            style_floor_map) == *old(style_floor_map) && *final(
                            decoration_lamp_map) == *old(decoration_lamp_map),
                    }
                },
    {
        let draft = self.lay_out(map, coord);
        assert(laid_out_from(self, draft, *old(map), coord));
        if !draft.have_doors() {
            return None;
        }
        let meta = draft.build_metadata();
        let chunk = map.get_or_create_chunk(coord);
        let style_chunk = style_floor_map.get_or_create_chunk(coord);
        let lamp_chunk = decoration_lamp_map.get_or_create_chunk(coord);
        draft.write_chunk_floor0_and_styles(chunk, style_chunk, lamp_chunk);
        Some(meta)
    }
}

proof fn lemma_plan_near(
    map: Hypermap<CellType>,
    coord: ChunkCoord,
    m: int,
    n: int,
    plan: ChunkRoadConnectors,
)
    requires
        0 <= m <= n <= 128,
        planned(map, coord, m, n, plan),
    ensures
        near(plan.west@),
        near(plan.east@),
        near(plan.south@),
        near(plan.north@),
{
    lemma_planned_near(map, coord, ChunkSide::West, m, n, plan.west@);
    lemma_planned_near(map, coord, ChunkSide::East, m, n, plan.east@);
    lemma_planned_near(map, coord, ChunkSide::South, m, n, plan.south@);
    lemma_planned_near(map, coord, ChunkSide::North, m, n, plan.north@);
}

/// Generates the chunk at `coord` from a fresh seed and files its description.
pub fn fill_procedural_chunk(
    map: &mut Hypermap<CellType>,
    style_floor_map: &mut Hypermap<TileStyle>,
    decoration_lamp_map: &mut Hypermap<LampDecoration>,
    coord: ChunkCoord,
    metadata: &mut ChunkGeneratorMetadata,
) -> (meta: Option<GeneratedChunkMetadata>)
    requires
        old(map).wf(),
        old(style_floor_map).wf(),
        old(decoration_lamp_map).wf(),
        i32::MIN < coord.x < i32::MAX,
        i32::MIN < coord.y < i32::MAX,
    ensures
        final(map).wf(),
        final(style_floor_map).wf(),
        final(decoration_lamp_map).wf(),
        exists|draft: MapDraft|
            #![trigger laid_out_for(draft, *old(map), coord)]
            {
                &&& laid_out_for(draft, *old(map), coord)
                &&& draft.size == 128
                &&& draft.margin == 2
                &&& match meta {
                    Some(meta) => {
                        &&& draft.all_have_doors()
                        &&& describes(meta, draft)
                        &&& maps_written(
                            draft,
                            coord,
                            *old(map),
                            *final(map),
                            *old(style_floor_map),
                            *final(style_floor_map),
                            *old(decoration_lamp_map),
                            *final(decoration_lamp_map),
                        )
                        &&& forall|c: ChunkCoord| #[trigger]
                            final(metadata).held(c) == if c == coord {
                                final(metadata).held(coord)
                            } else {
                                old(metadata).held(c)
                            }
                        &&& final(metadata).held(coord) matches Some(kept) && same_metadata(
                            kept,
                            meta,
                        )
                    },
                    None => !draft.all_have_doors() && *final(map) == *old(map) && *final(
                        style_floor_map) == *old(style_floor_map) && *final(decoration_lamp_map)
                        == *old(decoration_lamp_map) && *final(metadata) == *old(metadata),
                }
            },
{
    let config = MapGeneratorConfig { seed: random_rng_seed(), ..MapGeneratorConfig::default() };
    let start = MapDraft::new(config);
    let ghost empty = start;
    assert(fresh(empty, 128, 2));
    let ghost before = *map;
    let meta = start.run_into_chunk(
        map,
        style_floor_map,
        decoration_lamp_map,
        coord,
    );
    assert(forall|draft: MapDraft| #[trigger]
        laid_out_from(empty, draft, before, coord) && draft.size == 128 && draft.margin == 2
            ==> laid_out_for(draft, before, coord));
    if let Some(m) = &meta {
        metadata.insert(coord, copy_metadata(m));
    }
    meta
}

/// Builds one floor-0 chunk and returns level geometry text (`# floor 0` …).
pub fn generate_chunk_geometry(config: &MapGeneratorConfig) -> (text: String)
    requires
        config.valid(),
        2 * config.margin + 5 <= config.size <= 128,
    ensures
        exists|draft: MapDraft, chunk: HypermapChunk<CellType>|
            #![trigger draft.wf(), chunk.wf()]
            {
                &&& draft.wf()
                &&& chunk.wf()
                &&& draft.size == config.size
                &&& draft.margin == config.margin
                &&& exists|map: Hypermap<CellType>| #[trigger]
                    laid_out_for(draft, map, ChunkCoord { x: 0, y: 0 }) && forall|c: ChunkCoord|
                        !#[trigger] map.has(c)
                &&& forall|l: LocalCoord, f: int|
                    l.in_chunk() && floor_in_range(f) ==> if f == 0 && in_grid(
                        draft.size as int,
                        l.x as int,
                        l.y as int,
                    ) {
                        becomes(draft.tile(l.x as int, l.y as int), #[trigger] chunk.at(l, f))
                    } else {
                        chunk.at(l, f) == CellType::Void
                    }
                &&& text@ == floors_text(chunk, 10)
            },
{
    let map: Hypermap<CellType> = Hypermap::new(CellType::Void);
    let start = MapDraft::new(*config);
    let ghost empty = start;
    let draft = start.lay_out(&map, ChunkCoord::new(0, 0));
    assert(fresh(empty, draft.size as int, draft.margin as int));
    assert(laid_out_from(empty, draft, map, ChunkCoord { x: 0, y: 0 }));
    assert(laid_out_for(draft, map, ChunkCoord { x: 0, y: 0 }));
    let mut chunk: HypermapChunk<CellType> = HypermapChunk::new(&CellType::Void);
    draft.write_chunk_floor0(&mut chunk);
    let text = encode_chunk_geometry(&chunk);
    assert(draft.wf() && chunk.wf());
    text
}

/// One building generated to fill a chosen boundary rectangle (editor "House" tool).
///
/// `cells[z][x]` / `floor_styles[z][x]` are row-major over the boundary rectangle;
/// the caller offsets `(x, z)` by the boundary's min corner to reach world tiles.
#[derive(Debug)]
pub struct HouseToolTiles {
    pub width: i32,
    pub height: i32,
    pub cells: Vec<Vec<CellType>>,
    pub floor_styles: Vec<Vec<TileStyle>>,
}

/// Whether the grid has `height` rows of `width` values.
pub open spec fn is_rect<T>(grid: Vec<Vec<T>>, width: int, height: int) -> bool {
    grid@.len() == height && forall|z: int| 0 <= z < height ==> #[trigger] grid@[z]@.len() == width
}

/// The values of the rectangle that starts at (x0, z0).
fn cut_rect<T: Copy>(grid: &Vec<Vec<T>>, x0: i32, z0: i32, width: i32, height: i32) -> (out: Vec<
    Vec<T>,
>)
    requires
        is_square(*grid, grid@.len() as int),
        grid@.len() <= 46340,
        0 <= x0,
        0 <= z0,
        0 <= width,
        0 <= height,
        x0 + width <= grid@.len(),
        z0 + height <= grid@.len(),
    ensures
        is_rect(out, width as int, height as int),
        forall|x: int, z: int|
            0 <= x < width && 0 <= z < height ==> #[trigger] value_at(out, x, z) == value_at(
                *grid,
                x0 + x,
                z0 + z,
            ),
{
    let mut out: Vec<Vec<T>> = Vec::new();
    let mut z: i32 = 0;
    while z < height
        invariant
            is_square(*grid, grid@.len() as int),
            grid@.len() <= 46340,
            0 <= x0,
            0 <= z0,
            0 <= width,
            x0 + width <= grid@.len(),
            z0 + height <= grid@.len(),
            0 <= z <= height,
            out@.len() == z,
            forall|k: int| 0 <= k < z ==> #[trigger] out@[k]@.len() == width,
            forall|x: int, k: int|
                0 <= x < width && 0 <= k < z ==> #[trigger] value_at(out, x, k) == value_at(
                    *grid,
                    x0 + x,
                    z0 + k,
                ),
        decreases height - z,
    {
        let mut row: Vec<T> = Vec::new();
        let mut x: i32 = 0;
        while x < width
            invariant
                is_square(*grid, grid@.len() as int),
                grid@.len() <= 46340,
                0 <= x0,
                0 <= z0,
                0 <= z < height,
                x0 + width <= grid@.len(),
                z0 + height <= grid@.len(),
                0 <= x <= width,
                row@.len() == x,
                forall|k: int|
                    0 <= k < x ==> #[trigger] row@[k] == value_at(*grid, x0 + k, z0 + z),
            decreases width - x,
        {
            row.push(read(grid, x0 + x, z0 + z));
            x += 1;
        }
        let ghost before = out;
        out.push(row);
        proof {
            assert forall|u: int, k: int| 0 <= u < width && 0 <= k < z + 1 implies #[trigger] value_at(
                out,
                u,
                k,
            ) == value_at(*grid, x0 + u, z0 + k) by {
                if k < z {
                    assert(value_at(before, u, k) == value_at(*grid, x0 + u, z0 + k));
                } else {
                    assert(row@[u] == value_at(*grid, x0 + u, z0 + z));
                }
            }
        }
        z += 1;
    }
    out
}

/// Whether the draft is open ground with one house of the given size, four tiles from the
/// north and west edges and at least as many from the others.
pub open spec fn on_open_ground(draft: MapDraft, width: int, height: int) -> bool {
    let n = 8 + if width > height {
        width
    } else {
        height
    };
    &&& draft.wf()
    &&& draft.size == n
    &&& forall|x: int, z: int| in_grid(n, x, z) ==> #[trigger] draft.tile(x, z) == DraftTile::Open
    &&& forall|x: int, z: int|
        in_grid(n, x, z) ==> #[trigger] draft.style(x, z) == TileStyle::Regular
    &&& forall|x: int, z: int|
        in_grid(n, x, z) ==> #[trigger] draft.lamp(x, z) == LampDecoration::Bare
    &&& draft.houses@.len() == 1
    &&& draft.houses@[0].rects@ == seq![
        Room { x0: 4, z0: 4, x1: (3 + width) as i32, z1: (3 + height) as i32 },
    ]
    &&& draft.houses@[0].footprint_area == width * height
    &&& draft.houses@[0].entry is None
    &&& draft.houses@[0].entry2 is None
}

/// Generates a single building filling a `width × height` boundary using the same
/// steps as the procedural generator (outer shell, door, inner rooms/doors, floor
/// waves, charger). Returns `None` when either side is below [`MIN_HOUSE_TOOL_SIDE`].
///
/// The result spans exactly the boundary rectangle, without void; the surrounding road
/// context the generator needs for door placement is internal padding and is not returned.
pub fn generate_house_tiles(width: i32, height: i32, seed: u64) -> (tiles: Option<HouseToolTiles>)
    requires
        width <= 46332,
        height <= 46332,
    ensures
        match tiles {
            Some(tiles) => {
                &&& width >= 10
                &&& height >= 10
                &&& tiles.width == width
                &&& tiles.height == height
                &&& is_rect(tiles.cells, width as int, height as int)
                &&& is_rect(tiles.floor_styles, width as int, height as int)
                &&& forall|x: int, z: int|
                    0 <= x < width && 0 <= z < height ==> #[trigger] value_at(tiles.cells, x, z)
                        != CellType::Void
                &&& exists|start: MapDraft, draft: MapDraft|
                    #![trigger built(start, draft)]
                    {
                        &&& on_open_ground(start, width as int, height as int)
                        &&& built(start, draft)
                        &&& forall|x: int, z: int|
                            0 <= x < width && 0 <= z < height ==> becomes(
                                draft.tile(4 + x, 4 + z),
                                #[trigger] value_at(tiles.cells, x, z),
                            )
                        &&& forall|x: int, z: int|
                            0 <= x < width && 0 <= z < height ==> #[trigger] value_at(
                                tiles.floor_styles,
                                x,
                                z,
                            ) == draft.style(4 + x, 4 + z)
                    }
            },
            None => width < 10 || height < 10,
        },
{
    if width < MIN_HOUSE_TOOL_SIDE || height < MIN_HOUSE_TOOL_SIDE {
        return None;
    }
    let pad: i32 = HOUSE_TOOL_PAD;
    let longer: i32 = if width > height { width } else { height };
    let size: i32 = longer + pad * 2;
    let mut draft = MapDraft::new(MapGeneratorConfig { size, margin: CHUNK_VOID_MARGIN, seed });
    let ghost empty = draft;
    // Surround the footprint with open road so doors find exterior road on any side.
    fill_rect(&mut draft.cells, 0, 0, size, size, DraftTile::Open);
    let rect = Room { x0: pad, z0: pad, x1: pad + width - 1, z1: pad + height - 1 };
    let mut houses: Vec<House> = Vec::new();
    houses.push(House::from_single_rect(rect));
    draft.houses = houses;
    let ghost start = draft;
    let ghost before = draft.houses@;
    proof {
        let w = rect.x1 - rect.x0 + 1;
        let h = rect.z1 - rect.z0 + 1;
        assert(w * h >= 0) by (nonlinear_arith)
            requires
                w >= 0,
                h >= 0,
        ;
        assert(house_fits(draft.houses@[0], size as int));
        assert forall|x: int, z: int| in_grid(size as int, x, z) implies #[trigger] start.tile(x, z)
            == DraftTile::Open by {
            assert(start.tile(x, z) == tile_at(start.cells, x, z));
        }
        assert(start.wf());
        assert(w == width && h == height);
        assert(start.houses@[0].footprint_area == width * height);
        assert forall|x: int, z: int| in_grid(size as int, x, z) implies #[trigger] start.style(
            x,
            z,
        ) == TileStyle::Regular by {
            assert(start.style(x, z) == empty.style(x, z));
        }
        assert forall|x: int, z: int| in_grid(size as int, x, z) implies #[trigger] start.lamp(x, z)
            == LampDecoration::Bare by {
            assert(start.lamp(x, z) == empty.lamp(x, z));
        }
        assert(on_open_ground(start, width as int, height as int));
        assert forall|x: int, z: int| rect.has(x, z) implies #[trigger] footprint(before, x, z) by {
            lemma_rects_of(before, before.len(), x, z);
            assert(before[0].rects@[0].has(x, z));
            assert(before[0].has(x, z));
        }
    }
    draft.build_house_structures();
    let cells = draft.finish();
    let out_cells = cut_rect(&cells, pad, pad, width, height);
    let out_styles = cut_rect(&draft.floor_styles, pad, pad, width, height);
    proof {
        assert(built(start, draft));
        assert forall|x: int, z: int| 0 <= x < width && 0 <= z < height implies #[trigger] value_at(
            out_cells,
            x,
            z,
        ) != CellType::Void by {
            assert(rect.has(pad + x, pad + z));
            assert(footprint(before, pad + x, pad + z));
            assert(!(draft.tile(pad + x, pad + z) is Void));
            assert(becomes(draft.tile(pad + x, pad + z), value_at(cells, pad + x, pad + z)));
        }
    }
    Some(HouseToolTiles { width, height, cells: out_cells, floor_styles: out_styles })
}

} // verus!
