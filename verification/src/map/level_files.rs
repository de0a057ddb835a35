//! Names and contents of a level's files.
//!
//! Everything here is computed; reading and writing the files is the application's part.

use vstd::prelude::*;
use vstd::string::*;

use crate::map::hypermap::{
    floor_in_range, ChunkCoord, Hypermap, HypermapChunk, LocalCoord, HYPERMAP_CHUNK_SIZE,
};
use crate::map::level::{encode_chunk_geometry, encode_chunk_style, floors_text, LayerCell};
use crate::map::world_map::{CellType, TileStyle};
use crate::text::{
    chars_of, decimal, decimal_nat, decimal_reads_back, digits_value, leading_zeros_do_not_count,
    push_decimal, push_unsigned,
};

verus! {

/// Active level folder name under `levels/level_{name}/`.
#[derive(Debug)]
pub struct LevelName(pub String);

impl Default for LevelName {
    fn default() -> (name: Self)
        ensures
            name.0@ == "default"@,
    {
        LevelName("default".to_owned())
    }
}

/// `levels/level_{name}/{layer}`.
pub open spec fn layer_dir(level_name: Seq<char>, layer: Seq<char>) -> Seq<char> {
    "levels/level_"@ + level_name + "/"@ + layer
}

/// `{dir}/{x}_{y}{suffix}`.
pub open spec fn chunk_file(dir: Seq<char>, coord: ChunkCoord, suffix: Seq<char>) -> Seq<char> {
    dir + "/"@ + decimal(coord.x as int) + "_"@ + decimal(coord.y as int) + suffix
}

pub(crate) fn make_layer_dir(level_name: &str, layer: &str) -> (dir: String)
    ensures
        dir@ == layer_dir(level_name@, layer@),
{
    let mut dir = "levels/level_".to_owned();
    dir.append(level_name);
    dir.append("/");
    dir.append(layer);
    dir
}

pub(crate) fn make_chunk_file(dir: String, coord: ChunkCoord, suffix: &str) -> (path: String)
    ensures
        path@ == chunk_file(dir@, coord, suffix@),
{
    let mut path = dir;
    path.append("/");
    push_decimal(&mut path, coord.x);
    path.append("_");
    push_decimal(&mut path, coord.y);
    path.append(suffix);
    path
}

pub fn geometry_dir(level_name: &str) -> (dir: String)
    ensures
        dir@ == layer_dir(level_name@, "geometry"@),
{
    make_layer_dir(level_name, "geometry")
}

pub fn chunk_geometry_path(level_name: &str, coord: ChunkCoord) -> (path: String)
    ensures
        path@ == chunk_file(layer_dir(level_name@, "geometry"@), coord, ".txt"@),
{
    make_chunk_file(geometry_dir(level_name), coord, ".txt")
}

pub fn style_floor_dir(level_name: &str) -> (dir: String)
    ensures
        dir@ == layer_dir(level_name@, "style_floor"@),
{
    make_layer_dir(level_name, "style_floor")
}

pub fn style_wall_dir(level_name: &str) -> (dir: String)
    ensures
        dir@ == layer_dir(level_name@, "style_wall"@),
{
    make_layer_dir(level_name, "style_wall")
}

pub fn chunk_style_floor_path(level_name: &str, coord: ChunkCoord) -> (path: String)
    ensures
        path@ == chunk_file(layer_dir(level_name@, "style_floor"@), coord, ".txt"@),
{
    make_chunk_file(style_floor_dir(level_name), coord, ".txt")
}

pub fn chunk_style_wall_path(level_name: &str, coord: ChunkCoord) -> (path: String)
    ensures
        path@ == chunk_file(layer_dir(level_name@, "style_wall"@), coord, ".txt"@),
{
    make_chunk_file(style_wall_dir(level_name), coord, ".txt")
}

/// The files that saving the first `n` coordinates writes: path and text of every chunk
/// that the map holds, but for empty texts where those are skipped.
pub open spec fn files_of<C: LayerCell>(
    dir: Seq<char>,
    map: Hypermap<C>,
    coords: Seq<ChunkCoord>,
    skip_empty: bool,
    n: nat,
) -> Seq<(Seq<char>, Seq<char>)>
    decreases n,
{
    if n == 0 {
        seq![]
    } else {
        let before = files_of(dir, map, coords, skip_empty, (n - 1) as nat);
        let coord = coords[n - 1];
        let text = floors_text(map.chunk(coord), 10);
        if !map.has(coord) || (skip_empty && text.len() == 0) {
            before
        } else {
            before.push((chunk_file(dir, coord, ".txt"@), text))
        }
    }
}

/// Paths and texts as sequences.
pub open spec fn files_view(files: Seq<(String, String)>) -> Seq<(Seq<char>, Seq<char>)> {
    files.map_values(|f: (String, String)| (f.0@, f.1@))
}

proof fn lemma_files_push(files: Seq<(String, String)>, file: (String, String))
    ensures
        files_view(files.push(file)) == files_view(files).push((file.0@, file.1@)),
{
    assert(files_view(files.push(file)) =~= files_view(files).push((file.0@, file.1@)));
}

/// Geometry files of the given chunk coordinates (skips coordinates with no loaded chunk).
pub fn level_geometry_files(
    level_name: &str,
    map: &Hypermap<CellType>,
    coords: &Vec<ChunkCoord>,
) -> (files: Vec<(String, String)>)
    requires
        map.wf(),
    ensures
        files_view(files@) == files_of(
            layer_dir(level_name@, "geometry"@),
            *map,
            coords@,
            false,
            coords@.len(),
        ),
{
    let mut files: Vec<(String, String)> = Vec::new();
    assert(files_view(files@) =~= seq![]);
    let mut i: usize = 0;
    while i < coords.len()
        invariant
            map.wf(),
            i <= coords@.len(),
            files_view(files@) == files_of(
                layer_dir(level_name@, "geometry"@),
                *map,
                coords@,
                false,
                i as nat,
            ),
        decreases coords@.len() - i,
    {
        let coord: ChunkCoord = coords[i];
        match map.get_chunk(coord) {
            Some(chunk) => {
                let file = (chunk_geometry_path(level_name, coord), encode_chunk_geometry(chunk));
                proof {
                    lemma_files_push(files@, file);
                }
                files.push(file);
            },
            None => {},
        }
        i += 1;
    }
    files
}

/// Geometry files of every chunk in memory.
pub fn all_level_geometry_files(level_name: &str, map: &Hypermap<CellType>) -> (files: Vec<
    (String, String),
>)
    requires
        map.wf(),
    ensures
        files_view(files@) == files_of(
            layer_dir(level_name@, "geometry"@),
            *map,
            map.loaded_coords(),
            false,
            map.loaded_coords().len(),
        ),
{
    level_geometry_files(level_name, map, &map.loaded_chunks())
}

fn style_files(
    level_name: &str,
    layer: &str,
    map: &Hypermap<TileStyle>,
    coords: &Vec<ChunkCoord>,
) -> (files: Vec<(String, String)>)
    requires
        map.wf(),
    ensures
        files_view(files@) == files_of(
            layer_dir(level_name@, layer@),
            *map,
            coords@,
            true,
            coords@.len(),
        ),
{
    let mut files: Vec<(String, String)> = Vec::new();
    assert(files_view(files@) =~= seq![]);
    let mut i: usize = 0;
    while i < coords.len()
        invariant
            map.wf(),
            i <= coords@.len(),
            files_view(files@) == files_of(
                layer_dir(level_name@, layer@),
                *map,
                coords@,
                true,
                i as nat,
            ),
        decreases coords@.len() - i,
    {
        let coord: ChunkCoord = coords[i];
        match map.get_chunk(coord) {
            Some(chunk) => {
                let text = encode_chunk_style(chunk);
                if !text.as_str().is_empty() {
                    let path = make_chunk_file(make_layer_dir(level_name, layer), coord, ".txt");
                    proof {
                        lemma_files_push(files@, (path, text));
                    }
                    files.push((path, text));
                }
            },
            None => {},
        }
        i += 1;
    }
    files
}

/// Floor style files of the given chunk coordinates; chunks of default style have none.
pub fn level_floor_style_files(
    level_name: &str,
    map: &Hypermap<TileStyle>,
    coords: &Vec<ChunkCoord>,
) -> (files: Vec<(String, String)>)
    requires
        map.wf(),
    ensures
        files_view(files@) == files_of(
            layer_dir(level_name@, "style_floor"@),
            *map,
            coords@,
            true,
            coords@.len(),
        ),
{
    style_files(level_name, "style_floor", map, coords)
}

/// Wall style files of the given chunk coordinates; chunks of default style have none.
pub fn level_wall_style_files(
    level_name: &str,
    map: &Hypermap<TileStyle>,
    coords: &Vec<ChunkCoord>,
) -> (files: Vec<(String, String)>)
    requires
        map.wf(),
    ensures
        files_view(files@) == files_of(
            layer_dir(level_name@, "style_wall"@),
            *map,
            coords@,
            true,
            coords@.len(),
        ),
{
    style_files(level_name, "style_wall", map, coords)
}

/// The origin chunk of a new level: floor `0` is entirely road, all upper floors are void.
pub fn road_origin_chunk() -> (chunk: HypermapChunk<CellType>)
    ensures
        chunk.wf(),
        forall|l: LocalCoord, f: int|
            l.in_chunk() && floor_in_range(f) ==> #[trigger] chunk.at(l, f) == if f == 0 {
                CellType::Road
            } else {
                CellType::Void
            },
{
    let mut chunk = HypermapChunk::new(&CellType::Void);
    let mut y: i32 = 0;
    while y < HYPERMAP_CHUNK_SIZE
        invariant
            chunk.wf(),
            0 <= y <= 128,
            forall|l: LocalCoord, f: int|
                l.in_chunk() && floor_in_range(f) ==> #[trigger] chunk.at(l, f) == if f == 0 && l.y
                    < y {
                    CellType::Road
                } else {
                    CellType::Void
                },
        decreases 128 - y,
    {
        let mut x: i32 = 0;
        while x < HYPERMAP_CHUNK_SIZE
            invariant
                chunk.wf(),
                0 <= y < 128,
                0 <= x <= 128,
                forall|l: LocalCoord, f: int|
                    l.in_chunk() && floor_in_range(f) ==> #[trigger] chunk.at(l, f) == if f == 0
                        && (l.y < y || (l.y == y && l.x < x)) {
                        CellType::Road
                    } else {
                        CellType::Void
                    },
            decreases 128 - x,
        {
            chunk.set_local(LocalCoord::new(x, y), CellType::Road);
            x += 1;
        }
        y += 1;
    }
    chunk
}

/// The file that a new level starts with.
pub fn new_level_origin_file(level_name: &str) -> (file: (String, String))
    ensures
        file.0@ == chunk_file(
            layer_dir(level_name@, "geometry"@),
            ChunkCoord { x: 0, y: 0 },
            ".txt"@,
        ),
        exists|chunk: HypermapChunk<CellType>|
            file.1@ == #[trigger] floors_text(chunk, 10) && forall|l: LocalCoord, f: int|
                l.in_chunk() && floor_in_range(f) ==> #[trigger] chunk.at(l, f) == if f == 0 {
                    CellType::Road
                } else {
                    CellType::Void
                },
{
    let chunk = road_origin_chunk();
    let text = encode_chunk_geometry(&chunk);
    (chunk_geometry_path(level_name, ChunkCoord::new(0, 0)), text)
}

/// ASCII letters in lower case, everything else unchanged.
pub open spec fn lower(c: char) -> char {
    if 'A' <= c && c <= 'Z' {
        ((c as int) + 32) as char
    } else {
        c
    }
}

pub open spec fn lower_all(s: Seq<char>) -> Seq<char> {
    s.map_values(|c: char| lower(c))
}

/// `new_{n}`, the number padded to three digits.
pub open spec fn new_name(n: nat) -> Seq<char> {
    "new_"@ + (if n < 10 {
        "00"@
    } else if n < 100 {
        "0"@
    } else {
        ""@
    }) + decimal_nat(n)
}

/// Whether one of the names is `new_{n}` up to ASCII case.
pub open spec fn name_taken(existing: Seq<String>, n: nat) -> bool {
    exists|i: int| 0 <= i < existing.len() && lower_all((#[trigger] existing[i])@) == new_name(n)
}

proof fn lemma_new_name_value(n: nat)
    ensures
        new_name(n).len() >= 4,
        digits_value(new_name(n).skip(4)) == Some(n as int),
{
    reveal_strlit("new_");
    reveal_strlit("00");
    reveal_strlit("0");
    reveal_strlit("");
    decimal_reads_back(n);
    let zeros = if n < 10 {
        "00"@
    } else if n < 100 {
        "0"@
    } else {
        ""@
    };
    leading_zeros_do_not_count(zeros, decimal_nat(n));
    assert(new_name(n).skip(4) =~= zeros + decimal_nat(n));
}

/// Were all of `new_1` to `new_k` taken, there would be at least `k` names.
proof fn lemma_names_run_out(existing: Seq<String>, k: nat)
    requires
        forall|m: nat| 1 <= m <= k ==> #[trigger] name_taken(existing, m),
    ensures
        k <= existing.len(),
{
    let owner = Seq::new(
        k,
        |j: int|
            choose|i: int|
                0 <= i < existing.len() && lower_all((#[trigger] existing[i])@) == new_name(
                    (j + 1) as nat,
                ),
    );
    assert forall|j: int| 0 <= j < k implies 0 <= #[trigger] owner[j] < existing.len()
        && lower_all(existing[owner[j]]@) == new_name((j + 1) as nat) by {
        assert(name_taken(existing, (j + 1) as nat));
    }
    assert(owner.no_duplicates()) by {
        assert forall|a: int, b: int| 0 <= a < k && 0 <= b < k && a != b implies owner[a]
            != owner[b] by {
            lemma_new_name_value((a + 1) as nat);
            lemma_new_name_value((b + 1) as nat);
        }
    }
    let all = vstd::set_lib::set_int_range(0, existing.len() as int);
    vstd::set_lib::lemma_int_range(0, existing.len() as int);
    owner.unique_seq_to_set();
    assert(owner.to_set().subset_of(all)) by {
        assert forall|x: int| owner.to_set().contains(x) implies all.contains(x) by {
            let j = choose|j: int| 0 <= j < owner.len() && owner[j] == x;
            assert(0 <= owner[j] < existing.len());
        }
    }
    vstd::set_lib::lemma_len_subset(owner.to_set(), all);
}

fn lower_char(c: char) -> (low: char)
    ensures
        low == lower(c),
{
    if 'A' <= c && c <= 'Z' {
        (c as u8 + 32) as char
    } else {
        c
    }
}

fn matches_lowered(name: &String, candidate: &Vec<char>) -> (same: bool)
    ensures
        same == (lower_all(name@) == candidate@),
{
    let chars: Vec<char> = chars_of(name.as_str());
    if chars.len() != candidate.len() {
        assert(lower_all(name@).len() == chars@.len());
        return false;
    }
    let mut i: usize = 0;
    while i < chars.len()
        invariant
            chars@ == name@,
            i <= chars@.len(),
            chars@.len() == candidate@.len(),
            forall|k: int| 0 <= k < i ==> lower_all(name@)[k] == candidate@[k],
        decreases chars@.len() - i,
    {
        if lower_char(chars[i]) != candidate[i] {
            assert(lower_all(name@)[i as int] != candidate@[i as int]);
            return false;
        }
        i += 1;
    }
    assert(lower_all(name@) =~= candidate@);
    true
}

fn is_name_taken(existing: &Vec<String>, n: u32, candidate: &String) -> (taken: bool)
    requires
        candidate@ == new_name(n as nat),
    ensures
        taken == name_taken(existing@, n as nat),
{
    let chars: Vec<char> = chars_of(candidate.as_str());
    let mut i: usize = 0;
    while i < existing.len()
        invariant
            chars@ == new_name(n as nat),
            i <= existing@.len(),
            forall|k: int| 0 <= k < i ==> lower_all((#[trigger] existing@[k])@) != new_name(n as nat),
        decreases existing@.len() - i,
    {
        if matches_lowered(&existing[i], &chars) {
            assert(lower_all(existing@[i as int]@) == new_name(n as nat));
            return true;
        }
        i += 1;
    }
    false
}

fn make_new_name(n: u32) -> (name: String)
    ensures
        name@ == new_name(n as nat),
{
    proof {
        reveal_strlit("");
    }
    let mut name = "new_".to_owned();
    if n < 10 {
        name.append("00");
    } else if n < 100 {
        name.append("0");
    } else {
        assert(name@ =~= "new_"@ + ""@);
    }
    push_unsigned(&mut name, n);
    name
}

/// Picks the next free `new_N` level name not already in `existing` (case-insensitive):
/// the one with the least number.
pub fn pick_new_level_name(existing: &Vec<String>) -> (name: String)
    requires
        existing@.len() < u32::MAX,
    ensures
        exists|n: nat|
            n >= 1 && name@ == new_name(n) && !#[trigger] name_taken(existing@, n) && forall|m: nat|
                1 <= m < n ==> #[trigger] name_taken(existing@, m),
{
    let mut n: u32 = 1;
    loop
        invariant
            n >= 1,
            existing@.len() < u32::MAX,
            forall|m: nat| 1 <= m < n ==> #[trigger] name_taken(existing@, m),
        decreases u32::MAX - n,
    {
        let candidate = make_new_name(n);
        if !is_name_taken(existing, n, &candidate) {
            return candidate;
        }
        proof {
            lemma_names_run_out(existing@, n as nat);
        }
        n += 1;
    }
}

} // verus!
