//! Cell and style vocabulary of the world, its two-character tokens, and finite
//! text floors.

pub use crate::map::world_map_floor::{MapParseError, PathMarkers, WorldMapFloor};
use vstd::prelude::*;
use vstd::string::*;

verus! {

/// Wall slab on the north edge of a cell (towards smaller `z`).
pub const MASK_NORTH: u8 = 1;

/// Wall slab on the south edge of a cell.
pub const MASK_SOUTH: u8 = 2;

/// Wall slab on the east edge of a cell (towards larger `x`).
pub const MASK_EAST: u8 = 4;

/// Wall slab on the west edge of a cell.
pub const MASK_WEST: u8 = 8;

/// Whether `bits` names at least one edge and nothing else.
pub open spec fn valid_mask(bits: u8) -> bool {
    1 <= bits <= 15
}

/// Non-empty set of cell edges that carry wall slabs.
#[derive(Debug, Clone, Copy, PartialEq, Eq, Structural, Hash)]
pub struct WallMask {
    bits: u8,
}

impl WallMask {
    /// The edges as a bit set.
    pub closed spec fn edges(self) -> u8 {
        self.bits
    }

    #[verifier::type_invariant]
    spec fn named(self) -> bool {
        valid_mask(self.bits)
    }

    /// A mask is determined by its edges.
    pub broadcast proof fn equal_by_edges(a: WallMask, b: WallMask)
        ensures
            #[trigger] a.edges() == #[trigger] b.edges() ==> a == b,
    {
    }

    pub fn from_bits(bits: u8) -> (mask: Option<WallMask>)
        ensures
            match mask {
                Some(m) => valid_mask(bits) && m.edges() == bits,
                None => !valid_mask(bits),
            },
    {
        if bits == 0 || bits > 15 {
            None
        } else {
            Some(WallMask { bits })
        }
    }

    pub fn bits(&self) -> (bits: u8)
        ensures
            bits == self.edges(),
            valid_mask(bits),
    {
        proof {
            use_type_invariant(self);
        }
        self.bits
    }
}

/// Corner of a cell in which a pillar stands.
#[derive(Debug, Clone, Copy, PartialEq, Eq, Structural, Hash)]
pub enum WallCorner {
    Nw,
    Ne,
    Sw,
    Se,
}

/// The wall that the back of a charging station or depot faces.
#[derive(Debug, Clone, Copy, PartialEq, Eq, Structural, Hash)]
pub enum ChargerFacing {
    North,
    South,
    East,
    West,
}

impl ChargerFacing {
    /// Offset from the cell to its backing wall.
    pub open spec fn delta(self) -> (int, int) {
        match self {
            ChargerFacing::North => (0, -1),
            ChargerFacing::South => (0, 1),
            ChargerFacing::East => (1, 0),
            ChargerFacing::West => (-1, 0),
        }
    }

    pub fn wall_delta(&self) -> (delta: (i32, i32))
        ensures
            delta.0 == self.delta().0,
            delta.1 == self.delta().1,
    {
        match self {
            ChargerFacing::North => (0, -1),
            ChargerFacing::South => (0, 1),
            ChargerFacing::East => (1, 0),
            ChargerFacing::West => (-1, 0),
        }
    }
}

/// One world cell.
#[derive(Debug, Clone, Copy, PartialEq, Eq, Structural, Hash)]
pub enum CellType {
    Void,
    Road,
    Wall(WallMask),
    Corner(WallCorner),
    Charger(ChargerFacing),
    PartsDepot(ChargerFacing),
}

/// Static passability of a cell: plain road and the walkable stations on it.
pub open spec fn passable(cell: CellType) -> bool {
    cell is Road || cell is Charger || cell is PartsDepot
}

pub fn cell_passability(cell: CellType) -> (open: bool)
    ensures
        open == passable(cell),
{
    matches!(cell, CellType::Road | CellType::Charger(_) | CellType::PartsDepot(_))
}

/// Direction that a lamp looks in.
#[derive(Debug, Clone, Copy, PartialEq, Eq, Structural, Hash)]
pub enum LampFacing {
    North,
    South,
    East,
    West,
}

/// Lamp on a cell: none, a sconce on an inner wall, or one on the outside of a wall.
#[derive(Debug, Clone, Copy, PartialEq, Eq, Structural, Hash)]
pub enum LampDecoration {
    Bare,
    Lamp(LampFacing),
    LampOuter(LampFacing),
}

/// Material of a floor quad or of a wall slab.
#[derive(Debug, Clone, Copy, PartialEq, Eq, Structural, Hash)]
pub enum TileStyle {
    Regular,
    FloorGlass,
    FloorPavement,
    FloorMarble,
    WallGlass,
}

impl TileStyle {
    pub const DEFAULT: TileStyle = TileStyle::Regular;

    pub const FLOOR_GLASS: TileStyle = TileStyle::FloorGlass;

    pub const FLOOR_PAVEMENT: TileStyle = TileStyle::FloorPavement;

    pub const FLOOR_MARBLE: TileStyle = TileStyle::FloorMarble;

    pub const WALL_GLASS: TileStyle = TileStyle::WallGlass;

    /// The style's token.
    pub open spec fn chars(self) -> Seq<char> {
        match self {
            TileStyle::Regular => seq!['.', '.'],
            TileStyle::FloorGlass => seq!['f', 'g'],
            TileStyle::FloorPavement => seq!['f', 'p'],
            TileStyle::FloorMarble => seq!['f', 'm'],
            TileStyle::WallGlass => seq!['w', 'g'],
        }
    }

    pub fn as_str(&self) -> (token: &'static str)
        ensures
            token@ == self.chars(),
    {
        proof {
            reveal_strlit("..");
            reveal_strlit("fg");
            reveal_strlit("fp");
            reveal_strlit("fm");
            reveal_strlit("wg");
        }
        let token = match self {
            TileStyle::Regular => "..",
            TileStyle::FloorGlass => "fg",
            TileStyle::FloorPavement => "fp",
            TileStyle::FloorMarble => "fm",
            TileStyle::WallGlass => "wg",
        };
        assert(token@ =~= self.chars());
        token
    }
}

/// Second token character of a wall: one letter per set of edges.
pub open spec fn mask_char(bits: u8) -> char {
    if bits == 1 {
        'n'
    } else if bits == 2 {
        's'
    } else if bits == 3 {
        'h'
    } else if bits == 4 {
        'e'
    } else if bits == 5 {
        'a'
    } else if bits == 6 {
        'c'
    } else if bits == 7 {
        'i'
    } else if bits == 8 {
        'w'
    } else if bits == 9 {
        'b'
    } else if bits == 10 {
        'd'
    } else if bits == 11 {
        'j'
    } else if bits == 12 {
        'v'
    } else if bits == 13 {
        'k'
    } else if bits == 14 {
        'l'
    } else {
        'o'
    }
}

/// The edges that a wall letter stands for; no edges for any other character.
pub open spec fn mask_of_char(c: char) -> u8 {
    if c == 'n' {
        1
    } else if c == 's' {
        2
    } else if c == 'h' {
        3
    } else if c == 'e' {
        4
    } else if c == 'a' {
        5
    } else if c == 'c' {
        6
    } else if c == 'i' {
        7
    } else if c == 'w' {
        8
    } else if c == 'b' {
        9
    } else if c == 'd' {
        10
    } else if c == 'j' {
        11
    } else if c == 'v' {
        12
    } else if c == 'k' {
        13
    } else if c == 'l' {
        14
    } else if c == 'o' {
        15
    } else {
        0
    }
}

pub open spec fn facing_char(facing: ChargerFacing) -> char {
    match facing {
        ChargerFacing::North => 'n',
        ChargerFacing::South => 's',
        ChargerFacing::East => 'e',
        ChargerFacing::West => 'w',
    }
}

pub open spec fn facing_of_char(c: char) -> Option<ChargerFacing> {
    if c == 'n' {
        Some(ChargerFacing::North)
    } else if c == 's' {
        Some(ChargerFacing::South)
    } else if c == 'e' {
        Some(ChargerFacing::East)
    } else if c == 'w' {
        Some(ChargerFacing::West)
    } else {
        None
    }
}

/// The two characters that stand for a cell.
pub open spec fn cell_chars(cell: CellType) -> Seq<char> {
    match cell {
        CellType::Void => seq!['.', '.'],
        CellType::Road => seq!['_', '_'],
        CellType::Wall(mask) => seq!['w', mask_char(mask.edges())],
        CellType::Corner(WallCorner::Nw) => seq!['c', '1'],
        CellType::Corner(WallCorner::Ne) => seq!['c', '2'],
        CellType::Corner(WallCorner::Sw) => seq!['c', '3'],
        CellType::Corner(WallCorner::Se) => seq!['c', '4'],
        CellType::Charger(facing) => seq!['p', facing_char(facing)],
        CellType::PartsDepot(facing) => seq!['d', facing_char(facing)],
    }
}

/// Whether the token `ab` stands for `cell`.
pub open spec fn reads_as(a: char, b: char, cell: CellType) -> bool {
    a == cell_chars(cell)[0] && b == cell_chars(cell)[1] && match cell {
        CellType::Wall(mask) => valid_mask(mask.edges()),
        _ => true,
    }
}

/// No token stands for two cells.
pub proof fn cell_tokens_are_unambiguous(a: char, b: char, c: CellType, d: CellType)
    requires
        reads_as(a, b, c),
        reads_as(a, b, d),
    ensures
        c == d,
{
    if let CellType::Wall(m) = c {
        if let CellType::Wall(n) = d {
            assert(m.edges() == n.edges());
            WallMask::equal_by_edges(m, n);
        }
    }
}

fn wall_token(bits: u8) -> (token: &'static str)
    requires
        valid_mask(bits),
    ensures
        token@ == seq!['w', mask_char(bits)],
{
    proof {
        reveal_strlit("wn");
        reveal_strlit("ws");
        reveal_strlit("wh");
        reveal_strlit("we");
        reveal_strlit("wa");
        reveal_strlit("wc");
        reveal_strlit("wi");
        reveal_strlit("ww");
        reveal_strlit("wb");
        reveal_strlit("wd");
        reveal_strlit("wj");
        reveal_strlit("wv");
        reveal_strlit("wk");
        reveal_strlit("wl");
        reveal_strlit("wo");
    }
    let token = if bits == 1 {
        "wn"
    } else if bits == 2 {
        "ws"
    } else if bits == 3 {
        "wh"
    } else if bits == 4 {
        "we"
    } else if bits == 5 {
        "wa"
    } else if bits == 6 {
        "wc"
    } else if bits == 7 {
        "wi"
    } else if bits == 8 {
        "ww"
    } else if bits == 9 {
        "wb"
    } else if bits == 10 {
        "wd"
    } else if bits == 11 {
        "wj"
    } else if bits == 12 {
        "wv"
    } else if bits == 13 {
        "wk"
    } else if bits == 14 {
        "wl"
    } else {
        "wo"
    };
    assert(token@ =~= seq!['w', mask_char(bits)]);
    token
}

/// Two-character token of a cell.
pub fn cell_to_token(cell: CellType) -> (token: &'static str)
    ensures
        token@ == cell_chars(cell),
        reads_as(token@[0], token@[1], cell),
{
    proof {
        reveal_strlit("..");
        reveal_strlit("__");
        reveal_strlit("c1");
        reveal_strlit("c2");
        reveal_strlit("c3");
        reveal_strlit("c4");
        reveal_strlit("pn");
        reveal_strlit("ps");
        reveal_strlit("pe");
        reveal_strlit("pw");
        reveal_strlit("dn");
        reveal_strlit("ds");
        reveal_strlit("de");
        reveal_strlit("dw");
    }
    let token = match cell {
        CellType::Void => "..",
        CellType::Road => "__",
        CellType::Wall(mask) => wall_token(mask.bits()),
        CellType::Corner(WallCorner::Nw) => "c1",
        CellType::Corner(WallCorner::Ne) => "c2",
        CellType::Corner(WallCorner::Sw) => "c3",
        CellType::Corner(WallCorner::Se) => "c4",
        CellType::Charger(ChargerFacing::North) => "pn",
        CellType::Charger(ChargerFacing::South) => "ps",
        CellType::Charger(ChargerFacing::East) => "pe",
        CellType::Charger(ChargerFacing::West) => "pw",
        CellType::PartsDepot(ChargerFacing::North) => "dn",
        CellType::PartsDepot(ChargerFacing::South) => "ds",
        CellType::PartsDepot(ChargerFacing::East) => "de",
        CellType::PartsDepot(ChargerFacing::West) => "dw",
    };
    assert(token@ =~= cell_chars(cell));
    token
}

fn mask_from_char(c: char) -> (bits: u8)
    ensures
        bits == mask_of_char(c),
        bits <= 15,
        bits != 0 ==> mask_char(bits) == c,
        forall|other: u8| valid_mask(other) && mask_char(other) == c ==> other == bits,
{
    if c == 'n' {
        1
    } else if c == 's' {
        2
    } else if c == 'h' {
        3
    } else if c == 'e' {
        4
    } else if c == 'a' {
        5
    } else if c == 'c' {
        6
    } else if c == 'i' {
        7
    } else if c == 'w' {
        8
    } else if c == 'b' {
        9
    } else if c == 'd' {
        10
    } else if c == 'j' {
        11
    } else if c == 'v' {
        12
    } else if c == 'k' {
        13
    } else if c == 'l' {
        14
    } else if c == 'o' {
        15
    } else {
        0
    }
}

fn facing_from_char(c: char) -> (facing: Option<ChargerFacing>)
    ensures
        facing == facing_of_char(c),
{
    if c == 'n' {
        Some(ChargerFacing::North)
    } else if c == 's' {
        Some(ChargerFacing::South)
    } else if c == 'e' {
        Some(ChargerFacing::East)
    } else if c == 'w' {
        Some(ChargerFacing::West)
    } else {
        None
    }
}

/// The cell that a two-character token stands for.
pub fn parse_cell_token(a: char, b: char) -> (cell: Option<CellType>)
    ensures
        match cell {
            Some(c) => reads_as(a, b, c),
            None => forall|c: CellType| !#[trigger] reads_as(a, b, c),
        },
{
    if a == '.' && b == '.' {
        Some(CellType::Void)
    } else if a == '_' && b == '_' {
        Some(CellType::Road)
    } else if a == 'w' {
        match WallMask::from_bits(mask_from_char(b)) {
            Some(mask) => Some(CellType::Wall(mask)),
            None => None,
        }
    } else if a == 'c' && b == '1' {
        Some(CellType::Corner(WallCorner::Nw))
    } else if a == 'c' && b == '2' {
        Some(CellType::Corner(WallCorner::Ne))
    } else if a == 'c' && b == '3' {
        Some(CellType::Corner(WallCorner::Sw))
    } else if a == 'c' && b == '4' {
        Some(CellType::Corner(WallCorner::Se))
    } else if a == 'p' {
        match facing_from_char(b) {
            Some(facing) => Some(CellType::Charger(facing)),
            None => None,
        }
    } else if a == 'd' {
        match facing_from_char(b) {
            Some(facing) => Some(CellType::PartsDepot(facing)),
            None => None,
        }
    } else {
        None
    }
}

/// The style that a two-character token stands for.
pub fn parse_style_token(a: char, b: char) -> (style: Option<TileStyle>)
    ensures
        match style {
            Some(s) => s.chars() == seq![a, b],
            None => forall|s: TileStyle| #[trigger] s.chars() != seq![a, b],
        },
{
    let style = if a == '.' && b == '.' {
        Some(TileStyle::Regular)
    } else if a == 'f' && b == 'g' {
        Some(TileStyle::FloorGlass)
    } else if a == 'f' && b == 'p' {
        Some(TileStyle::FloorPavement)
    } else if a == 'f' && b == 'm' {
        Some(TileStyle::FloorMarble)
    } else if a == 'w' && b == 'g' {
        Some(TileStyle::WallGlass)
    } else {
        None
    };
    proof {
        let token = seq![a, b];
        assert(token[0] == a && token[1] == b);
        if style is Some {
            assert(style.unwrap().chars() =~= token);
        }
        assert forall|s: TileStyle| style is None implies #[trigger] s.chars() != token by {
            assert(s.chars()[0] == s.chars()[0] && s.chars()[1] == s.chars()[1]);
        }
    }
    style
}

} // verus!
