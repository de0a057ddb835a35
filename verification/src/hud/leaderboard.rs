//! The bot leaderboard: rows ranked by charge, the health of each bot, and counts over all.
//!
//! Charge is in millionths of full.
use vstd::prelude::*;

use crate::hud::actor_inspector::SelectedActor;
use crate::text::{decimal_nat, push_long, push_unsigned};

verus! {

/// A full charge.
pub const CHARGE_FULL: u32 = 1_000_000;

/// Colors of the leaderboard's texts.
#[derive(Debug, Clone, Copy, PartialEq, Eq, Structural)]
pub enum RowColor {
    TextBright,
    TextMuted,
    HealthOk,
    HealthDamaged,
    HealthOffline,
    ChargeHigh,
    ChargeMid,
    ChargeLow,
    Patrol,
    Fixer,
    Cleaner,
}

impl RowColor {
    /// Red, green, blue and opacity in hundredths.
    pub open spec fn hundredths(self) -> Seq<u8> {
        match self {
            RowColor::TextBright => seq![97, 98, 100, 96],
            RowColor::TextMuted => seq![72, 76, 82, 88],
            RowColor::HealthOk => seq![45, 85, 45, 100],
            RowColor::HealthDamaged => seq![97, 72, 30, 100],
            RowColor::HealthOffline => seq![95, 40, 40, 100],
            RowColor::ChargeHigh => seq![45, 85, 45, 100],
            RowColor::ChargeMid => seq![97, 85, 30, 100],
            RowColor::ChargeLow => seq![95, 40, 40, 100],
            RowColor::Patrol => seq![45, 70, 100, 100],
            RowColor::Fixer => seq![100, 42, 42, 100],
            RowColor::Cleaner => seq![35, 85, 85, 100],
        }
    }

    /// Red, green, blue and opacity in hundredths.
    pub fn rgba(self) -> (rgba: [u8; 4])
        ensures
            rgba@ == self.hundredths(),
    {
        let rgba: [u8; 4] = match self {
            RowColor::TextBright => [97, 98, 100, 96],
            RowColor::TextMuted => [72, 76, 82, 88],
            RowColor::HealthOk => [45, 85, 45, 100],
            RowColor::HealthDamaged => [97, 72, 30, 100],
            RowColor::HealthOffline => [95, 40, 40, 100],
            RowColor::ChargeHigh => [45, 85, 45, 100],
            RowColor::ChargeMid => [97, 85, 30, 100],
            RowColor::ChargeLow => [95, 40, 40, 100],
            RowColor::Patrol => [45, 70, 100, 100],
            RowColor::Fixer => [100, 42, 42, 100],
            RowColor::Cleaner => [35, 85, 85, 100],
        };
        assert(rgba@ =~= self.hundredths());
        rgba
    }
}

/// What a bot is for.
#[derive(Debug, Clone, Copy, PartialEq, Eq, Structural)]
pub enum BotSpecialization {
    DoNothing,
    Patrol,
    Fixer,
    Cleaner,
}

/// Legible variant of each specialization's ring color for the dark row background.
pub open spec fn role_color(spec: BotSpecialization) -> RowColor {
    match spec {
        BotSpecialization::DoNothing => RowColor::TextMuted,
        BotSpecialization::Patrol => RowColor::Patrol,
        BotSpecialization::Fixer => RowColor::Fixer,
        BotSpecialization::Cleaner => RowColor::Cleaner,
    }
}

pub fn spec_text_color(spec: BotSpecialization) -> (color: RowColor)
    ensures
        color == role_color(spec),
{
    match spec {
        BotSpecialization::DoNothing => RowColor::TextMuted,
        BotSpecialization::Patrol => RowColor::Patrol,
        BotSpecialization::Fixer => RowColor::Fixer,
        BotSpecialization::Cleaner => RowColor::Cleaner,
    }
}

/// One part of a bot that can break.
#[derive(Debug, Clone, Copy, PartialEq, Eq, Structural)]
pub struct BotSystem {
    pub broken: bool,
}

/// The parts of a bot that can break.
#[derive(Debug, Clone, Copy, PartialEq, Eq, Structural)]
pub struct Breakable {
    pub movement_engine: BotSystem,
    pub control_plane: BotSystem,
    pub sensory_system: BotSystem,
}

impl Breakable {
    /// A bot with everything intact.
    pub fn new() -> (parts: Self)
        ensures
            !parts.movement_engine.broken,
            !parts.control_plane.broken,
            !parts.sensory_system.broken,
    {
        let intact = BotSystem { broken: false };
        Breakable { movement_engine: intact, control_plane: intact, sensory_system: intact }
    }

    /// How many parts are broken.
    pub open spec fn broken_parts(self) -> nat {
        ((if self.movement_engine.broken {
            1nat
        } else {
            0
        }) + (if self.control_plane.broken {
            1nat
        } else {
            0
        }) + (if self.sensory_system.broken {
            1nat
        } else {
            0
        }))
    }

    /// A broken movement engine or control plane immobilizes the bot.
    pub open spec fn immobile(self) -> bool {
        self.movement_engine.broken || self.control_plane.broken
    }

    pub fn is_immobilized(&self) -> (immobile: bool)
        ensures
            immobile == self.immobile(),
    {
        self.movement_engine.broken || self.control_plane.broken
    }
}

/// The text that describes a bot's systems.
pub open spec fn health_text(parts: Option<Breakable>) -> Seq<char> {
    match parts {
        None => "—"@,
        Some(b) => if b.broken_parts() == 0 {
            "OK"@
        } else if b.immobile() {
            "OFFLINE ("@ + decimal_nat(b.broken_parts()) + ")"@
        } else {
            decimal_nat(b.broken_parts()) + " hit"@
        },
    }
}

/// The color of that text.
pub open spec fn health_color(parts: Option<Breakable>) -> RowColor {
    match parts {
        None => RowColor::TextMuted,
        Some(b) => if b.broken_parts() == 0 {
            RowColor::HealthOk
        } else if b.immobile() {
            RowColor::HealthOffline
        } else {
            RowColor::HealthDamaged
        },
    }
}

/// Label and color of a bot's overall system health. Charge is shown separately, so this
/// reflects only the parts that can break.
pub fn health_status(breakable: Option<&Breakable>) -> (status: (String, RowColor))
    ensures
        match breakable {
            Some(b) => status.0@ == health_text(Some(*b)) && status.1 == health_color(Some(*b)),
            None => status.0@ == health_text(None) && status.1 == health_color(None),
        },
{
    match breakable {
        None => ("—".to_owned(), RowColor::TextMuted),
        Some(b) => {
            let mut broken: u32 = 0;
            if b.movement_engine.broken {
                broken += 1;
            }
            if b.control_plane.broken {
                broken += 1;
            }
            if b.sensory_system.broken {
                broken += 1;
            }
            if broken == 0 {
                ("OK".to_owned(), RowColor::HealthOk)
            } else if b.is_immobilized() {
                let mut text = "OFFLINE (".to_owned();
                push_unsigned(&mut text, broken);
                text.append(")");
                (text, RowColor::HealthOffline)
            } else {
                let mut text = String::new();
                push_unsigned(&mut text, broken);
                text.append(" hit");
                assert(text@ =~= decimal_nat(broken as nat) + " hit"@);
                (text, RowColor::HealthDamaged)
            }
        },
    }
}

/// The color of a charge level: above half, above a fifth, or low.
pub open spec fn charge_tone(level: int) -> RowColor {
    if level > 500_000 {
        RowColor::ChargeHigh
    } else if level > 200_000 {
        RowColor::ChargeMid
    } else {
        RowColor::ChargeLow
    }
}

pub fn charge_color(level: u32) -> (color: RowColor)
    ensures
        color == charge_tone(level as int),
{
    if level > 500_000 {
        RowColor::ChargeHigh
    } else if level > 200_000 {
        RowColor::ChargeMid
    } else {
        RowColor::ChargeLow
    }
}

/// Percent of full, rounded half up.
pub open spec fn charge_percent(level: int) -> int {
    (level * 100 + 500_000) / 1_000_000
}

/// Text and color of the charge column; a bot without a battery has a dash.
pub fn charge_cell(level: Option<u32>) -> (cell: (String, RowColor))
    ensures
        match level {
            Some(l) => cell.0@ == decimal_nat(charge_percent(l as int) as nat) + "%"@ && cell.1
                == charge_tone(l as int),
            None => cell.0@ == "—"@ && cell.1 == RowColor::TextMuted,
        },
{
    match level {
        Some(l) => {
            let percent: u64 = (l as u64 * 100 + 500_000) / 1_000_000;
            let mut text = String::new();
            push_unsigned(&mut text, percent as u32);
            text.append("%");
            assert(text@ =~= decimal_nat(percent as nat) + "%"@);
            (text, charge_color(l))
        },
        None => ("—".to_owned(), RowColor::TextMuted),
    }
}

/// Percent of a whole, rounded half up; nothing of nothing is zero.
pub open spec fn percent_of(n: int, total: int) -> int {
    if total == 0 {
        0
    } else {
        (200 * n + total) / (2 * total)
    }
}

/// The share of `n` in `total` in percent, rounded half up, and at most `i32::MAX`.
pub fn pct(n: usize, total: usize) -> (percent: i32)
    ensures
        percent == if percent_of(n as int, total as int) > i32::MAX {
            i32::MAX as int
        } else {
            percent_of(n as int, total as int)
        },
        n <= total ==> 0 <= percent <= 100,
{
    if total == 0 {
        0
    } else {
        let whole: u128 = 2 * total as u128;
        let parts: u128 = 200 * n as u128 + total as u128;
        let percent: u128 = parts / whole;
        proof {
            assert(percent == percent_of(n as int, total as int));
            if n <= total {
                assert(parts < 101 * whole);
                assert(percent < 101) by (nonlinear_arith)
                    requires
                        percent == parts / whole,
                        parts < 101 * whole,
                        whole > 0,
                ;
            }
        }
        if percent > i32::MAX as u128 {
            i32::MAX
        } else {
            percent as i32
        }
    }
}

/// One bot's columns.
#[derive(Debug, Clone, Copy, PartialEq, Eq, Structural)]
pub struct BotRow {
    pub actor: u64,
    /// Charge level, for a bot with a battery.
    pub charge: Option<u32>,
    pub breakable: Option<Breakable>,
    pub spec: BotSpecialization,
}

impl BotRow {
    /// A bot without charge.
    pub open spec fn is_depleted(self) -> bool {
        self.charge == Some(0u32)
    }

    pub open spec fn is_immobile(self) -> bool {
        self.breakable matches Some(b) && b.immobile()
    }

    /// Neither out of charge nor immobilized.
    pub open spec fn is_alive(self) -> bool {
        !self.is_depleted() && !self.is_immobile()
    }

    /// The charge a bot is ranked by: one without a battery counts as full.
    pub open spec fn rank_charge(self) -> int {
        match self.charge {
            Some(level) => level as int,
            None => 1_000_000,
        }
    }
}

fn charge_key(row: &BotRow) -> (key: u32)
    ensures
        key == row.rank_charge(),
{
    match row.charge {
        Some(level) => level,
        None => CHARGE_FULL,
    }
}

/// How many of the rows are out of charge.
pub open spec fn count_discharged(rows: Seq<BotRow>) -> nat
    decreases rows.len(),
{
    if rows.len() == 0 {
        0
    } else {
        count_discharged(rows.drop_last()) + (if rows.last().is_depleted() {
            1nat
        } else {
            0
        })
    }
}

/// How many of the rows have charge and are immobilized.
pub open spec fn count_broken(rows: Seq<BotRow>) -> nat
    decreases rows.len(),
{
    if rows.len() == 0 {
        0
    } else {
        count_broken(rows.drop_last()) + (if !rows.last().is_depleted()
            && rows.last().is_immobile() {
            1nat
        } else {
            0
        })
    }
}

/// How many of the rows are alive and of a specialization.
pub open spec fn count_alive_as(rows: Seq<BotRow>, spec: BotSpecialization) -> nat
    decreases rows.len(),
{
    if rows.len() == 0 {
        0
    } else {
        count_alive_as(rows.drop_last(), spec) + (if rows.last().is_alive() && rows.last().spec
            == spec {
            1nat
        } else {
            0
        })
    }
}

/// How many of the rows are alive.
pub open spec fn count_alive(rows: Seq<BotRow>) -> nat
    decreases rows.len(),
{
    if rows.len() == 0 {
        0
    } else {
        count_alive(rows.drop_last()) + (if rows.last().is_alive() {
            1nat
        } else {
            0
        })
    }
}

/// Every bot is counted in exactly one of the three groups, and every living bot under exactly
/// one specialization.
pub proof fn groups_partition_the_bots(rows: Seq<BotRow>)
    ensures
        count_discharged(rows) + count_broken(rows) + count_alive(rows) == rows.len(),
        count_alive_as(rows, BotSpecialization::DoNothing) + count_alive_as(
            rows,
            BotSpecialization::Patrol,
        ) + count_alive_as(rows, BotSpecialization::Fixer) + count_alive_as(
            rows,
            BotSpecialization::Cleaner,
        ) == count_alive(rows),
    decreases rows.len(),
{
    if rows.len() > 0 {
        groups_partition_the_bots(rows.drop_last());
    }
}

/// Counts over all bots.
#[derive(Debug, Clone, Copy, PartialEq, Eq, Structural)]
pub struct LeaderboardStats {
    pub total: usize,
    pub discharged: usize,
    pub broken: usize,
    pub alive: usize,
    pub idle: usize,
    pub patrol: usize,
    pub fixer: usize,
    pub cleaner: usize,
}

impl LeaderboardStats {
    /// These are the counts of the rows.
    pub open spec fn counts(self, rows: Seq<BotRow>) -> bool {
        &&& self.total == rows.len()
        &&& self.discharged == count_discharged(rows)
        &&& self.broken == count_broken(rows)
        &&& self.alive == count_alive(rows)
        &&& self.idle == count_alive_as(rows, BotSpecialization::DoNothing)
        &&& self.patrol == count_alive_as(rows, BotSpecialization::Patrol)
        &&& self.fixer == count_alive_as(rows, BotSpecialization::Fixer)
        &&& self.cleaner == count_alive_as(rows, BotSpecialization::Cleaner)
    }
}

/// Groups the bots by priority: out of charge before immobilized before alive; the living are
/// split by specialization.
pub fn leaderboard_stats(rows: &Vec<BotRow>) -> (stats: LeaderboardStats)
    ensures
        stats.counts(rows@),
        stats.discharged + stats.broken + stats.alive == stats.total,
        stats.idle + stats.patrol + stats.fixer + stats.cleaner == stats.alive,
{
    let mut stats = LeaderboardStats {
        total: 0,
        discharged: 0,
        broken: 0,
        alive: 0,
        idle: 0,
        patrol: 0,
        fixer: 0,
        cleaner: 0,
    };
    let mut i: usize = 0;
    while i < rows.len()
        invariant
            i <= rows@.len(),
            stats.counts(rows@.take(i as int)),
        decreases rows@.len() - i,
    {
        proof {
            assert(rows@.take(i + 1).drop_last() =~= rows@.take(i as int));
            assert(rows@.take(i + 1).last() == rows@[i as int]);
            groups_partition_the_bots(rows@.take(i as int));
        }
        let row = rows[i];
        let depleted: bool = match row.charge {
            Some(level) => level == 0,
            None => false,
        };
        let immobilized: bool = match &row.breakable {
            Some(b) => b.is_immobilized(),
            None => false,
        };
        stats.total += 1;
        if depleted {
            stats.discharged += 1;
        } else if immobilized {
            stats.broken += 1;
        } else {
            stats.alive += 1;
            match row.spec {
                BotSpecialization::DoNothing => {
                    stats.idle += 1;
                },
                BotSpecialization::Patrol => {
                    stats.patrol += 1;
                },
                BotSpecialization::Fixer => {
                    stats.fixer += 1;
                },
                BotSpecialization::Cleaner => {
                    stats.cleaner += 1;
                },
            }
        }
        i += 1;
    }
    proof {
        assert(rows@.take(i as int) =~= rows@);
        groups_partition_the_bots(rows@);
    }
    stats
}

/// A count with its share of all bots.
pub open spec fn share_line(label: Seq<char>, n: nat, total: nat) -> Seq<char> {
    label + decimal_nat(n) + " ("@ + decimal_nat(percent_of(n as int, total as int) as nat) + "%)"@
}

/// The line that splits the living by specialization.
pub open spec fn roles_line(stats: LeaderboardStats) -> Seq<char> {
    "  DO_NOTHING "@ + decimal_nat(stats.idle as nat) + "   PATROL "@ + decimal_nat(
        stats.patrol as nat,
    ) + "   FIXER "@ + decimal_nat(stats.fixer as nat) + "   CLEANER "@ + decimal_nat(
        stats.cleaner as nat,
    )
}

fn share_text(label: &str, n: usize, total: usize) -> (text: String)
    requires
        n <= total,
    ensures
        text@ == share_line(label@, n as nat, total as nat),
{
    let mut text = label.to_owned();
    push_long(&mut text, n as u64);
    text.append(" (");
    push_unsigned(&mut text, pct(n, total) as u32);
    text.append("%)");
    assert(text@ =~= share_line(label@, n as nat, total as nat));
    text
}

/// The lines of the block above the rows.
pub fn stat_lines(stats: &LeaderboardStats) -> (lines: Vec<(String, RowColor)>)
    requires
        stats.discharged <= stats.total,
        stats.broken <= stats.total,
        stats.alive <= stats.total,
    ensures
        lines@.len() == 5,
        lines@[0].0@ == "Total bots: "@ + decimal_nat(stats.total as nat),
        lines@[0].1 == RowColor::TextBright,
        lines@[1].0@ == share_line("Alive: "@, stats.alive as nat, stats.total as nat),
        lines@[1].1 == RowColor::HealthOk,
        lines@[2].0@ == roles_line(*stats),
        lines@[2].1 == RowColor::TextMuted,
        lines@[3].0@ == share_line("Broken: "@, stats.broken as nat, stats.total as nat),
        lines@[3].1 == RowColor::HealthDamaged,
        lines@[4].0@ == share_line("Discharged: "@, stats.discharged as nat, stats.total as nat),
        lines@[4].1 == RowColor::HealthOffline,
{
    let mut total = "Total bots: ".to_owned();
    push_long(&mut total, stats.total as u64);
    let mut roles = "  DO_NOTHING ".to_owned();
    push_long(&mut roles, stats.idle as u64);
    roles.append("   PATROL ");
    push_long(&mut roles, stats.patrol as u64);
    roles.append("   FIXER ");
    push_long(&mut roles, stats.fixer as u64);
    roles.append("   CLEANER ");
    push_long(&mut roles, stats.cleaner as u64);
    assert(roles@ =~= roles_line(*stats));
    let mut lines: Vec<(String, RowColor)> = Vec::new();
    lines.push((total, RowColor::TextBright));
    lines.push((share_text("Alive: ", stats.alive, stats.total), RowColor::HealthOk));
    lines.push((roles, RowColor::TextMuted));
    lines.push((share_text("Broken: ", stats.broken, stats.total), RowColor::HealthDamaged));
    lines.push(
        (share_text("Discharged: ", stats.discharged, stats.total), RowColor::HealthOffline),
    );
    lines
}

/// Whether one row stands before another: by charge, fullest first, and among equals in the
/// order in which they came.
pub open spec fn ranks_before(rows: Seq<BotRow>, a: int, b: int) -> bool {
    rows[a].rank_charge() > rows[b].rank_charge() || (rows[a].rank_charge()
        == rows[b].rank_charge() && a < b)
}

/// The order lists each of the first `n` rows once, in rank order.
pub open spec fn ranked(rows: Seq<BotRow>, order: Seq<usize>, n: int) -> bool {
    &&& order.len() == n
    &&& forall|i: int| 0 <= i < n ==> 0 <= #[trigger] order[i] < n
    &&& forall|i: int, j: int|
        0 <= i < j < n ==> ranks_before(rows, #[trigger] order[i] as int, #[trigger] order[j] as int)
}

/// Ranks the bots by charge, fullest first; a bot without a battery counts as full.
pub fn rank_bots(rows: &Vec<BotRow>) -> (order: Vec<usize>)
    ensures
        ranked(rows@, order@, rows@.len() as int),
        order@.no_duplicates(),
{
    let mut order: Vec<usize> = Vec::new();
    let mut n: usize = 0;
    while n < rows.len()
        invariant
            n <= rows@.len(),
            ranked(rows@, order@, n as int),
        decreases rows@.len() - n,
    {
        let key: u32 = charge_key(&rows[n]);
        let mut at: usize = n;
        while at > 0 && charge_key(&rows[order[at - 1]]) < key
            invariant
                n < rows@.len(),
                at <= n,
                ranked(rows@, order@, n as int),
                key == rows@[n as int].rank_charge(),
                forall|i: int|
                    at <= i < n ==> rows@[#[trigger] order@[i] as int].rank_charge() < key,
            decreases at,
        {
            at -= 1;
        }
        let ghost before = order@;
        order.insert(at, n);
        proof {
            assert forall|i: int, j: int| 0 <= i < j < n + 1 implies ranks_before(
                rows@,
                #[trigger] order@[i] as int,
                #[trigger] order@[j] as int,
            ) by {
                let a = if i > at {
                    i - 1
                } else {
                    i
                };
                let b = if j > at {
                    j - 1
                } else {
                    j
                };
                if i != at {
                    assert(order@[i] == before[a]);
                }
                if j != at {
                    assert(order@[j] == before[b]);
                }
                if i != at && j == at {
                    assert(before[i] < n);
                    if at > 0 && i < at - 1 {
                        assert(ranks_before(rows@, before[i] as int, before[at - 1] as int));
                    }
                }
            }
        }
        n += 1;
    }
    order
}

/// Whether the panel is open.
#[derive(Debug, Clone, Copy, PartialEq, Eq, Structural)]
pub struct LeaderboardPanel {
    pub open: bool,
}

impl Default for LeaderboardPanel {
    fn default() -> (panel: Self)
        ensures
            !panel.open,
    {
        LeaderboardPanel { open: false }
    }
}

impl LeaderboardPanel {
    /// The panel's button or key was pressed.
    pub fn toggle(&mut self)
        ensures
            final(self).open == !old(self).open,
    {
        self.open = !self.open;
    }

    /// The close button, the scrim or Escape was pressed.
    pub fn close(&mut self)
        ensures
            !final(self).open,
    {
        self.open = false;
    }
}

/// Whether the rows must be built again: when the panel opens, and at every refresh while it
/// is open.
pub fn refresh_due(was_open: &mut bool, open: bool, ticked: bool) -> (due: bool)
    ensures
        due == (open && (!*old(was_open) || ticked)),
        *final(was_open) == open,
{
    let just_opened: bool = open && !*was_open;
    *was_open = open;
    open && (just_opened || ticked)
}

/// A row was clicked: a bot that still exists is selected and the panel closes.
pub fn leaderboard_row_click(
    selection: &mut SelectedActor,
    panel: &mut LeaderboardPanel,
    actor: u64,
    present: bool,
)
    ensures
        final(selection).content_stamp == old(selection).content_stamp,
        final(selection).entity == if present {
            Some(actor)
        } else {
            old(selection).entity
        },
        final(panel).open == (old(panel).open && !present),
{
    if !present {
        return;
    }
    selection.entity = Some(actor);
    panel.open = false;
}

} // verus!
