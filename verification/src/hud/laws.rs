//! What the display promises whatever it shows: percentages are the nearest ones, counts count,
//! ranks fall, and colours tell states apart.
use vstd::prelude::*;
use vstd::string::*;

use crate::hud::actor_inspector::{
    content_changed, force_logs_label, next_stamp, subtile_map_label, PanelBuildState, SelectedActor,
};
use crate::hud::game_hud::{button_style, frame_rate, ButtonState};
use crate::hud::game_log::{aged, LogEntry, LogLevel, StoredLog, LOG_LIFETIME_MICROS};
use crate::hud::leaderboard::{
    charge_percent, charge_tone, count_alive, count_alive_as, count_broken, count_discharged,
    health_color, percent_of, ranked, role_color, BotRow, BotSpecialization, Breakable,
    LeaderboardStats, RowColor,
};
use crate::hud::overlays::{switch_name, switch_text, OverlaySwitch};

verus! {

/// A charge is shown as the nearest whole percent, halves upwards; empty is zero, full is a
/// hundred, and more charge never shows less.
pub proof fn charges_show_the_nearest_percent(level: int, more: int)
    requires
        0 <= level <= more,
    ensures
        -500_000 <= 100 * level - 1_000_000 * charge_percent(level) < 500_000,
        charge_percent(0) == 0,
        charge_percent(1_000_000) == 100,
        charge_percent(level) <= charge_percent(more),
{
}

/// A share is shown as the nearest whole percent of the whole, halves upwards; nothing is zero
/// and all is a hundred.
pub proof fn shares_show_the_nearest_percent(n: int, total: int)
    requires
        0 <= n <= total,
        0 < total,
    ensures
        -total <= 200 * n - 2 * total * percent_of(n, total) < total,
        percent_of(0, total) == 0,
        percent_of(total, total) == 100,
        0 <= percent_of(n, total) <= 100,
{
    let p = percent_of(n, total);
    let (a, b) = (200 * n + total, 2 * total);
    assert(a / b * b <= a < a / b * b + b) by (nonlinear_arith)
        requires
            b > 0,
    ;
    assert(p * (2 * total) == 2 * total * p) by (nonlinear_arith);
    assert((0 + total) / (2 * total) == 0) by (nonlinear_arith)
        requires
            total > 0,
    ;
    assert((200 * total + total) / (2 * total) == 100) by (nonlinear_arith)
        requires
            total > 0,
    ;
    assert(0 <= p <= 100) by (nonlinear_arith)
        requires
            p == (200 * n + total) / (2 * total),
            0 <= n <= total,
            0 < total,
    ;
}

/// A frame rate is the nearest whole number of frames per second, halves upwards.
pub proof fn frame_rates_are_the_nearest(nanos: int)
    requires
        0 < nanos,
    ensures
        -nanos <= 2_000_000_000 - 2 * nanos * frame_rate(nanos) < nanos,
{
    let r = frame_rate(nanos);
    let (a, b) = (2_000_000_000 + nanos, 2 * nanos);
    assert(a / b * b <= a < a / b * b + b) by (nonlinear_arith)
        requires
            b > 0,
    ;
    assert(r * (2 * nanos) == 2 * nanos * r) by (nonlinear_arith);
}

/// The colour of a charge falls with it: high above one half, low up to one fifth.
pub proof fn charge_colours_follow_the_level(level: int)
    ensures
        charge_tone(level) == RowColor::ChargeHigh <==> 2 * level > 1_000_000,
        charge_tone(level) == RowColor::ChargeLow <==> 5 * level <= 1_000_000,
        charge_tone(level) == RowColor::ChargeMid <==> 5 * level > 1_000_000 && 2 * level <= 1_000_000,
{
}

/// The colour of a bot's systems tells their state: no part broken is fine, a broken engine or
/// control plane is offline, and a bot with only its sensors hit is damaged.
pub proof fn health_colours_tell_the_state(b: Breakable)
    ensures
        health_color(Some(b)) == RowColor::HealthOk <==> !b.movement_engine.broken
            && !b.control_plane.broken && !b.sensory_system.broken,
        health_color(Some(b)) == RowColor::HealthOffline <==> b.movement_engine.broken
            || b.control_plane.broken,
        health_color(Some(b)) == RowColor::HealthDamaged <==> !b.movement_engine.broken
            && !b.control_plane.broken && b.sensory_system.broken,
        health_color(None) == RowColor::TextMuted,
{
}

/// Each specialization has a colour of its own.
pub proof fn roles_have_their_own_colour(a: BotSpecialization, b: BotSpecialization)
    ensures
        role_color(a) == role_color(b) ==> a == b,
        role_color(a).hundredths() == role_color(b).hundredths() ==> a == b,
        role_color(BotSpecialization::Patrol) == RowColor::Patrol,
        role_color(BotSpecialization::Fixer) == RowColor::Fixer,
        role_color(BotSpecialization::Cleaner) == RowColor::Cleaner,
{
    assert(role_color(a).hundredths()[0] == role_color(a).hundredths()[0]);
    assert(role_color(b).hundredths()[0] == role_color(b).hundredths()[0]);
}

/// Counts count: each is the number of rows of its kind.
pub proof fn counts_count_the_rows(rows: Seq<BotRow>, spec: BotSpecialization)
    ensures
        count_discharged(rows) == rows.filter(|r: BotRow| r.charge == Some(0u32)).len(),
        count_broken(rows) == rows.filter(
            |r: BotRow|
                r.charge != Some(0u32) && (r.breakable matches Some(b) && (b.movement_engine.broken
                    || b.control_plane.broken)),
        ).len(),
        count_alive(rows) == rows.filter(
            |r: BotRow|
                r.charge != Some(0u32) && !(r.breakable matches Some(b) && (b.movement_engine.broken
                    || b.control_plane.broken)),
        ).len(),
        count_alive_as(rows, spec) == rows.filter(
            |r: BotRow|
                r.spec == spec && r.charge != Some(0u32) && !(r.breakable matches Some(b) && (
                b.movement_engine.broken || b.control_plane.broken)),
        ).len(),
    decreases rows.len(),
{
    reveal(Seq::filter);
    if rows.len() > 0 {
        counts_count_the_rows(rows.drop_last(), spec);
    }
}

/// The ranking falls: every row is listed once, the charge never rises down the list, a bot
/// without a battery counts as full, and equals keep their order.
pub proof fn rankings_fall(rows: Seq<BotRow>, order: Seq<usize>, i: int, j: int)
    requires
        ranked(rows, order, rows.len() as int),
        0 <= i < j < rows.len(),
    ensures
        ({
            let (a, b) = (rows[order[i] as int], rows[order[j] as int]);
            let (ca, cb) = (
                if a.charge is Some {
                    a.charge->0 as int
                } else {
                    1_000_000
                },
                if b.charge is Some {
                    b.charge->0 as int
                } else {
                    1_000_000
                },
            );
            &&& ca >= cb
            &&& ca == cb ==> order[i] < order[j]
            &&& order[i] != order[j]
        }),
{
}

/// Entries leave the log once they have been shown for their time; the others stay, in their
/// order, that much older.
pub proof fn old_entries_leave_the_log(entries: Seq<StoredLog>, dt: int)
    ensures
        aged(entries, dt) == entries.filter(
            |e: StoredLog| e.age + dt < LOG_LIFETIME_MICROS,
        ).map_values(|e: StoredLog| StoredLog { age: (e.age + dt) as u64, ..e }),
    decreases entries.len(),
{
    reveal(Seq::filter);
    if entries.len() > 0 {
        old_entries_leave_the_log(entries.drop_last(), dt);
    }
    assert(aged(entries, dt) =~= entries.filter(
        |e: StoredLog| e.age + dt < LOG_LIFETIME_MICROS,
    ).map_values(|e: StoredLog| StoredLog { age: (e.age + dt) as u64, ..e }));
}

/// Levels have different colours; errors are the reddest and successes the greenest.
pub proof fn log_colours_tell_levels_apart(a: LogLevel, b: LogLevel)
    ensures
        a.hundredths().len() == 3,
        a.hundredths() == b.hundredths() ==> a == b,
        LogLevel::Error.hundredths()[0] > 3 * LogLevel::Error.hundredths()[1],
        LogLevel::Success.hundredths()[1] > 2 * LogLevel::Success.hundredths()[0],
{
    assert(a.hundredths()[1] == a.hundredths()[1] && b.hundredths()[1] == b.hundredths()[1]);
}

/// Buttons answer the pointer: the three states look different, and only an idle button has a
/// faint border.
pub proof fn buttons_answer_the_pointer(a: ButtonState, b: ButtonState)
    ensures
        button_style(a) == button_style(b) ==> a == b,
        button_style(a).1[3] < 50 <==> a == ButtonState::Idle,
{
    assert(button_style(a).0[0] == button_style(a).0[0]);
    assert(button_style(b).0[0] == button_style(b).0[0]);
}

proof fn lemma_initial(a: OverlaySwitch)
    ensures
        switch_name(a)[0] == match a {
            OverlaySwitch::Ambient => 'A',
            OverlaySwitch::Sun => 'S',
            OverlaySwitch::Occupancy => 'O',
            OverlaySwitch::Heat => 'H',
            OverlaySwitch::Path => 'P',
            OverlaySwitch::Water => 'W',
            OverlaySwitch::Log => 'L',
        },
{
    reveal_strlit("Ambient");
    reveal_strlit("Sun");
    reveal_strlit("Occ");
    reveal_strlit("Heat");
    reveal_strlit("Path");
    reveal_strlit("Water");
    reveal_strlit("Log");
}

/// Labels tell switches and their states apart.
pub proof fn labels_tell_switches_apart(a: OverlaySwitch, b: OverlaySwitch, on: bool, other: bool)
    ensures
        switch_name(a) == switch_name(b) ==> a == b,
        switch_text(a, on) == switch_text(a, other) ==> on == other,
        switch_text(a, on).take(switch_name(a).len() as int) == switch_name(a),
        force_logs_label(on) == force_logs_label(other) ==> on == other,
        subtile_map_label(on) == subtile_map_label(other) ==> on == other,
        switch_text(a, true).last() == 'n',
        switch_text(a, false).last() == 'f',
        force_logs_label(true).last() == 'N',
        force_logs_label(false).last() == 'F',
        subtile_map_label(true).last() == 'N',
        subtile_map_label(false).last() == 'F',
{
    reveal_strlit("Ambient");
    reveal_strlit("Sun");
    reveal_strlit("Occ");
    reveal_strlit("Heat");
    reveal_strlit("Path");
    reveal_strlit("Water");
    reveal_strlit("Log");
    reveal_strlit(": On");
    reveal_strlit(": Off");
    reveal_strlit("Force logs: ON");
    reveal_strlit("Force logs: OFF");
    reveal_strlit("Subtile map: ON");
    reveal_strlit("Subtile map: OFF");
    lemma_initial(a);
    lemma_initial(b);
    assert(force_logs_label(true).len() == 14 && force_logs_label(false).len() == 15);
    assert(subtile_map_label(true).len() == 15 && subtile_map_label(false).len() == 16);
    assert(switch_text(a, on).take(switch_name(a).len() as int) =~= switch_name(a));
    assert(switch_text(a, true).last() == 'n');
    assert(switch_text(a, false).last() == 'f');
}

/// A stamp always changes, and the one after the last starts over.
pub proof fn stamps_always_change(stamp: u32)
    ensures
        next_stamp(stamp) != stamp,
        next_stamp(stamp) == stamp + 1 || next_stamp(stamp) == 0,
{
}

/// A panel that shows the selected actor as of its last change, with nothing new selected or
/// pressed and no tick due, stays as it is; anything else is drawn anew.
pub proof fn settled_panels_stay(state: PanelBuildState, selection: SelectedActor)
    ensures
        content_changed(state, selection, false, false, false) <==> state.last_stamp
            != selection.content_stamp || state.last_actor != selection.entity,
        content_changed(state, selection, true, false, false),
        content_changed(state, selection, false, true, false),
        content_changed(state, selection, false, false, true),
{
}

/// The figures of the leaderboard are the counts of its rows, each under its own name.
pub proof fn figures_are_the_counts(stats: LeaderboardStats, rows: Seq<BotRow>)
    requires
        stats.counts(rows),
    ensures
        ({
            let living = |spec: BotSpecialization|
                rows.filter(
                    |r: BotRow|
                        r.spec == spec && r.charge != Some(0u32) && !(r.breakable matches Some(b) && (
                        b.movement_engine.broken || b.control_plane.broken)),
                ).len();
            &&& stats.total == rows.len()
            &&& stats.discharged == rows.filter(|r: BotRow| r.charge == Some(0u32)).len()
            &&& stats.idle == living(BotSpecialization::DoNothing)
            &&& stats.patrol == living(BotSpecialization::Patrol)
            &&& stats.fixer == living(BotSpecialization::Fixer)
            &&& stats.cleaner == living(BotSpecialization::Cleaner)
        }),
{
    counts_count_the_rows(rows, BotSpecialization::DoNothing);
    counts_count_the_rows(rows, BotSpecialization::Patrol);
    counts_count_the_rows(rows, BotSpecialization::Fixer);
    counts_count_the_rows(rows, BotSpecialization::Cleaner);
}

/// An entry has the severity of its kind: rerouting is unexpected, starting to charge is news,
/// finishing is a success, and a message has the level that it came with.
pub proof fn entries_have_the_severity_of_their_kind(entry: LogEntry)
    ensures
        entry is BotReroute ==> entry.severity() == LogLevel::Unexpected,
        entry is ChargingStarted ==> entry.severity() == LogLevel::Info,
        entry is ChargingDone ==> entry.severity() == LogLevel::Success,
        entry matches LogEntry::Message { level, .. } ==> entry.severity() == level,
{
}

} // verus!
