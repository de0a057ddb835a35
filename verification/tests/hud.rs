//! The heads-up display.
use everly::hud::actor_inspector::{
    compose_panel, find_actor_root, tooltip_step, HoveredActor, InspectorTab, PanelBuildState,
    PanelStep, SelectedActor, TooltipStep,
};
use everly::hud::game_hud::{
    button_visuals, redraw_all, toggle_strategy_camera_view, update_fps_counter, ActiveFloorLevel,
    ButtonState, Paused, StrategyCameraViewMode,
};
use everly::hud::game_log::{GameLog, LogEntry, LogFrame, LogLevel, MAX_STORED_LOGS};
use everly::hud::leaderboard::{
    charge_cell, charge_color, health_status, leaderboard_row_click, leaderboard_stats, pct,
    rank_bots, refresh_due, spec_text_color, stat_lines, BotRow, BotSpecialization, Breakable,
    LeaderboardPanel, RowColor,
};
use everly::hud::overlays::{switch_label, sync_log_toggle_label, OverlaySwitch, OverlaysPanel};
use everly::hud::perf_timings::{refresh_after, PeakHold, SectionTime};
use everly::hud::subtile_debug::paint_subtile_grid;
use everly::map::dirt::DirtLedger;
use everly::map::hypermap::{ChunkCoord, Hypermap};
use everly::map::hypermap_world::streaming::HypermapChunkRemeshQueue;
use everly::map::passability::{
    SubtilePassability, FLAG_BLOCKED, FLAG_CREATURE, FLAG_VOID,
};

#[test]
fn render_matches_level_and_text() {
    let e = LogEntry::BotReroute { name: "Zippy".to_string() };
    assert_eq!(e.level(), LogLevel::Unexpected);
    assert_eq!(e.render(), "Zippy rerouting after collision");

    let e = LogEntry::ChargingStarted { name: "Bolt".to_string() };
    assert_eq!(e.level(), LogLevel::Info);
    assert_eq!(e.render(), "Bolt started charging");

    let e = LogEntry::ChargingDone { name: "Bolt".to_string() };
    assert_eq!(e.level(), LogLevel::Success);
    assert_eq!(e.render(), "Bolt finished charging");
}

#[test]
fn push_stores_without_rendering_and_marks_dirty() {
    let mut log = GameLog::default();
    assert!(!log.dirty);
    log.push(LogEntry::Message { level: LogLevel::Error, text: "boom".to_string() });
    assert_eq!(log.entries.len(), 1);
    // Stored in non-rendered form: no string was produced at push time.
    assert!(log.entries[0].rendered.is_none());
    assert!(log.dirty);
}

#[test]
fn push_caps_buffer_dropping_oldest() {
    let mut log = GameLog::default();
    for i in 0..(MAX_STORED_LOGS + 10) {
        log.push(LogEntry::Message { level: LogLevel::Info, text: format!("{i}") });
    }
    assert_eq!(log.entries.len(), MAX_STORED_LOGS);
    // Oldest ("0".."9") dropped; front is now entry index 10.
    assert_eq!(log.entries.front().unwrap().entry.render(), "10");
}

#[test]
fn log_lines_come_newest_first_and_only_when_they_changed() {
    let mut log = GameLog::default();
    log.push(LogEntry::ChargingStarted { name: "A".to_string() });
    log.push(LogEntry::Message { level: LogLevel::Warn, text: "low".to_string() });
    assert!(matches!(log.render_logs(), LogFrame::Hidden));
    log.toggle();
    assert!(log.is_enabled());
    match log.render_logs() {
        LogFrame::Lines(lines) => {
            assert_eq!(lines.len(), 2);
            assert_eq!(lines[0], (LogLevel::Warn, "low".to_string()));
            assert_eq!(lines[1], (LogLevel::Info, "A started charging".to_string()));
        }
        other => panic!("expected lines, got {other:?}"),
    }
    assert_eq!(log.entries[0].rendered.as_deref(), Some("A started charging"));
    assert!(matches!(log.render_logs(), LogFrame::Unchanged));
}

#[test]
fn log_lines_live_four_seconds() {
    let mut log = GameLog::default();
    log.push(LogEntry::ChargingDone { name: "A".to_string() });
    log.age_logs(3_000_000);
    log.push(LogEntry::ChargingDone { name: "B".to_string() });
    log.dirty = false;
    log.age_logs(0);
    log.age_logs(999_999);
    assert_eq!(log.entries.len(), 2);
    assert!(!log.dirty);
    log.age_logs(1);
    assert_eq!(log.entries.len(), 1);
    assert_eq!(log.entries[0].entry.render(), "B finished charging");
    assert_eq!(log.entries[0].age, 1_000_000);
    assert!(log.dirty);
    log.age_logs(u64::MAX);
    assert!(log.entries.is_empty());
}

#[test]
fn log_levels_have_their_colors() {
    assert_eq!(LogLevel::Error.color(), [95, 25, 25]);
    assert_eq!(LogLevel::Warn.color(), [97, 85, 30]);
    assert_eq!(LogLevel::Info.color(), [95, 96, 98]);
    assert_eq!(LogLevel::Success.color(), [35, 90, 45]);
    assert_eq!(LogLevel::Unexpected.color(), [55, 80, 100]);
}

#[test]
fn pct_rounds_and_guards_zero_total() {
    assert_eq!(pct(0, 0), 0);
    assert_eq!(pct(1, 3), 33);
    assert_eq!(pct(2, 3), 67);
    assert_eq!(pct(3, 3), 100);
}

#[test]
fn health_none_breakable_is_dash() {
    let (text, _) = health_status(None);
    assert_eq!(text, "—");
}

#[test]
fn health_intact_is_ok() {
    let b = Breakable::new();
    let (text, color) = health_status(Some(&b));
    assert_eq!(text, "OK");
    assert_eq!(color, RowColor::HealthOk);
}

#[test]
fn health_sensory_only_is_damaged_not_offline() {
    let mut b = Breakable::new();
    b.sensory_system.broken = true;
    let (text, color) = health_status(Some(&b));
    assert_eq!(text, "1 hit");
    assert_eq!(color, RowColor::HealthDamaged);
}

#[test]
fn health_movement_or_control_break_is_offline() {
    let mut b = Breakable::new();
    b.movement_engine.broken = true;
    b.sensory_system.broken = true;
    let (text, color) = health_status(Some(&b));
    assert_eq!(text, "OFFLINE (2)");
    assert_eq!(color, RowColor::HealthOffline);
}

#[test]
fn charge_color_thresholds() {
    assert_eq!(charge_color(1_000_000), RowColor::ChargeHigh);
    assert_eq!(charge_color(510_000), RowColor::ChargeHigh);
    assert_eq!(charge_color(500_000), RowColor::ChargeMid);
    assert_eq!(charge_color(210_000), RowColor::ChargeMid);
    assert_eq!(charge_color(200_000), RowColor::ChargeLow);
    assert_eq!(charge_color(0), RowColor::ChargeLow);
}

fn bot(actor: u64, charge: Option<u32>, stuck: bool, spec: BotSpecialization) -> BotRow {
    let mut parts = Breakable::new();
    parts.control_plane.broken = stuck;
    BotRow { actor, charge, breakable: Some(parts), spec }
}

#[test]
fn bots_are_counted_in_one_group_each() {
    let rows = vec![
        bot(1, Some(0), true, BotSpecialization::Patrol),
        bot(2, Some(5), true, BotSpecialization::Patrol),
        bot(3, Some(5), false, BotSpecialization::Fixer),
        bot(4, None, false, BotSpecialization::Cleaner),
        bot(5, None, false, BotSpecialization::DoNothing),
    ];
    let stats = leaderboard_stats(&rows);
    assert_eq!((stats.total, stats.discharged, stats.broken, stats.alive), (5, 1, 1, 3));
    assert_eq!((stats.idle, stats.patrol, stats.fixer, stats.cleaner), (1, 0, 1, 1));
    let lines = stat_lines(&stats);
    assert_eq!(lines[0], ("Total bots: 5".to_string(), RowColor::TextBright));
    assert_eq!(lines[1], ("Alive: 3 (60%)".to_string(), RowColor::HealthOk));
    assert_eq!(lines[2].0, "  DO_NOTHING 1   PATROL 0   FIXER 1   CLEANER 1");
    assert_eq!(lines[3], ("Broken: 1 (20%)".to_string(), RowColor::HealthDamaged));
    assert_eq!(lines[4], ("Discharged: 1 (20%)".to_string(), RowColor::HealthOffline));
}

#[test]
fn fullest_bots_stand_first_and_equals_keep_their_order() {
    let rows = vec![
        bot(1, Some(300_000), false, BotSpecialization::Patrol),
        bot(2, None, false, BotSpecialization::Patrol),
        bot(3, Some(300_000), false, BotSpecialization::Patrol),
        bot(4, Some(900_000), false, BotSpecialization::Patrol),
    ];
    assert_eq!(rank_bots(&rows), vec![1, 3, 0, 2]);
    assert_eq!(rank_bots(&Vec::new()), Vec::<usize>::new());
}

#[test]
fn charge_is_shown_in_whole_percent() {
    assert_eq!(charge_cell(Some(994_999)), ("99%".to_string(), RowColor::ChargeHigh));
    assert_eq!(charge_cell(Some(995_000)), ("100%".to_string(), RowColor::ChargeHigh));
    assert_eq!(charge_cell(None), ("—".to_string(), RowColor::TextMuted));
}

#[test]
fn roles_have_their_colors() {
    assert_eq!(spec_text_color(BotSpecialization::DoNothing), RowColor::TextMuted);
    assert_eq!(spec_text_color(BotSpecialization::Fixer).rgba(), [100, 42, 42, 100]);
}

#[test]
fn leaderboard_rows_are_built_on_opening_and_at_refreshes() {
    let mut was_open = false;
    assert!(!refresh_due(&mut was_open, false, true));
    assert!(refresh_due(&mut was_open, true, false));
    assert!(!refresh_due(&mut was_open, true, false));
    assert!(refresh_due(&mut was_open, true, true));
    assert!(!refresh_due(&mut was_open, false, true));
    assert!(refresh_due(&mut was_open, true, false));
}

#[test]
fn clicking_a_row_selects_a_bot_that_exists() {
    let mut selection = SelectedActor::default();
    let mut panel = LeaderboardPanel::default();
    panel.toggle();
    leaderboard_row_click(&mut selection, &mut panel, 7, false);
    assert!(panel.open && !selection.is_some());
    leaderboard_row_click(&mut selection, &mut panel, 7, true);
    assert!(!panel.open);
    assert_eq!(selection.entity, Some(7));
}

#[test]
fn the_nearest_inspectable_ancestor_is_the_root() {
    assert_eq!(find_actor_root(&vec![(3, false), (2, true), (1, true)]), Some(2));
    assert_eq!(find_actor_root(&vec![(3, false)]), None);
}

#[test]
fn hovering_follows_the_pick_mesh() {
    let mut hovered = HoveredActor::default();
    hovered.pointer_over(9, false, Some(1));
    assert_eq!(hovered.root, None);
    hovered.pointer_over(9, true, Some(1));
    assert_eq!((hovered.root, hovered.pick_mesh), (Some(1), Some(9)));
    hovered.pointer_out(8, true);
    assert_eq!(hovered.root, Some(1));
    hovered.pointer_out(9, true);
    assert_eq!((hovered.root, hovered.pick_mesh), (None, None));
}

#[test]
fn the_hover_label_needs_everything() {
    assert_eq!(tooltip_step(true, true, true, true, true, true), TooltipStep::Show);
    assert_eq!(tooltip_step(true, true, true, true, false, true), TooltipStep::Keep);
    assert_eq!(tooltip_step(true, true, true, true, true, false), TooltipStep::Hide);
    assert_eq!(tooltip_step(false, true, true, true, false, true), TooltipStep::Hide);
}

#[test]
fn killing_the_selected_bot_deselects_it() {
    let mut selection = SelectedActor::default();
    assert!(!selection.click(5, false));
    assert!(selection.click(6, true));
    assert_eq!(selection.entity, Some(5));
    assert!(selection.click(5, true));
    assert_eq!(selection.entity, None);
    assert_eq!(selection.delete(), None);
}

#[test]
fn pressing_another_tab_rebuilds_the_panel() {
    let mut selection = SelectedActor { entity: Some(1), content_stamp: u32::MAX };
    let mut tab = InspectorTab::default();
    selection.press_tab(&mut tab, InspectorTab::Status);
    assert_eq!(selection.content_stamp, u32::MAX);
    selection.press_tab(&mut tab, InspectorTab::Debug);
    assert_eq!(tab, InspectorTab::Debug);
    assert_eq!(selection.content_stamp, 0);
    assert_eq!(selection.press_actor_switch(Some(true)), Some(false));
    assert_eq!(selection.press_actor_switch(None), None);
    assert!(!selection.press_reset(false));
    assert!(selection.press_reset(true));
    assert_eq!(selection.content_stamp, 2);
    let mut map = false;
    selection.press_subtile_debug(&mut map);
    assert!(map);
    selection.clear_dead_selection(true);
    assert!(selection.is_some());
    selection.clear_dead_selection(false);
    assert!(!selection.is_some());
}

#[test]
fn the_panel_is_built_when_something_changed() {
    let mut state = PanelBuildState::default();
    let mut selection = SelectedActor::default();
    assert_eq!(state.step(&selection, true, true, true), PanelStep::Hide);
    selection.entity = Some(4);
    assert_eq!(state.step(&selection, false, false, false), PanelStep::Rebuild(4));
    assert_eq!(state.step(&selection, false, false, false), PanelStep::Keep);
    assert_eq!(state.step(&selection, true, false, false), PanelStep::Rebuild(4));
    selection.touch();
    assert_eq!(state.step(&selection, false, false, false), PanelStep::Rebuild(4));
    selection.close();
    assert_eq!(state.step(&selection, false, false, false), PanelStep::Hide);
    assert_eq!(state.last_actor, None);
}

#[test]
fn panel_rows_are_divided_and_empty_tabs_say_so() {
    let rows = vec![
        ("Charge".to_string(), "80%".to_string()),
        ("Task".to_string(), "idle".to_string()),
    ];
    let body = compose_panel(InspectorTab::Status, Some("Bolt"), &rows, false, false);
    assert_eq!((body.badge.as_str(), body.title.as_str()), ("BlackBot", "Bolt"));
    assert!(body.rows[0].divider && !body.rows[1].divider);
    assert_eq!(body.rows[1].value, "idle");
    assert!(body.switches.is_empty() && body.note.is_none());
    let body = compose_panel(InspectorTab::Debug, None, &Vec::new(), true, false);
    assert_eq!(body.title, "(unnamed)");
    assert_eq!(body.note.as_deref(), Some("No data for this tab."));
    assert_eq!(body.switches[0], ("Force logs: ON".to_string(), true));
    assert_eq!(body.switches[1], ("Subtile map: OFF".to_string(), false));
}

#[test]
fn floors_stop_at_both_ends() {
    let mut floor = ActiveFloorLevel(0);
    floor.down();
    assert_eq!(floor.0, 0);
    floor.up();
    assert_eq!(floor.readout(), "Floor 1");
    floor = ActiveFloorLevel(9);
    floor.up();
    assert_eq!(floor.0, 9);
    floor.down();
    assert_eq!(floor.0, 8);
}

#[test]
fn switches_show_their_state() {
    assert_eq!(
        toggle_strategy_camera_view(StrategyCameraViewMode::Strategy),
        StrategyCameraViewMode::TopDown
    );
    let mut paused = Paused(false);
    assert_eq!(paused.label(), "Pause");
    paused.toggle();
    assert_eq!(paused.label(), "Resume");
    let mut panel = OverlaysPanel::default();
    assert_eq!(panel.button_label(), "Overlays");
    panel.toggle();
    assert_eq!(panel.button_label(), "Overlays *");
    panel.close();
    assert!(!panel.open);
    assert_eq!(switch_label(OverlaySwitch::Occupancy, true), "Occ: On");
    assert_eq!(switch_label(OverlaySwitch::Ambient, false), "Ambient: Off");
    let mut last = None;
    assert_eq!(sync_log_toggle_label(&mut last, false).as_deref(), Some("Log: Off"));
    assert_eq!(sync_log_toggle_label(&mut last, false), None);
    assert_eq!(button_visuals(ButtonState::Hovered).0, [26, 29, 35, 72]);
}

#[test]
fn the_frame_counter_changes_with_the_number() {
    let mut last = 0;
    assert_eq!(update_fps_counter(&mut last, 0), None);
    assert_eq!(update_fps_counter(&mut last, 16_666_667).as_deref(), Some("60 fps"));
    assert_eq!(update_fps_counter(&mut last, 16_600_000), None);
    assert_eq!(update_fps_counter(&mut last, u64::MAX).as_deref(), Some("0 fps"));
}

#[test]
fn redrawing_touches_every_desired_chunk_once() {
    let desired = vec![ChunkCoord::new(0, 0), ChunkCoord::new(-1, 0)];
    let mut dirt = DirtLedger::new();
    let mut heat = DirtLedger::new();
    let mut remesh = HypermapChunkRemeshQueue::default();
    dirt.mark_dirty(ChunkCoord::new(0, 0));
    redraw_all(&desired, &mut dirt, &mut heat, &mut remesh);
    assert_eq!(dirt.take_dirty_chunks(), desired);
    assert_eq!(heat.take_dirty_chunks(), desired);
    assert_eq!(remesh.0, desired);
}

#[test]
fn peaks_are_held_for_a_second() {
    let mut held = PeakHold::default();
    held.update(50, 250_000);
    held.update(20, 999_999);
    assert_eq!((held.peak_ns, held.age_us), (50, 999_999));
    held.update(20, 1);
    assert_eq!((held.peak_ns, held.age_us), (0, 0));
    let mut time = SectionTime { last_ns: 0, peak_ns: 0 };
    time.record(9);
    time.record(4);
    assert_eq!((time.last_ns, time.take_peak(), time.peak_ns), (4, 9, 0));
    let mut elapsed = 0;
    assert_eq!(refresh_after(&mut elapsed, 200_000), None);
    assert_eq!(refresh_after(&mut elapsed, 50_000), Some(250_000));
    assert_eq!(elapsed, 0);
}

#[test]
fn the_grid_around_a_bot_shows_walls_bodies_and_the_bot() {
    let mut world: Hypermap<SubtilePassability> = Hypermap::new(SubtilePassability::empty());
    let mut bodies: Hypermap<SubtilePassability> = Hypermap::new(SubtilePassability::empty());
    let mut wall = SubtilePassability::empty();
    wall.or_flags(0, 4, FLAG_BLOCKED);
    wall.or_flags(4, 0, FLAG_VOID);
    world.set(9, 9, wall);
    let mut body = SubtilePassability::empty();
    body.or_flags(0, 4, FLAG_CREATURE | FLAG_BLOCKED);
    bodies.set(9, 9, body);
    let data = paint_subtile_grid(&world, &bodies, (10, 10), (52, 52));
    assert_eq!(data.len(), 900);
    let texel = |px: usize, py: usize| data[(py * 15 + px) * 4..(py * 15 + px) * 4 + 4].to_vec();
    assert_eq!(texel(4, 0), vec![225, 70, 70, 255]);
    assert_eq!(texel(0, 4), vec![55, 95, 215, 255]);
    assert_eq!(texel(7, 7), vec![70, 235, 110, 255]);
    assert_eq!(texel(14, 14), vec![26, 28, 34, 235]);
}
