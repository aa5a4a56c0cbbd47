use dockviewers_core::model::packed::{DragSource, DropTarget, GridState, PackedGrid};
use dockviewers_core::model::serial::{LoadError, Serialized, SCHEMA_VERSION};
use dockviewers_core::{Breakpoint, Config, Group, GroupId, PackedState, PanelId, SlotPlace};

fn pid(s: &str) -> PanelId {
    PanelId(s.to_string())
}

/// A measured desktop state (64 columns) with two tiles: `a` (16×9) and `b` (8×6, tabs b, c).
fn desk() -> PackedState {
    let mut s = PackedState::new(Config::default());
    s.set_measure(1600);
    assert!(s.take_ready());
    let a = s.mint_group_id();
    s.place(Group::new(a, pid("a")), 16, 9, (1, 1));
    let b = s.mint_group_id();
    s.place(Group::new(b, pid("b")), 8, 6, (1, 1));
    s.add_tab(b, pid("c"));
    s
}

fn titles() -> Vec<(PanelId, String)> {
    vec![(pid("a"), "Alpha".to_string()), (pid("b"), "Beta".to_string()), (pid("c"), "Gamma".to_string())]
}

#[test]
fn new_state_defaults() {
    let s = PackedState::new(Config::default());
    assert_eq!(s.cols(), 64);
    assert_eq!(s.breakpoint(), Breakpoint::Xl);
    assert!(s.grid().cells.is_empty());
    assert!(!s.dragging() && !s.resizing() && !s.help_open());
    assert_eq!(s.focused(), None);
    let mut cfg = Config::default();
    cfg.steps = 0;
    assert_eq!(PackedState::new(cfg).cols(), 1, "at least one column");
}

#[test]
fn ready_latch_fires_once_after_measure() {
    let mut s = PackedState::new(Config::default());
    assert!(!s.take_ready(), "no measure yet");
    s.set_measure(800);
    assert!(s.take_ready());
    assert!(!s.take_ready(), "fires once");
}

#[test]
fn measure_scales_columns_per_band() {
    let mut s = PackedState::new(Config::default());
    s.set_measure(500);
    assert_eq!((s.breakpoint(), s.cols()), (Breakpoint::Xs, 23));
    s.set_measure(800);
    assert_eq!((s.breakpoint(), s.cols()), (Breakpoint::Md, 40));
    s.set_measure(1300);
    assert_eq!((s.breakpoint(), s.cols()), (Breakpoint::Xl, 64));
}

#[test]
fn measure_reflows_into_narrower_band_and_back() {
    let mut s = desk();
    let wide = s.grid().clone();
    s.set_measure(500);
    assert!(s.grid().cells.iter().all(|c| c.x + c.w <= 23), "no tile spills past the narrow view");
    // Measuring the same width again changes nothing.
    let narrow = s.grid().clone();
    s.set_measure(500);
    assert_eq!(s.grid(), &narrow);
    s.set_measure(1600);
    assert_eq!(s.grid(), &wide, "back in the wide band the arrangement returns");
}

#[test]
fn measure_path_independent() {
    let mut via = desk();
    via.set_measure(500);
    via.set_measure(800);
    let mut direct = desk();
    direct.set_measure(800);
    assert_eq!(via.grid(), direct.grid());
}

#[test]
fn place_packs_beside() {
    let s = desk();
    let g = s.grid();
    assert_eq!((g.cells[0].x, g.cells[0].y, g.cells[0].w, g.cells[0].h), (0, 0, 16, 9));
    assert_eq!((g.cells[1].x, g.cells[1].y, g.cells[1].w, g.cells[1].h), (16, 0, 8, 6));
    assert_eq!(g.cells[1].group.tabs, vec![pid("b"), pid("c")]);
    assert_eq!(g.cells[1].group.active, 1);
}

#[test]
fn undo_redo_walks_captured_layouts() {
    let mut s = PackedState::new(Config::default());
    s.set_measure(1600);
    let a = s.mint_group_id();
    s.place(Group::new(a, pid("a")), 16, 9, (1, 1));
    assert!(s.wants_undo_snapshot());
    s.capture_undo();
    assert!(!s.wants_undo_snapshot(), "already captured");
    let first = s.grid().clone();
    let b = s.mint_group_id();
    s.place(Group::new(b, pid("b")), 8, 6, (1, 1));
    s.capture_undo();
    let second = s.grid().clone();

    let o = s.on_key("u", false, false, None).expect("undo is built in");
    assert!(o.prevent_default);
    assert_eq!(s.grid(), &first);
    s.on_key("u", false, false, None);
    assert_eq!(s.grid(), &first, "nothing before the first snapshot");
    s.on_key("U", false, false, None);
    assert_eq!(s.grid(), &second);
    s.on_key("U", false, false, None);
    assert_eq!(s.grid(), &second, "nothing after the last snapshot");
}

#[test]
fn undo_restores_capture_reflowed_into_live_band() {
    let mut s = desk();
    s.capture_undo();
    let captured = s.grid().clone();
    s.close_active(GroupId(0));
    s.capture_undo();
    s.set_measure(500);
    s.on_key("u", false, false, None);
    let mut expect = captured.clone();
    expect.refit(23);
    assert_eq!(s.grid(), &expect);
}

#[test]
fn no_snapshot_mid_gesture_or_when_empty() {
    let mut s = PackedState::new(Config::default());
    s.set_measure(1600);
    assert!(!s.wants_undo_snapshot(), "an empty layout is not worth a snapshot");
    let mut s = desk();
    s.press_tile(GroupId(0));
    assert!(!s.wants_undo_snapshot(), "no snapshot while a drag is in flight");
    s.drag_cancel();
    s.resize_start(0);
    assert!(!s.wants_undo_snapshot(), "no snapshot mid-resize");
    s.capture_undo();
    s.resize_end();
    assert!(s.wants_undo_snapshot());
}

#[test]
fn press_and_cancel_keep_layout() {
    let mut s = desk();
    let before = s.grid().clone();
    s.press_tile(GroupId(1));
    assert_eq!(s.grid(), &before, "a press never touches the layout");
    assert_eq!(s.focused(), Some(GroupId(1)));
    assert!(s.dragging());
    assert_eq!(s.drag_move(false, 30, 20, None), None, "below the threshold nothing arms");
    assert!(s.ghost(&titles()).is_none());
    s.drag_move(true, 30, 20, None);
    assert!(s.ghost(&titles()).is_some(), "armed past the threshold");
    assert_eq!(s.grid(), &before, "moving never touches the layout");
    s.drag_cancel();
    assert!(!s.dragging());
    assert_eq!(s.grid(), &before, "cancel is a no-op");
}

#[test]
fn unarmed_tab_release_activates_it() {
    let mut s = desk();
    let before = s.grid().clone();
    s.press_tab(pid("b"), GroupId(1));
    s.drag_release();
    assert!(!s.dragging());
    let mut expect = before.clone();
    expect.cells[1].group.active = 0;
    assert_eq!(s.grid(), &expect, "a click only activates the tab");
}

#[test]
fn armed_release_commits_preview_drop() {
    let mut s = desk();
    s.press_tile(GroupId(1));
    assert_eq!(s.drag_move(true, 0, 9, None), None);
    assert!(s.can_release());
    // The preview (frames) shows the tile landing under `a`, as a shadow.
    let frames = s.frames(&titles());
    let shadow: Vec<_> = frames.iter().filter(|f| f.shadow).collect();
    assert_eq!(shadow.len(), 1);
    assert_eq!((shadow[0].gid, shadow[0].x, shadow[0].y), (GroupId(1), 0, 9));
    let mut expect = s.grid().clone();
    expect.drop(DragSource::Tile(GroupId(1)), DropTarget::Pack { x: 0 }, 64);
    s.drag_release();
    assert_eq!(s.grid(), &expect);
    let moved = s.grid().cells.iter().find(|c| c.group.id == GroupId(1)).expect("moved tile");
    assert_eq!((moved.x, moved.y), (0, 9));
}

#[test]
fn joining_drag_reports_group_and_takes_slot() {
    let mut s = desk();
    s.press_tile(GroupId(0));
    assert_eq!(s.drag_move(true, 16, 0, Some((1, true))), Some(GroupId(1)));
    s.set_tab_slot(1);
    let frames = s.frames(&titles());
    assert_eq!(frames.iter().filter(|f| f.tab_drop).count(), 1);
    let carried = s.carried().expect("the tile carries its tabs");
    assert_eq!(carried, vec![pid("a")]);
    s.drag_release();
    assert_eq!(s.grid().cells.len(), 1);
    assert_eq!(s.grid().cells[0].group.tabs, vec![pid("b"), pid("a"), pid("c")]);
    assert_eq!(s.grid().cells[0].group.active, 1);
}

#[test]
fn tearing_a_tab_makes_new_tile() {
    let mut s = desk();
    s.press_tab(pid("c"), GroupId(1));
    assert_eq!(s.carried().expect("a torn tab"), vec![pid("c")]);
    s.drag_move(true, 40, 0, None);
    let ghost = s.ghost(&titles()).expect("armed");
    assert_eq!((ghost.title.as_str(), ghost.w, ghost.h), ("Gamma", 8, 6));
    s.drag_release();
    let g = s.grid();
    assert_eq!(g.cells.len(), 3);
    let torn = g.cells.iter().find(|c| c.group.tabs == vec![pid("c")]).expect("torn tile");
    assert_eq!((torn.group.id, torn.x, torn.y, torn.w, torn.h), (GroupId(2), 40, 0, 8, 6));
    assert_eq!(g.next_group_id, 3);
}

#[test]
fn resize_gesture() {
    let mut s = desk();
    s.resize_start(0);
    assert!(s.resizing());
    assert_eq!(s.grid().state, GridState::Resizing);
    s.resize_move(4, -3);
    assert_eq!((s.grid().cells[0].w, s.grid().cells[0].h), (20, 6));
    s.resize_move(-100, -100);
    assert_eq!((s.grid().cells[0].w, s.grid().cells[0].h), (1, 1), "at least one step");
    s.resize_end();
    assert!(!s.resizing());
    assert_eq!(s.grid().state, GridState::Settled);
    s.resize_end();
    assert_eq!(s.grid().state, GridState::Settled, "ending twice is harmless");
}

#[test]
fn view_keys_keep_layout() {
    let mut s = desk();
    let before = s.grid().clone();
    assert!(!s.on_key("f", false, false, None).expect("built in").prevent_default, "no focus, nothing to maximize");
    s.focus(GroupId(1));
    assert!(s.on_key("f", false, false, None).expect("built in").prevent_default);
    assert_eq!(s.maximized(), Some(GroupId(1)));
    s.on_key("?", false, false, None);
    assert!(s.help_open());
    s.on_key("d", false, false, None);
    assert_eq!(s.inspect(), vec![(16, 0, 8, 6)], "inspect follows the maximized pane");
    s.on_key("Escape", false, false, None);
    assert!(!s.help_open());
    assert!(s.inspect().is_empty());
    s.on_key("f", false, false, None);
    assert_eq!(s.maximized(), None);
    s.on_key("d", false, false, Some(GroupId(0)));
    assert_eq!(s.inspect(), vec![(0, 0, 16, 9)]);
    s.on_key("d", false, false, Some(GroupId(0)));
    assert!(s.inspect().is_empty(), "the inspect chord toggles");
    assert!(s.on_key("x", false, false, None).is_none(), "not a built-in chord");
    assert!(!s.on_key("Escape", false, false, None).is_some(), "Escape with nothing open is not built in");
    s.close_help();
    assert_eq!(s.grid(), &before);
}

#[test]
fn close_chord_clears_focus_and_maximize_of_gone_pane() {
    let mut s = desk();
    s.focus(GroupId(0));
    s.on_key("f", false, false, None);
    assert!(s.can_key("Backspace", false, false));
    assert!(s.on_key("Backspace", false, false, None).expect("built in").prevent_default);
    assert_eq!(s.grid().cells.len(), 1);
    assert_eq!(s.focused(), None);
    assert_eq!(s.maximized(), None);
    assert!(!s.on_key("Backspace", false, false, None).expect("built in").prevent_default);
    s.focus(GroupId(0));
    assert!(!s.can_key("Backspace", false, false), "closing a pane that is gone cannot run");
}

#[test]
fn close_keeps_pane_with_tabs_left() {
    let mut s = desk();
    s.focus(GroupId(1));
    s.on_key("Backspace", false, false, None);
    assert_eq!(s.grid().cells.len(), 2);
    assert_eq!(s.grid().cells[1].group.tabs, vec![pid("b")]);
    assert_eq!(s.focused(), Some(GroupId(1)));
}

#[test]
fn frames_and_slots_render_the_layout() {
    let mut s = desk();
    let frames = s.frames(&titles());
    assert_eq!(frames.len(), 2);
    assert_eq!((frames[0].gid, frames[0].idx, frames[0].x, frames[0].y, frames[0].w, frames[0].h), (GroupId(0), 0, 0, 0, 16, 9));
    assert!(!frames[0].fill && !frames[0].shadow && !frames[0].tab_drop);
    let tabs: Vec<(&str, &str, bool)> = frames[1].tabs.iter().map(|t| (t.id.0.as_str(), t.title.as_str(), t.active)).collect();
    assert_eq!(tabs, vec![("b", "Beta", false), ("c", "Gamma", true)]);

    let slots = s.content_slots();
    let view: Vec<(&str, SlotPlace, GroupId)> = slots.iter().map(|(p, c)| (p.0.as_str(), c.place, c.group)).collect();
    assert_eq!(
        view,
        vec![
            ("a", SlotPlace::Rect { x: 0, y: 0, w: 16, h: 9 }, GroupId(0)),
            ("b", SlotPlace::Hidden, GroupId(1)),
            ("c", SlotPlace::Rect { x: 16, y: 0, w: 8, h: 6 }, GroupId(1)),
        ]
    );

    s.focus(GroupId(1));
    s.on_key("f", false, false, None);
    let frames = s.frames(&titles());
    assert_eq!(frames.len(), 1, "a maximized pane hides the rest");
    assert!(frames[0].fill);
    let places: Vec<SlotPlace> = s.content_slots().iter().map(|(_, c)| c.place).collect();
    assert_eq!(places, vec![SlotPlace::Hidden, SlotPlace::Hidden, SlotPlace::Fill]);
}

#[test]
fn untitled_panels_get_empty_label() {
    let s = desk();
    let frames = s.frames(&Vec::new());
    assert!(frames.iter().all(|f| f.tabs.iter().all(|t| t.title.is_empty())));
    assert_eq!(dockviewers_core::state::title_lookup(&titles(), &pid("b")), "Beta");
    assert_eq!(dockviewers_core::state::title_lookup(&titles(), &pid("zz")), "");
}

#[test]
fn dragged_tabs_are_hidden_from_overlay() {
    let mut s = desk();
    s.press_tile(GroupId(1));
    s.drag_move(true, 40, 0, None);
    let slots = s.content_slots();
    let hidden: Vec<&str> = slots.iter().filter(|(_, c)| c.place == SlotPlace::Hidden).map(|(p, _)| p.0.as_str()).collect();
    assert_eq!(hidden, vec!["b", "c"]);
}

#[test]
fn help_rows_list_chords() {
    let s = PackedState::new(Config::default());
    let rows: Vec<(&str, String)> = s.help_rows();
    let want = vec![
        ("Undo", "u"),
        ("Redo", "U"),
        ("Close pane", "Backspace"),
        ("Maximize pane", "f"),
        ("Toggle this hint", "?"),
        ("Inspect pane", "d"),
    ];
    let got: Vec<(&str, &str)> = rows.iter().map(|(l, c)| (*l, c.as_str())).collect();
    assert_eq!(got, want);
    let mut cfg = Config::default();
    cfg.keybinds.undo = dockviewers_core::Keybind { key: "z", alt: true, ctrl: true };
    assert_eq!(PackedState::new(cfg).help_rows()[0].1, "Ctrl+Alt+z");
}

#[test]
fn save_and_load() {
    let mut s = desk();
    let saved = s.save();
    assert_eq!(saved.version, SCHEMA_VERSION);
    assert_eq!(&saved.grid, s.grid());

    let mut fresh = PackedState::new(Config::default());
    fresh.set_measure(1600);
    fresh.load(Ok(saved)).expect("our own save loads");
    assert_eq!(fresh.grid(), s.grid(), "save/load into the same view reproduces the layout");

    let before = s.grid().clone();
    let newer = Serialized { version: SCHEMA_VERSION + 1, grid: PackedGrid::default() };
    assert!(matches!(s.load(Ok(newer)), Err(LoadError::FutureVersion(v)) if v == SCHEMA_VERSION + 1));
    assert_eq!(s.grid(), &before, "a refused payload leaves the layout alone");
    let err = serde_json::from_str::<serde_json::Value>("{").expect_err("truncated");
    assert!(matches!(s.load(Err(err)), Err(LoadError::Parse(_))));
    assert_eq!(s.grid(), &before);

    // A wide layout loaded into a narrow view is reflowed into it.
    let mut narrow = PackedState::new(Config::default());
    narrow.set_measure(500);
    narrow.load(Ok(s.save())).expect("loads");
    assert!(narrow.grid().cells.iter().all(|c| c.x + c.w <= 23));
}

#[test]
fn reset_and_mint() {
    let mut s = desk();
    assert_eq!(s.mint_group_id(), GroupId(2));
    s.reset();
    assert!(s.grid().cells.is_empty());
    assert_eq!(s.mint_group_id(), GroupId(0));
}

#[test]
fn resize_through_state_api() {
    let mut s = desk();
    s.resize(1, 8, 12);
    assert_eq!((s.grid().cells[1].w, s.grid().cells[1].h), (8, 12));
    assert!(s.grid().overlaps().is_none());
    assert_eq!(s.config().steps, 64);
}

/// Saves `s` and loads it into a fresh reducer measured at `width_px`.
fn reloaded(s: &PackedState, width_px: u64) -> PackedState {
    let mut fresh = PackedState::new(Config::default());
    fresh.set_measure(width_px);
    fresh.load(Ok(s.save())).expect("our own save loads");
    fresh
}

#[test]
fn reload_after_each_edit_reproduces_layout() {
    let mut s = desk();
    let check = |s: &PackedState, what: &str| {
        assert_eq!(reloaded(s, 1600).grid(), s.grid(), "reload after {what}");
    };
    check(&s, "placing and adding a tab");
    s.capture_undo();
    s.resize_start(0);
    s.resize_move(6, 2);
    s.resize_end();
    check(&s, "a grip resize");
    s.capture_undo();
    s.press_tile(GroupId(1));
    s.drag_move(true, 0, 40, None);
    s.drag_release();
    check(&s, "a packing drop");
    s.press_tab(pid("c"), GroupId(1));
    s.drag_move(true, 30, 0, None);
    s.drag_release();
    check(&s, "tearing a tab off");
    s.press_tile(GroupId(2));
    s.drag_move(true, 0, 0, Some((0, true)));
    s.drag_release();
    check(&s, "joining a pane");
    s.focus(GroupId(0));
    assert!(s.can_key("Backspace", false, false));
    s.on_key("Backspace", false, false, None);
    check(&s, "closing a tab");
    s.capture_undo();
    s.on_key("u", false, false, None);
    check(&s, "an undo");
    s.set_measure(500);
    s.set_measure(1600);
    check(&s, "a band change and back");
    s.set_measure(500);
    assert_eq!(reloaded(&s, 500).grid(), s.grid(), "reload in the narrow band");
}

#[test]
fn place_raises_tile_to_its_minimum() {
    let mut s = PackedState::new(Config::default());
    s.set_measure(1600);
    let a = s.mint_group_id();
    s.place(Group::new(a, pid("a")), 3, 2, (5, 4));
    let c = &s.grid().cells[0];
    assert_eq!((c.w, c.h, c.desired_w), (5, 4, None), "the asked size is raised to the minimum");
    assert_eq!(reloaded(&s, 1600).grid(), s.grid(), "and a reload gives it back as it is");
    // Wider than a narrow view: clamped, the wanted width remembered.
    let mut n = PackedState::new(Config::default());
    n.set_measure(500);
    let b = n.mint_group_id();
    n.place(Group::new(b, pid("b")), 2, 2, (40, 1));
    let c = &n.grid().cells[0];
    assert_eq!((c.w, c.desired_w), (23, Some(40)));
}

#[test]
fn armed_drag_marks_exactly_one_tile() {
    // A packing move: the moved tile is the one shadow.
    let mut s = desk();
    s.press_tile(GroupId(0));
    s.drag_move(true, 40, 30, None);
    let marks = |s: &PackedState| s.frames(&titles()).iter().filter(|f| f.shadow || f.tab_drop).count();
    assert_eq!(marks(&s), 1);
    s.drag_cancel();
    // A join: the joined header is the one mark.
    s.press_tab(pid("c"), GroupId(1));
    s.drag_move(true, 0, 0, Some((0, true)));
    assert_eq!(marks(&s), 1);
    assert_eq!(s.frames(&titles()).iter().filter(|f| f.tab_drop).count(), 1);
    s.drag_cancel();
    // A torn tab: the new tile holding it is the one shadow.
    s.press_tab(pid("c"), GroupId(1));
    s.drag_move(true, 50, 0, None);
    assert_eq!(marks(&s), 1);
    // Unarmed, nothing is marked.
    s.drag_cancel();
    s.press_tile(GroupId(1));
    assert_eq!(marks(&s), 0);
}

#[test]
fn identities_stay_distinct_through_edits() {
    let mut s = desk();
    s.press_tab(pid("c"), GroupId(1));
    s.drag_move(true, 40, 0, None);
    s.drag_release();
    s.press_tile(GroupId(2));
    s.drag_move(true, 0, 0, Some((0, true)));
    s.drag_release();
    let g = s.grid();
    let mut ids: Vec<u64> = g.cells.iter().map(|c| c.group.id.0).collect();
    ids.sort();
    ids.dedup();
    assert_eq!(ids.len(), g.cells.len(), "no two tiles host the same group");
    assert!(g.cells.iter().all(|c| c.group.id.0 < g.next_group_id), "every id is minted");
    let mut panels: Vec<String> = g.cells.iter().flat_map(|c| c.group.tabs.iter().map(|p| p.0.clone())).collect();
    let n = panels.len();
    panels.sort();
    panels.dedup();
    assert_eq!(panels.len(), n, "no panel occurs twice");
    assert_eq!(n, 3);
}

#[test]
fn tiles_keep_their_minimums() {
    let mut s = PackedState::new(Config::default());
    s.set_measure(1600);
    let a = s.mint_group_id();
    s.place(Group::new(a, pid("a")), 12, 6, (8, 4));
    s.resize(0, 2, 1);
    let c = &s.grid().cells[0];
    assert_eq!((c.w, c.h), (8, 4), "a resize stops at the minimum");
    s.set_measure(500);
    let c = &s.grid().cells[0];
    assert!(c.w >= 8 && c.h >= 4);
}

#[test]
fn many_resizes_away_and_back_leave_no_change() {
    let mut s = desk();
    let wide = s.grid().clone();
    for w in [500u64, 800, 1000, 500, 1300, 700] {
        s.set_measure(w);
    }
    s.set_measure(1600);
    assert_eq!(s.grid(), &wide);
}

#[test]
fn default_config_binds_the_documented_chords() {
    let cfg = Config::default();
    let k = cfg.keybinds;
    assert_eq!((k.undo.key, k.redo.key, k.close.key, k.maximize.key, k.help.key), ("u", "U", "Backspace", "f", "?"));
    assert!(k.save.alt && k.publish.alt && k.save.key == "s" && k.publish.key == "S");
    let s = PackedState::new(cfg);
    let rows: Vec<(&str, String)> = s.help_rows();
    assert_eq!(
        rows,
        vec![
            ("Undo", "u".to_string()),
            ("Redo", "U".to_string()),
            ("Close pane", "Backspace".to_string()),
            ("Maximize pane", "f".to_string()),
            ("Toggle this hint", "?".to_string()),
            ("Inspect pane", "d".to_string()),
        ]
    );
}
