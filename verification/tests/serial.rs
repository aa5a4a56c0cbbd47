use dockviewers_core::model::packed::PackedGrid;
use dockviewers_core::model::serial::{envelope, open_envelope, LoadError, Serialized, SCHEMA_VERSION};
use dockviewers_core::{Group, GroupId, PanelId};

/// A non-trivial grid driven through the real API.
fn sample() -> PackedGrid {
    let mut g = PackedGrid::default();
    let gid = g.mint_group_id();
    g.place(Group::new(gid, PanelId("a".into())), 3, 2, (1, 1), 6);
    let gid = g.mint_group_id();
    g.place(Group::new(gid, PanelId("b".into())), 2, 4, (1, 1), 6);
    g.add_tab(GroupId(0), PanelId("c".into()));
    g
}

#[test]
fn round_trips() {
    let g = sample();
    let saved = envelope(g.clone());
    assert_eq!(saved.version, SCHEMA_VERSION);
    assert_eq!(open_envelope(Ok(saved)).expect("loads"), g, "round-trip must preserve the grid (incl. next_group_id)");
}

#[test]
fn future_version_errors_not_resets() {
    let newer = Serialized { version: SCHEMA_VERSION + 1, grid: sample() };
    assert!(matches!(open_envelope(Ok(newer)), Err(LoadError::FutureVersion(v)) if v == SCHEMA_VERSION + 1));
}

#[test]
fn garbage_errors() {
    let err = serde_json::from_str::<serde_json::Value>("not json").expect_err("not json does not parse");
    assert!(matches!(open_envelope(Err(err)), Err(LoadError::Parse(_))));
}

#[test]
fn current_and_older_versions_load() {
    let older = Serialized { version: 0, grid: sample() };
    assert_eq!(open_envelope(Ok(older)).expect("an older payload loads"), sample());
}
