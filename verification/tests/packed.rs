use dockviewers_core::model::packed::{pack, Cell, DragSource, DropTarget, PackedGrid};
use dockviewers_core::{Group, GroupId, PanelId};

fn cell(x: u32, y: u32, w: u32, h: u32) -> Cell {
    Cell {
        group: Group::new(GroupId(0), PanelId("p".into())),
        x,
        y,
        w,
        h,
        min_w: 1,
        min_h: 1,
        desired_w: None,
        desired_x: None,
        rank: 0,
    }
}

fn no_overlap(cells: &[Cell]) {
    for (i, a) in cells.iter().enumerate() {
        for b in &cells[i + 1..] {
            assert!(
                !(a.x < b.x + b.w && b.x < a.x + a.w && a.y < b.y + b.h && b.y < a.y + a.h),
                "tiles overlap: {a:?} vs {b:?}"
            );
        }
    }
}

/// A grid whose cells carry distinct group ids, so drops can address them by id.
fn grid_with(cells: Vec<Cell>) -> PackedGrid {
    let mut g = PackedGrid::default();
    g.cells = cells;
    for (n, c) in g.cells.iter_mut().enumerate() {
        c.group.id = GroupId(n as u64);
    }
    g.next_group_id = g.cells.len() as u64;
    g
}

#[test]
fn pack_skyline() {
    assert_eq!(pack(&[], 2, 2, 6), (0, 0), "empty grid → origin");

    // A tall cell on the left: a new tile nestles into the gap beside it, leftmost free column.
    let tall = [cell(0, 0, 2, 4)];
    assert_eq!(pack(&tall, 2, 2, 6), (2, 0), "nestle beside the tall cell, leftmost");

    // No horizontal room: forced to stack below.
    let full = [cell(0, 0, 6, 4)];
    assert_eq!(pack(&full, 2, 2, 6), (0, 4), "stack below when nothing fits beside");
}

#[test]
fn resize_pushes_stack_down() {
    let mut g = PackedGrid::default();
    g.cells = vec![cell(0, 0, 2, 2), cell(0, 2, 2, 2), cell(0, 4, 2, 2), cell(2, 0, 2, 2)];

    g.resize(0, 2, 4, 6);
    no_overlap(&g.cells);
    assert_eq!((g.cells[0].y, g.cells[0].h), (0, 4), "anchor stays, grows");
    assert_eq!(g.cells[1].y, 4, "middle pushed below the grown top");
    assert_eq!(g.cells[2].y, 6, "bottom pushed below the middle");

    g.resize(0, 4, 4, 6);
    no_overlap(&g.cells);
    assert_eq!(g.cells[3].y, 4, "right neighbour displaced below the widened tile");

    g.resize(0, 2, 2, 6);
    no_overlap(&g.cells);
    assert_eq!(g.cells[1].y, 2, "middle rises onto the shrunk anchor");
    assert_eq!((g.cells[3].y, g.cells[2].y), (0, 4), "neighbour rises to top, bottom follows the stack");
}

#[test]
fn drop_displaces_stack() {
    let mut g = grid_with(vec![cell(0, 0, 2, 2), cell(0, 2, 2, 2), cell(0, 4, 2, 2), cell(2, 0, 2, 2)]);
    let y = |g: &PackedGrid, id: u64| g.cells.iter().find(|c| c.group.id == GroupId(id)).expect("cell present").y;

    g.drop(DragSource::Tile(GroupId(3)), DropTarget::Displace { x: 0, y: 2 }, 6);
    no_overlap(&g.cells);
    assert_eq!(y(&g, 0), 0, "A untouched at the top");
    assert_eq!(y(&g, 3), 2, "D (shadow) lands on the hovered cell");
    assert_eq!(y(&g, 1), 4, "B shoved below the shadow");
    assert_eq!(y(&g, 2), 6, "C follows B down");
}

#[test]
fn drop_tears_tab_into_new_tile() {
    let mut g = grid_with(vec![cell(0, 0, 2, 2)]);
    g.cells[0].group.insert_tab(PanelId("q".into()), 1);
    assert_eq!(g.cells[0].group.tabs.len(), 2);

    g.drop(DragSource::Tab { panel: PanelId("q".into()), from: GroupId(0) }, DropTarget::Pack { x: 3 }, 6);
    no_overlap(&g.cells);
    assert_eq!(g.cells.len(), 2, "torn tab forms a second tile");
    let origin = g.cells.iter().find(|c| c.group.id == GroupId(0)).expect("origin survives");
    assert_eq!(origin.group.tabs, vec![PanelId("p".into())], "origin keeps the remainder");
    let torn = g.cells.iter().find(|c| c.group.tabs.contains(&PanelId("q".into()))).expect("torn tile");
    assert_eq!((torn.x, torn.w, torn.h), (3, 2, 2), "new tile at the column, inheriting size");
}

#[test]
fn drop_packs_at_column() {
    let mut g = grid_with(vec![cell(0, 0, 4, 2), cell(4, 0, 2, 2)]);
    g.drop(DragSource::Tile(GroupId(1)), DropTarget::Pack { x: 0 }, 6);
    no_overlap(&g.cells);
    let c = g.cells.iter().find(|c| c.group.id == GroupId(1)).expect("cell present");
    assert_eq!((c.x, c.y), (0, 2), "packed at the hovered column, on its skyline");
}

#[test]
fn refit_clamps_into_narrower_band() {
    let mut g = PackedGrid::default();
    g.cells = vec![cell(0, 0, 4, 2), cell(8, 0, 4, 2)];

    g.refit(6);
    no_overlap(&g.cells);
    for c in &g.cells {
        assert!(c.x + c.w <= 6, "tile spills past the narrowed band: {c:?}");
    }
}

#[test]
fn close_compacts_upward() {
    let mut g = PackedGrid::default();
    let mut cells = vec![cell(0, 0, 2, 2), cell(0, 2, 2, 2), cell(0, 4, 2, 2), cell(2, 4, 2, 2)];
    for (n, c) in cells.iter_mut().enumerate() {
        c.group.id = GroupId(n as u64);
    }
    g.cells = cells;

    g.close_active(GroupId(1));
    no_overlap(&g.cells);
    let y = |id: u64| g.cells.iter().find(|c| c.group.id == GroupId(id)).expect("cell present").y;
    assert_eq!(y(2), 2, "C rises only as far as the tile above it in its column");
    assert_eq!(y(3), 0, "D's column is free, so it floats all the way up");
}

// ------------------------------------------------------------------ further cases

#[test]
fn refit_restores_wanted_width_when_widened() {
    // A 6-wide tile narrowed into 4 columns keeps its wanted width and gets it back at 8.
    let mut g = grid_with(vec![cell(0, 0, 6, 2)]);
    g.refit(4);
    assert_eq!((g.cells[0].x, g.cells[0].w, g.cells[0].desired_w), (0, 4, Some(6)));
    g.refit(8);
    assert_eq!((g.cells[0].x, g.cells[0].w, g.cells[0].desired_w), (0, 6, None));
}

#[test]
fn refit_round_trip_matches_direct_refit() {
    let base = || grid_with(vec![cell(0, 0, 4, 2), cell(8, 0, 4, 2), cell(4, 2, 6, 3)]);
    let mut via = base();
    via.refit(5);
    via.refit(12);
    let mut direct = base();
    direct.refit(12);
    assert_eq!(via, direct, "reflow is path-independent");
}

#[test]
fn place_clamps_wide_tile_and_remembers_width() {
    let mut g = PackedGrid::default();
    let id = g.mint_group_id();
    g.place(Group::new(id, PanelId("a".into())), 10, 3, (2, 1), 6);
    assert_eq!((g.cells[0].x, g.cells[0].y, g.cells[0].w, g.cells[0].h), (0, 0, 6, 3));
    assert_eq!(g.cells[0].desired_w, Some(10));
    assert_eq!((g.cells[0].min_w, g.cells[0].min_h), (2, 1));
    assert_eq!(g.next_group_id, 1);
}

#[test]
fn resize_respects_minimum_and_view() {
    let mut g = PackedGrid::default();
    g.cells = vec![cell(2, 0, 2, 2)];
    g.cells[0].min_w = 2;
    g.cells[0].min_h = 3;
    g.resize(0, 1, 1, 6);
    assert_eq!((g.cells[0].w, g.cells[0].h), (2, 3), "clamped up to the minimum");
    g.resize(0, 9, 4, 6);
    assert_eq!((g.cells[0].w, g.cells[0].h), (4, 4), "clamped to the span right of the left edge");
}

#[test]
fn overlaps_and_unsupported_report_first_offender() {
    let g = grid_with(vec![cell(0, 0, 2, 2), cell(1, 1, 2, 2), cell(4, 5, 1, 1)]);
    assert_eq!(g.overlaps(), Some((0, 1)));
    assert_eq!(g.unsupported(), Some(1));
    let clean = grid_with(vec![cell(0, 0, 2, 2), cell(0, 2, 2, 2)]);
    assert_eq!(clean.overlaps(), None);
    assert_eq!(clean.unsupported(), None);
    clean.assert_packed();
}

#[test]
fn add_tab_appends_and_activates() {
    let mut g = grid_with(vec![cell(0, 0, 2, 2)]);
    g.add_tab(GroupId(0), PanelId("z".into()));
    assert_eq!(g.cells[0].group.tabs, vec![PanelId("p".into()), PanelId("z".into())]);
    assert_eq!(g.cells[0].group.active, 1);
}

#[test]
fn close_keeps_tile_with_remaining_tab() {
    let mut g = grid_with(vec![cell(0, 0, 2, 2)]);
    g.add_tab(GroupId(0), PanelId("z".into()));
    g.close_active(GroupId(0));
    assert_eq!(g.cells.len(), 1);
    assert_eq!(g.cells[0].group.tabs, vec![PanelId("p".into())]);
    assert_eq!(g.cells[0].group.active, 0);
}

#[test]
fn drop_onto_own_header_is_noop() {
    let mut g = grid_with(vec![cell(0, 0, 2, 2), cell(2, 0, 2, 2)]);
    let before = g.clone();
    g.drop(DragSource::Tile(GroupId(0)), DropTarget::Tab { group: GroupId(0), index: 0 }, 6);
    assert_eq!(g, before);
}

#[test]
fn drop_joins_group_at_slot() {
    let mut g = grid_with(vec![cell(0, 0, 2, 2), cell(2, 0, 2, 2)]);
    g.cells[1].group.tabs[0] = PanelId("b".into());
    g.drop(DragSource::Tile(GroupId(1)), DropTarget::Tab { group: GroupId(0), index: 0 }, 6);
    assert_eq!(g.cells.len(), 1);
    assert_eq!(g.cells[0].group.tabs, vec![PanelId("b".into()), PanelId("p".into())]);
    assert_eq!(g.cells[0].group.active, 0, "the joined tab is active");
}

#[test]
fn resolve_target_header_body_and_open_space() {
    let g = grid_with(vec![cell(0, 0, 2, 2), cell(0, 2, 2, 2)]);
    let src = DragSource::Tile(GroupId(1));
    // Header of tile 0 → join it at the end of its strip.
    assert_eq!(g.resolve_target(&src, 0, 0, Some((0, true)), 6, 2), DropTarget::Tab { group: GroupId(0), index: 1 });
    // Body of tile 0 → displace at the row below it.
    assert_eq!(g.resolve_target(&src, 0, 1, Some((0, false)), 6, 2), DropTarget::Displace { x: 0, y: 2 });
    // Own header, single-tab tile → displace instead of joining itself.
    assert_eq!(g.resolve_target(&src, 0, 2, Some((1, true)), 6, 2), DropTarget::Displace { x: 0, y: 4 });
    // Open space above the skyline → displace at the pointer row; below it → pack.
    assert_eq!(g.resolve_target(&src, 0, 1, None, 6, 2), DropTarget::Displace { x: 0, y: 1 });
    assert_eq!(g.resolve_target(&src, 3, 1, None, 6, 2), DropTarget::Pack { x: 3 });
    // The column is clamped so the block does not spill past the view.
    assert_eq!(g.resolve_target(&src, 9, 0, None, 6, 2), DropTarget::Pack { x: 4 });
}

#[test]
fn can_checks_match_preconditions() {
    let g = grid_with(vec![cell(0, 0, 2, 2)]);
    assert!(g.can_close(GroupId(0)));
    assert!(!g.can_close(GroupId(7)));
    assert!(g.can_resize(0, 3, 3, 6));
    assert!(!g.can_resize(1, 3, 3, 6));
    assert!(g.can_drop(&DragSource::Tile(GroupId(0)), &DropTarget::Pack { x: 0 }));
    assert!(!g.can_drop(&DragSource::Tile(GroupId(5)), &DropTarget::Pack { x: 0 }));
    assert_eq!(g.total_height(), 2);
    assert!(g.fits_edges());
    assert!(g.groups_ok());
}

#[test]
fn drag_source_group_and_step_conversion() {
    assert_eq!(DragSource::Tile(GroupId(4)).group(), GroupId(4));
    assert_eq!(DragSource::Tab { panel: PanelId("x".into()), from: GroupId(2) }.group(), GroupId(2));
    assert_eq!(u32::from(dockviewers_core::Step(7)), 7);
}

#[test]
fn gravity_pulls_floating_tiles_up() {
    let mut cells = vec![cell(0, 5, 2, 2), cell(0, 9, 2, 1), cell(3, 4, 1, 1)];
    dockviewers_core::model::packed::gravity(&mut cells, None);
    assert_eq!((cells[0].y, cells[1].y, cells[2].y), (0, 2, 0));
    // A pinned tile claims its row first: the other tile starting on that row settles onto it.
    let mut cells = vec![cell(0, 3, 2, 2), cell(1, 3, 2, 2)];
    dockviewers_core::model::packed::gravity(&mut cells, Some(1));
    assert_eq!((cells[0].y, cells[1].y), (2, 0));
}

#[test]
fn settled_layout_reflows_to_itself() {
    let mut g = PackedGrid::default();
    for (w, h) in [(3, 2), (2, 4), (4, 1), (6, 3)] {
        let id = g.mint_group_id();
        g.place(Group::new(id, PanelId(format!("p{}", id.0))), w, h, (1, 1), 6);
    }
    g.resize(1, 3, 2, 6);
    let before = g.clone();
    g.refit(6);
    assert_eq!(g, before, "a settled layout reloads into its own view unchanged");
    g.refit(6);
    assert_eq!(g, before, "and reflowing twice is reflowing once");
}

#[test]
fn tile_on_own_header_is_a_no_op_even_when_gone() {
    let mut g = PackedGrid::default();
    let before = g.clone();
    assert!(g.can_drop(&DragSource::Tile(GroupId(7)), &DropTarget::Tab { group: GroupId(7), index: 0 }));
    g.drop(DragSource::Tile(GroupId(7)), DropTarget::Tab { group: GroupId(7), index: 0 }, 6);
    assert_eq!(g, before);
    assert!(!g.can_drop(&DragSource::Tile(GroupId(7)), &DropTarget::Pack { x: 0 }), "a gone tile cannot move");
}

#[test]
fn refit_of_an_empty_grid_takes_any_width() {
    let mut g = PackedGrid::default();
    g.refit(0);
    assert!(g.cells.is_empty());
}

#[test]
fn drop_keeps_every_panel() {
    let mut g = PackedGrid::default();
    let a = g.mint_group_id();
    let mut ga = Group::new(a, PanelId("a".into()));
    ga.tabs.push(PanelId("b".into()));
    g.place(ga, 2, 2, (1, 1), 6);
    let c = g.mint_group_id();
    g.place(Group::new(c, PanelId("c".into())), 2, 2, (1, 1), 6);
    let panels = |g: &PackedGrid| {
        let mut v: Vec<String> = g.cells.iter().flat_map(|c| c.group.tabs.iter().map(|p| p.0.clone())).collect();
        v.sort();
        v
    };
    let all = panels(&g);
    g.drop(DragSource::Tab { panel: PanelId("b".into()), from: a }, DropTarget::Pack { x: 4 }, 6);
    assert_eq!(panels(&g), all, "a torn tab moves, it is not copied");
    g.drop(DragSource::Tile(c), DropTarget::Tab { group: a, index: 0 }, 6);
    assert_eq!(panels(&g), all, "a join moves every tab of the tile");
}

#[test]
fn torn_tab_takes_a_fresh_id_whatever_the_panels() {
    let mut g = PackedGrid::default();
    let a = g.mint_group_id();
    g.place(Group::new(a, PanelId("x".into())), 2, 2, (1, 1), 6);
    let b = g.mint_group_id();
    g.place(Group::new(b, PanelId("x".into())), 2, 2, (1, 1), 6);
    // The torn panel is not even listed in its strip: the new tile still gets a fresh id.
    g.drop(DragSource::Tab { panel: PanelId("z".into()), from: a }, DropTarget::Pack { x: 0 }, 6);
    let mut ids: Vec<u64> = g.cells.iter().map(|c| c.group.id.0).collect();
    ids.sort();
    assert_eq!(ids, vec![0, 1, 2]);
    assert_eq!(g.next_group_id, 3);
}
