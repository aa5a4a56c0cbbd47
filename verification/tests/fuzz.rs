//! Deterministic model fuzzer for the reducer: each run is fully reproducible from its
//! `(seed, size)`. A run measures a container, seeds a few tiles, then draws input events
//! (measures, placements, tab additions, focus, pointer gestures, corner resizes, keystrokes,
//! save/load) and checks the contract after every step: the settled layout is packed, in
//! bounds and well formed; what a binding renders agrees with itself; and the invariants that
//! only exist around an event hold (a press never touches the layout, a cancel is a no-op, an
//! unarmed release only activates a tab, view-only keys leave the layout alone, undo lands only
//! on captured layouts, returning to a width reproduces its arrangement, save/load reproduces
//! the layout).

use dockviewers_core::model::packed::PackedGrid;
use dockviewers_core::model::serial::{envelope, open_envelope};
use dockviewers_core::{Config, Group, GroupId, PackedState, PanelId, SlotPlace};

/// A finite stream of pseudo-random draws: `size` draws from a seeded splitmix64.
struct Frng {
    x: u64,
    left: usize,
}

impl Frng {
    fn new(seed: u64, size: usize) -> Frng {
        Frng { x: seed ^ 0x9E37_79B9_7F4A_7C15, left: size }
    }

    fn remaining(&self) -> usize {
        self.left
    }

    fn next(&mut self) -> u64 {
        self.left = self.left.saturating_sub(1);
        self.x = self.x.wrapping_add(0x9E37_79B9_7F4A_7C15);
        let mut z = self.x;
        z = (z ^ (z >> 30)).wrapping_mul(0xBF58_476D_1CE4_E5B9);
        z = (z ^ (z >> 27)).wrapping_mul(0x94D0_49BB_1331_11EB);
        z ^ (z >> 31)
    }

    fn below(&mut self, n: u32) -> u32 {
        if n == 0 {
            0
        } else {
            (self.next() % n as u64) as u32
        }
    }

    fn span(&mut self, lo: u64, hi: u64) -> u64 {
        lo + self.next() % (hi - lo + 1)
    }

    fn weighted(&mut self, ws: &[u32]) -> usize {
        let total: u32 = ws.iter().sum();
        let mut r = self.below(total);
        for (i, w) in ws.iter().enumerate() {
            if r < *w {
                return i;
            }
            r -= *w;
        }
        ws.len() - 1
    }
}

/// Container widths at both sides of every band boundary.
const EDGES: [u64; 8] = [575, 576, 767, 768, 991, 992, 1199, 1200];

#[derive(Clone, Debug)]
enum Grab {
    Tile(GroupId),
    Tab(PanelId, GroupId),
}

/// One pointer move of a gesture: past the threshold or not, the snapped landing column and row,
/// and the tile under the pointer (with whether it is its header).
#[derive(Clone, Debug)]
struct Move {
    beyond: bool,
    col: u32,
    row: u32,
    hit: Option<(usize, bool)>,
}

#[derive(Clone, Copy, Debug)]
enum KeyKind {
    Close,
    Maximize,
    Undo,
    Redo,
    Help,
    Escape,
    Inspect,
}

#[derive(Clone, Debug)]
enum Action {
    Measure(u64),
    Place { w: u32, h: u32, min: (u32, u32) },
    AddTab(GroupId),
    Focus(GroupId),
    Drag { grab: Grab, path: Vec<Move>, slot: u32, commit: bool },
    Resize { idx: usize, moves: Vec<(i64, i64)>, commit: bool },
    Key(KeyKind, Option<GroupId>),
    SaveLoad,
}

struct World {
    state: PackedState,
    cfg: Config,
    next_panel: u64,
    width: u64,
    /// Arrangements keyed by the width they settled at, since the last structural edit.
    measure_log: Vec<(u64, PackedGrid)>,
    /// Every layout the history captured.
    undo_log: Vec<PackedGrid>,
}

impl World {
    fn mint_panel(&mut self) -> PanelId {
        let id = PanelId(format!("p{}", self.next_panel));
        self.next_panel += 1;
        id
    }

    fn measure(&mut self, w: u64) -> Result<(), String> {
        self.width = w;
        self.state.set_measure(w);
        match self.measure_log.iter().find(|(s, _)| *s == w) {
            Some((_, prev)) if prev != self.state.grid() => Err(format!(
                "measure round-trip changed the arrangement at {w} (cols={}): {:?} vs {:?}",
                self.state.cols(),
                self.state.grid().cells,
                prev.cells
            )),
            Some(_) => Ok(()),
            None => {
                let settled = self.state.grid().clone();
                self.measure_log.push((w, settled));
                Ok(())
            },
        }
    }

    fn structural_edit(&mut self) {
        self.measure_log.clear();
    }

    fn settle(&mut self) {
        if self.state.wants_undo_snapshot() {
            self.state.capture_undo();
            self.undo_log.push(self.state.grid().clone());
        }
    }
}

fn seed_world(frng: &mut Frng) -> World {
    let cfg = Config::default();
    let mut world = World {
        state: PackedState::new(cfg.clone()),
        cfg,
        next_panel: 0,
        width: 0,
        measure_log: Vec::new(),
        undo_log: Vec::new(),
    };
    let w = frng.span(320, 1920);
    world.measure(w).expect("the first measure has no baseline");
    assert!(world.state.take_ready(), "the first measure arms the seed latch");
    let (cols, rows) = (world.state.cols(), world.cfg.rows);
    for (fw, fh) in [(25u32, 30u32), (30, 25), (20, 40), (35, 30)] {
        let gid = world.state.mint_group_id();
        let panel = world.mint_panel();
        let (w, h) = ((cols * fw / 100).max(1), (rows * fh / 100).max(1));
        world.state.place(Group::new(gid, panel), w, h, (1, 1));
    }
    let extra = world.mint_panel();
    world.state.add_tab(GroupId(0), extra);
    world.settle();
    world
}

fn generate(frng: &mut Frng, world: &World, weights: &[u32; 8]) -> Action {
    let cells = &world.state.grid().cells;
    let cols = world.state.cols();
    let mut avail = vec![0usize, 1, 6];
    if !cells.is_empty() {
        avail.extend([2, 3, 4, 5]);
        if !world.state.resizing() {
            avail.push(7);
        }
    }
    let ws: Vec<u32> = avail.iter().map(|&k| weights[k].max(1)).collect();
    match avail[frng.weighted(&ws)] {
        0 => {
            let w = if frng.below(2) == 0 { EDGES[frng.below(EDGES.len() as u32) as usize] } else { frng.span(320, 1920) };
            Action::Measure(w)
        },
        1 => {
            let w = 1 + frng.below((cols / 2).max(1));
            let h = 1 + frng.below(world.cfg.rows / 2);
            // Minimums up to twice the asked size, so `place` also has to raise a tile to its floor.
            Action::Place { w, h, min: (1 + frng.below(2 * w), 1 + frng.below(2 * h)) }
        },
        2 => Action::AddTab(cells[frng.below(cells.len() as u32) as usize].group.id),
        3 => Action::Focus(cells[frng.below(cells.len() as u32) as usize].group.id),
        4 => {
            let c = &cells[frng.below(cells.len() as u32) as usize];
            let grab = if frng.below(2) == 0 {
                let i = frng.below(c.group.tabs.len() as u32) as usize;
                Grab::Tab(c.group.tabs[i].clone(), c.group.id)
            } else {
                Grab::Tile(c.group.id)
            };
            let mut path = vec![Move { beyond: false, col: c.x, row: c.y, hit: None }];
            if frng.below(4) != 0 {
                let n = 1 + frng.below(3);
                for _ in 1..n {
                    path.push(Move { beyond: true, col: frng.below(cols + 4), row: frng.below(24), hit: None });
                }
                path.push(aim(frng, world));
            } else {
                path.push(Move { beyond: false, col: c.x, row: c.y, hit: None });
            }
            Action::Drag { grab, path, slot: frng.below(6), commit: frng.below(4) != 0 }
        },
        5 => {
            let idx = frng.below(cells.len() as u32) as usize;
            let n = 1 + frng.below(3);
            let moves = (0..n).map(|_| (frng.below(17) as i64 - 8, frng.below(17) as i64 - 8)).collect();
            Action::Resize { idx, moves, commit: world.state.resizing() || frng.below(4) != 0 }
        },
        6 => {
            let kinds = [KeyKind::Close, KeyKind::Maximize, KeyKind::Undo, KeyKind::Redo, KeyKind::Help, KeyKind::Escape, KeyKind::Inspect];
            let k = kinds[frng.below(kinds.len() as u32) as usize];
            let hit = if cells.is_empty() || frng.below(3) == 0 {
                None
            } else {
                Some(cells[frng.below(cells.len() as u32) as usize].group.id)
            };
            Action::Key(k, hit)
        },
        _ => Action::SaveLoad,
    }
}

/// A move aimed somewhere worth reaching: a tile body, a tile header, open space, off the grid.
fn aim(frng: &mut Frng, world: &World) -> Move {
    let cells = &world.state.grid().cells;
    let cols = world.state.cols();
    match frng.below(4) {
        0 if !cells.is_empty() => {
            let i = frng.below(cells.len() as u32) as usize;
            let c = &cells[i];
            Move { beyond: true, col: c.x, row: c.y + c.h / 2, hit: Some((i, false)) }
        },
        1 if !cells.is_empty() => {
            let i = frng.below(cells.len() as u32) as usize;
            let c = &cells[i];
            Move { beyond: true, col: c.x, row: c.y, hit: Some((i, true)) }
        },
        2 => Move { beyond: true, col: frng.below(cols), row: frng.below(24), hit: None },
        _ => Move { beyond: true, col: cols + frng.below(50), row: frng.below(60), hit: None },
    }
}

fn apply(action: &Action, world: &mut World) -> Result<(), String> {
    match action {
        Action::Measure(w) => return world.measure(*w),
        Action::Place { w, h, min } => {
            world.structural_edit();
            let gid = world.state.mint_group_id();
            let panel = world.mint_panel();
            world.state.place(Group::new(gid, panel), *w, *h, *min);
        },
        Action::AddTab(g) => {
            world.structural_edit();
            let panel = world.mint_panel();
            world.state.add_tab(*g, panel);
        },
        Action::Focus(g) => world.state.focus(*g),
        Action::Drag { grab, path, slot, commit } => return drag(grab, path, *slot, *commit, world),
        Action::Resize { idx, moves, commit } => {
            world.structural_edit();
            world.state.resize_start(*idx);
            let (at, w0, h0) = {
                let c = &world.state.grid().cells[*idx];
                (*idx, c.w, c.h)
            };
            for (dw, dh) in moves {
                let nw = (w0 as i64 + dw).max(1) as u32;
                let nh = (h0 as i64 + dh).max(1) as u32;
                if world.state.grid().can_resize(at, nw, nh, world.state.cols()) {
                    world.state.resize_move(*dw, *dh);
                }
                check_in_flight(&world.state)?;
            }
            if *commit {
                world.state.resize_end();
            }
        },
        Action::Key(k, hit) => return key(*k, *hit, world),
        Action::SaveLoad => {
            let saved = world.state.save();
            let mut fresh = PackedState::new(world.cfg.clone());
            fresh.set_measure(world.width);
            fresh.load(Ok(saved)).map_err(|e| format!("load of our own save failed: {e:?}"))?;
            if fresh.grid() != world.state.grid() {
                return Err(format!("save/load changed the layout: {:?} vs {:?}", fresh.grid().cells, world.state.grid().cells));
            }
        },
    }
    Ok(())
}

fn drag(grab: &Grab, path: &[Move], slot: u32, commit: bool, world: &mut World) -> Result<(), String> {
    let before = world.state.grid().clone();
    match grab {
        Grab::Tile(g) => world.state.press_tile(*g),
        Grab::Tab(p, g) => world.state.press_tab(p.clone(), *g),
    }
    if world.state.grid() != &before {
        return Err("a press mutated the layout".to_string());
    }
    let mut armed = false;
    for m in path {
        if let Some(g) = world.state.drag_move(m.beyond, m.col, m.row, m.hit) {
            let len = world.state.grid().cells.iter().find(|c| c.group.id == g).map(|c| c.group.tabs.len()).unwrap_or(0);
            world.state.set_tab_slot(slot as usize % (len + 1));
        }
        if world.state.grid() != &before {
            return Err("a pointer move mutated the layout".to_string());
        }
        check_in_flight(&world.state)?;
        if world.state.ghost(&Vec::new()).is_some() {
            armed = true;
        }
    }
    if !commit {
        world.state.drag_cancel();
        return if world.state.grid() == &before && !world.state.dragging() {
            Ok(())
        } else {
            Err("drag_cancel changed the layout".to_string())
        };
    }
    world.structural_edit();
    if !world.state.can_release() {
        return Err("the drop the preview showed cannot run".to_string());
    }
    world.state.drag_release();
    if !armed {
        let mut expect = before.clone();
        for (e, a) in expect.cells.iter_mut().zip(&world.state.grid().cells) {
            e.group.active = a.group.active;
        }
        if world.state.grid() != &expect {
            return Err("an unarmed release changed more than the active tab".to_string());
        }
    }
    Ok(())
}

fn key(k: KeyKind, hit: Option<GroupId>, world: &mut World) -> Result<(), String> {
    let kb = world.cfg.keybinds;
    let (name, alt, ctrl) = match k {
        KeyKind::Close => (kb.close.key, kb.close.alt, kb.close.ctrl),
        KeyKind::Maximize => (kb.maximize.key, kb.maximize.alt, kb.maximize.ctrl),
        KeyKind::Undo => (kb.undo.key, kb.undo.alt, kb.undo.ctrl),
        KeyKind::Redo => (kb.redo.key, kb.redo.alt, kb.redo.ctrl),
        KeyKind::Help => (kb.help.key, kb.help.alt, kb.help.ctrl),
        KeyKind::Escape => ("Escape", false, false),
        KeyKind::Inspect => ("d", false, false),
    };
    if !world.state.can_key(name, alt, ctrl) {
        return Err(format!("{k:?} with focus on a pane that is gone"));
    }
    let before = world.state.grid().clone();
    world.state.on_key(name, alt, ctrl, hit);
    match k {
        KeyKind::Maximize | KeyKind::Help | KeyKind::Escape | KeyKind::Inspect => {
            if world.state.grid() != &before {
                return Err(format!("{k:?} is view-only but changed the layout"));
            }
        },
        KeyKind::Undo | KeyKind::Redo => {
            world.structural_edit();
            let cols = world.state.cols();
            let landed = world.undo_log.iter().any(|g| {
                let mut g = g.clone();
                g.refit(cols);
                &g == world.state.grid()
            });
            if world.state.grid() != &before && !landed {
                return Err(format!("{k:?} produced a layout that was never captured"));
            }
        },
        KeyKind::Close => world.structural_edit(),
    }
    Ok(())
}

fn check_settled(state: &PackedState) -> Result<(), String> {
    let grid = state.grid();
    let cols = state.cols();
    if grid.state != dockviewers_core::model::packed::GridState::Settled {
        return Err("grid not settled".to_string());
    }
    if let Some((i, j)) = grid.overlaps() {
        return Err(format!("overlap: {:?} vs {:?}", grid.cells[i], grid.cells[j]));
    }
    if let Some(i) = grid.unsupported() {
        return Err(format!("floating tile: {:?}", grid.cells[i]));
    }
    let mut groups = std::collections::HashSet::new();
    let mut panels = std::collections::HashSet::new();
    for c in &grid.cells {
        if c.w < c.min_w.min(cols) || c.h < c.min_h {
            return Err(format!("cell below its min: {c:?} (cols {cols})"));
        }
        if c.x + c.w > cols {
            return Err(format!("cell spills past cols={cols}: {c:?}"));
        }
        if c.group.tabs.is_empty() || c.group.active >= c.group.tabs.len() {
            return Err(format!("malformed group {:?}", c.group));
        }
        if !groups.insert(c.group.id.0) {
            return Err(format!("duplicate group id {}", c.group.id.0));
        }
        for p in &c.group.tabs {
            if !panels.insert(p.0.clone()) {
                return Err(format!("duplicate panel id {}", p.0));
            }
        }
    }
    let back = open_envelope(Ok(envelope(grid.clone()))).map_err(|e| format!("envelope round-trip failed: {e:?}"))?;
    if &back != grid {
        return Err("envelope round-trip changed the grid".to_string());
    }
    if !grid.cells.is_empty() && state.frames(&Vec::new()).is_empty() {
        return Err("a non-empty grid rendered no frames".to_string());
    }
    check_in_flight(state)
}

fn check_in_flight(state: &PackedState) -> Result<(), String> {
    if !state.can_release() {
        return Err("the previewed drop cannot run".to_string());
    }
    let frames = state.frames(&Vec::new());
    let rects: Vec<(GroupId, (u32, u32, u32, u32))> = frames.iter().filter(|f| !f.fill).map(|f| (f.gid, (f.x, f.y, f.w, f.h))).collect();
    for (n, (ga, a)) in rects.iter().enumerate() {
        for (gb, b) in &rects[n + 1..] {
            if a.0 < b.0 + b.2 && b.0 < a.0 + a.2 && a.1 < b.1 + b.3 && b.1 < a.1 + a.3 {
                return Err(format!("rendered frames overlap: {ga:?} at {a:?} vs {gb:?} at {b:?}"));
            }
        }
    }
    for (panel, slot) in state.content_slots() {
        if let SlotPlace::Rect { x, y, w, h } = slot.place {
            match rects.iter().find(|(g, _)| *g == slot.group) {
                Some((_, r)) if *r == (x, y, w, h) => {},
                Some((_, r)) => return Err(format!("panel {} slot {:?} drifted from its frame {r:?}", panel.0, (x, y, w, h))),
                None => return Err(format!("panel {} renders with no frame for {:?}", panel.0, slot.group)),
            }
        }
    }
    let maximized = frames.is_empty() || frames.iter().any(|f| f.fill);
    let shadows = frames.iter().filter(|f| f.shadow).count();
    let tab_drops = frames.iter().filter(|f| f.tab_drop).count();
    let hints = shadows + tab_drops;
    match state.ghost(&Vec::new()) {
        Some(_) if hints > 1 || (hints != 1 && !maximized) => Err(format!("armed drag wants one landing hint, got {shadows} shadow(s) and {tab_drops} tab-drop(s)")),
        None if hints != 0 => Err(format!("no ghost, yet {hints} hint(s) are painted")),
        _ => Ok(()),
    }
}

/// Run one case; `Err` carries the failing step and what broke.
fn run(seed: u64, size: usize) -> Result<(), String> {
    let mut frng = Frng::new(seed, size);
    let mut weights = [0u32; 8];
    for w in &mut weights {
        *w = frng.below(8);
    }
    let mut world = seed_world(&mut frng);
    check_settled(&world.state).map_err(|e| format!("seed {seed} size {size} step 0: {e}"))?;
    let mut step = 0;
    while frng.remaining() > 0 {
        let action = generate(&mut frng, &world, &weights);
        apply(&action, &mut world).map_err(|e| format!("seed {seed} size {size} step {step} ({action:?}): {e}"))?;
        let checked = if world.state.resizing() {
            check_in_flight(&world.state)
        } else {
            world.settle();
            check_settled(&world.state)
        };
        checked.map_err(|e| format!("seed {seed} size {size} step {step} ({action:?}): {e}"))?;
        step += 1;
    }
    Ok(())
}

#[test]
fn fuzz() {
    for seed in 0..120u64 {
        if let Err(e) = run(seed, 300) {
            panic!("{e}");
        }
    }
}

#[test]
fn regressions() {
    for (seed, size) in [(172u64, 1000usize), (1, 40), (7, 2000), (42, 500), (99, 1500), (2024, 800)] {
        if let Err(e) = run(seed, size) {
            panic!("{e}");
        }
    }
}
