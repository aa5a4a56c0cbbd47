use dockviewers_core::config::first_chord;
use dockviewers_core::config::same_text;
use dockviewers_core::{Band, Breakpoint, Config, Keybind, Keybinds};

#[test]
fn breakpoint_edges() {
    assert_eq!(Breakpoint::of(0), Breakpoint::Xs);
    assert_eq!(Breakpoint::of(575), Breakpoint::Xs);
    assert_eq!(Breakpoint::of(576), Breakpoint::Sm);
    assert_eq!(Breakpoint::of(767), Breakpoint::Sm);
    assert_eq!(Breakpoint::of(768), Breakpoint::Md);
    assert_eq!(Breakpoint::of(991), Breakpoint::Md);
    assert_eq!(Breakpoint::of(992), Breakpoint::Lg);
    assert_eq!(Breakpoint::of(1199), Breakpoint::Lg);
    assert_eq!(Breakpoint::of(1200), Breakpoint::Xl);
    assert_eq!(Breakpoint::of(5000), Breakpoint::Xl);
}

#[test]
fn scale_cols_per_band() {
    assert_eq!(Breakpoint::Xs.scale_cols(64), 23);
    assert_eq!(Breakpoint::Sm.scale_cols(64), 31);
    assert_eq!(Breakpoint::Md.scale_cols(64), 40);
    assert_eq!(Breakpoint::Lg.scale_cols(64), 48);
    assert_eq!(Breakpoint::Xl.scale_cols(64), 64);
    assert_eq!(Breakpoint::Xs.scale_cols(1), 1, "never below one column");
    assert_eq!(Breakpoint::Xs.scale_cols(0), 1, "never below one column");
    assert_eq!(Breakpoint::Md.scale_cols(u32::MAX), 2_662_879_723);
}

#[test]
fn scale_cols_matches_float_rounding() {
    for base in 0u32..300 {
        for b in [Breakpoint::Xs, Breakpoint::Sm, Breakpoint::Md, Breakpoint::Lg, Breakpoint::Xl] {
            let want = ((base as f64 * b.design() as f64 / 1600.0).round() as u32).max(1);
            assert_eq!(b.scale_cols(base), want, "{b:?} × {base}");
        }
    }
}

#[test]
fn designs_bands_and_names() {
    assert_eq!(Breakpoint::Xs.design(), 576);
    assert_eq!(Breakpoint::Xl.design(), 1600);
    assert_eq!(Breakpoint::Xs.band(), Band::Sm);
    assert_eq!(Breakpoint::Sm.band(), Band::Sm);
    assert_eq!(Breakpoint::Md.band(), Band::Md);
    assert_eq!(Breakpoint::Lg.band(), Band::Xl);
    assert_eq!(Breakpoint::Xl.band(), Band::Xl);
    assert_eq!(Breakpoint::Lg.name(), "lg");
    assert_eq!(Band::Md.name(), "md");
    assert_eq!(Breakpoint::default(), Breakpoint::Xl);
    assert_eq!(Band::default(), Band::Xl);
}

#[test]
fn keybind_matching() {
    let kb = Keybinds::default();
    assert!(kb.undo.matches("u", false, false));
    assert!(!kb.undo.matches("U", false, false));
    assert!(!kb.undo.matches("u", true, false));
    assert!(kb.redo.matches("U", false, false));
    assert!(kb.close.matches("Backspace", false, false));
    assert!(kb.maximize.matches("f", false, false));
    assert!(kb.help.matches("?", false, false));
    assert!(kb.save.matches("s", true, false));
    assert!(kb.publish.matches("S", true, false));
    assert!(!kb.save.matches("s", false, false));
    assert!(same_text("abc", "abc"));
    assert!(!same_text("abc", "abd"));
}

#[test]
fn config_defaults_and_equality() {
    let c = Config::default();
    assert_eq!((c.steps, c.rows), (64, 36));
    assert!(c.storage_key.is_none());
    let mut d = c.clone();
    assert!(c == d);
    d.storage_key = Some("k".to_string());
    assert!(c != d);
    let mut e = c.clone();
    e.keybinds.close = Keybind { key: "Delete", alt: false, ctrl: false };
    assert!(c != e);
    assert!(Keybinds::default().same(&Keybinds::default()));
}

#[test]
fn storage_is_absent_outside_a_browser() {
    dockviewers_core::persist::write("layout-xl", "{}");
    assert_eq!(dockviewers_core::persist::read("layout-xl"), None);
}

#[test]
fn first_chord_takes_the_first_match() {
    let chords = vec![
        Keybind { key: "s", alt: true, ctrl: false },
        Keybind { key: "S", alt: true, ctrl: false },
        Keybind { key: "s", alt: true, ctrl: false },
    ];
    assert_eq!(first_chord(&chords, "s", true, false), Some(0));
    assert_eq!(first_chord(&chords, "S", true, false), Some(1));
    assert_eq!(first_chord(&chords, "s", false, false), None, "modifiers must match exactly");
    assert_eq!(first_chord(&Vec::new(), "s", true, false), None);
}
