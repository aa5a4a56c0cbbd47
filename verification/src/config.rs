//! Host-supplied configuration: keybinds matched against the character a key produces, the grid's
//! step counts, and the responsive width bands that scale the column count.

use vstd::prelude::*;

verus! {

/// A chord: the character the key produces plus the non-shift modifiers held. Shift is already
/// baked into `key` (`"u"` vs `"U"`).
#[derive(Clone, Copy, PartialEq)]
pub struct Keybind {
    pub key: &'static str,
    pub alt: bool,
    pub ctrl: bool,
}

/// Whether a chord matches a keydown.
pub open spec fn binds(b: Keybind, key: Seq<char>, alt: bool, ctrl: bool) -> bool {
    b.key@ == key && b.alt == alt && b.ctrl == ctrl
}

/// Whether two texts are equal.
pub fn same_text(a: &str, b: &str) -> (r: bool)
    ensures
        r == (a@ == b@),
{
    let x = a.to_owned();
    let y = b.to_owned();
    x == y
}

impl Keybind {
    /// Whether this chord is the keydown `key` with exactly the modifiers `alt`/`ctrl`.
    pub fn matches(&self, key: &str, alt: bool, ctrl: bool) -> (r: bool)
        ensures
            r == binds(*self, key@, alt, ctrl),
    {
        self.alt == alt && self.ctrl == ctrl && same_text(self.key, key)
    }
}

/// The first of `chords` a keydown matches, if any: the host's own chords take the first match.
pub fn first_chord(chords: &Vec<Keybind>, key: &str, alt: bool, ctrl: bool) -> (r: Option<usize>)
    ensures
        match r {
            Some(i) => i < chords@.len() && binds(chords@[i as int], key@, alt, ctrl) && forall|j: int|
                0 <= j < i ==> !binds(#[trigger] chords@[j], key@, alt, ctrl),
            None => forall|j: int| 0 <= j < chords@.len() ==> !binds(#[trigger] chords@[j], key@, alt, ctrl),
        },
{
    let mut i: usize = 0;
    while i < chords.len()
        invariant
            i <= chords@.len(),
            forall|j: int| 0 <= j < i ==> !binds(#[trigger] chords@[j], key@, alt, ctrl),
        decreases chords@.len() - i,
    {
        if chords[i].matches(key, alt, ctrl) {
            return Some(i);
        }
        i += 1;
    }
    None
}

/// Chords acting on the layout and the focused pane.
#[derive(Clone, Copy, PartialEq)]
pub struct Keybinds {
    pub undo: Keybind,
    pub redo: Keybind,
    pub close: Keybind,
    pub maximize: Keybind,
    pub help: Keybind,
    /// Cache this band's layout for this client.
    pub save: Keybind,
    /// Hand this band's layout to the host.
    pub publish: Keybind,
}

/// The default chords: `u` / `U` walk the undo history, `Backspace` closes the focused pane, `f`
/// toggles maximize, `?` the keybind hint, `Alt+s` caches and `Alt+S` publishes the layout.
pub open spec fn default_binds(k: Keybinds) -> bool {
    &&& k.undo.key@ == "u"@ && !k.undo.alt && !k.undo.ctrl
    &&& k.redo.key@ == "U"@ && !k.redo.alt && !k.redo.ctrl
    &&& k.close.key@ == "Backspace"@ && !k.close.alt && !k.close.ctrl
    &&& k.maximize.key@ == "f"@ && !k.maximize.alt && !k.maximize.ctrl
    &&& k.help.key@ == "?"@ && !k.help.alt && !k.help.ctrl
    &&& k.save.key@ == "s"@ && k.save.alt && !k.save.ctrl
    &&& k.publish.key@ == "S"@ && k.publish.alt && !k.publish.ctrl
}

impl Default for Keybinds {
    /// The default chords (see [`default_binds`]).
    fn default() -> (k: Keybinds)
        ensures
            default_binds(k),
    {
        Keybinds {
            undo: Keybind { key: "u", alt: false, ctrl: false },
            redo: Keybind { key: "U", alt: false, ctrl: false },
            close: Keybind { key: "Backspace", alt: false, ctrl: false },
            maximize: Keybind { key: "f", alt: false, ctrl: false },
            help: Keybind { key: "?", alt: false, ctrl: false },
            save: Keybind { key: "s", alt: true, ctrl: false },
            publish: Keybind { key: "S", alt: true, ctrl: false },
        }
    }
}

/// Whether two chords are the same chord.
pub open spec fn chord_eq(a: Keybind, b: Keybind) -> bool {
    a.key@ == b.key@ && a.alt == b.alt && a.ctrl == b.ctrl
}

/// Whether two sets of keybinds bind the same chords.
pub open spec fn binds_eq(a: Keybinds, b: Keybinds) -> bool {
    &&& chord_eq(a.undo, b.undo)
    &&& chord_eq(a.redo, b.redo)
    &&& chord_eq(a.close, b.close)
    &&& chord_eq(a.maximize, b.maximize)
    &&& chord_eq(a.help, b.help)
    &&& chord_eq(a.save, b.save)
    &&& chord_eq(a.publish, b.publish)
}

impl Keybind {
    /// Whether two chords are the same chord.
    pub fn same(&self, other: &Keybind) -> (r: bool)
        ensures
            r == chord_eq(*self, *other),
    {
        self.alt == other.alt && self.ctrl == other.ctrl && same_text(self.key, other.key)
    }
}

impl Keybinds {
    /// Whether two sets of keybinds bind the same chords.
    pub fn same(&self, other: &Keybinds) -> (r: bool)
        ensures
            r == binds_eq(*self, *other),
    {
        self.undo.same(&other.undo) && self.redo.same(&other.redo) && self.close.same(&other.close)
            && self.maximize.same(&other.maximize) && self.help.same(&other.help) && self.save.same(&other.save)
            && self.publish.same(&other.publish)
    }
}

/// What a save chord produced, handed to the host.
pub enum Saved {
    /// The cache chord: already written under `band`'s key.
    Cached { band: Band },
    /// The publish chord: the host persists `json` wherever it wants.
    Published { band: Band, json: String },
}

/// The grid settings a host passes in once: keybinds, the desktop column count `steps` (scaled
/// down per [`Breakpoint`]), the fixed row count `rows`, and the namespace of the seed cache.
pub struct Config {
    pub keybinds: Keybinds,
    pub steps: u32,
    pub rows: u32,
    pub storage_key: Option<String>,
}

impl Default for Config {
    /// Default binds, 64 columns, 36 rows, no client cache.
    fn default() -> (c: Config)
        ensures
            default_binds(c.keybinds),
            c.steps == 64,
            c.rows == 36,
            c.storage_key is None,
    {
        Config { keybinds: Keybinds::default(), steps: 64, rows: 36, storage_key: None }
    }
}

/// Whether two configurations agree: the same chords, step counts and cache namespace.
pub open spec fn config_eq(a: Config, b: Config) -> bool {
    &&& binds_eq(a.keybinds, b.keybinds)
    &&& a.steps == b.steps
    &&& a.rows == b.rows
    &&& match (a.storage_key, b.storage_key) {
        (Some(x), Some(y)) => x@ == y@,
        (None, None) => true,
        _ => false,
    }
}

impl Config {
    /// Whether two configurations agree (see [`config_eq`]).
    pub fn same(&self, other: &Config) -> (r: bool)
        ensures
            r == config_eq(*self, *other),
    {
        let keys = match (&self.storage_key, &other.storage_key) {
            (Some(x), Some(y)) => same_text(x.as_str(), y.as_str()),
            (None, None) => true,
            _ => false,
        };
        self.keybinds.same(&other.keybinds) && self.steps == other.steps && self.rows == other.rows && keys
    }
}

impl PartialEq for Config {
    fn eq(&self, other: &Self) -> (r: bool) {
        self.same(other)
    }
}

impl vstd::std_specs::cmp::PartialEqSpecImpl for Config {
    open spec fn obeys_eq_spec() -> bool {
        true
    }

    open spec fn eq_spec(&self, other: &Self) -> bool {
        config_eq(*self, *other)
    }
}

impl Clone for Config {
    fn clone(&self) -> (c: Config)
        ensures
            c.keybinds == self.keybinds,
            c.steps == self.steps,
            c.rows == self.rows,
            c.storage_key == self.storage_key,
    {
        let storage_key = match &self.storage_key {
            Some(k) => Some(k.clone()),
            None => None,
        };
        Config { keybinds: self.keybinds, steps: self.steps, rows: self.rows, storage_key }
    }
}

/// Responsive width bands with Bootstrap's xs/sm/md/lg/xl boundaries (CSS px).
#[derive(Clone, Copy, Debug, PartialEq, Eq, Hash, Structural)]
pub enum Breakpoint {
    Xs,
    Sm,
    Md,
    Lg,
    Xl,
}

/// The unit a layout is stored under: phone, tablet, desktop.
#[derive(Clone, Copy, Debug, PartialEq, Eq, Hash, Structural)]
pub enum Band {
    Sm,
    Md,
    Xl,
}

impl Default for Breakpoint {
    fn default() -> (b: Breakpoint)
        ensures
            b == Breakpoint::Xl,
    {
        Breakpoint::Xl
    }
}

impl Default for Band {
    fn default() -> (b: Band)
        ensures
            b == Band::Xl,
    {
        Band::Xl
    }
}

/// The band of a container `px` wide (whole CSS px, rounded down).
pub open spec fn breakpoint_of(px: int) -> Breakpoint {
    if px < 576 {
        Breakpoint::Xs
    } else if px < 768 {
        Breakpoint::Sm
    } else if px < 992 {
        Breakpoint::Md
    } else if px < 1200 {
        Breakpoint::Lg
    } else {
        Breakpoint::Xl
    }
}

/// The width a band scales against: its upper edge, with the open-ended `Xl` capped at 1600.
pub open spec fn design_of(b: Breakpoint) -> int {
    match b {
        Breakpoint::Xs => 576,
        Breakpoint::Sm => 768,
        Breakpoint::Md => 992,
        Breakpoint::Lg => 1200,
        Breakpoint::Xl => 1600,
    }
}

/// `base · design / 1600` rounded to the nearest whole column (halves up), at least 1.
pub open spec fn scaled_cols(b: Breakpoint, base: int) -> int {
    let r = (base * design_of(b) + 800) / 1600;
    if r >= 1 {
        r
    } else {
        1
    }
}

/// The storage unit a band belongs to: phones, tablets, desktops.
pub open spec fn band_of(b: Breakpoint) -> Band {
    match b {
        Breakpoint::Xs | Breakpoint::Sm => Band::Sm,
        Breakpoint::Md => Band::Md,
        Breakpoint::Lg | Breakpoint::Xl => Band::Xl,
    }
}

impl Breakpoint {
    /// Classify a container width, in whole CSS px (rounded down), into its band.
    pub fn of(px: u64) -> (b: Breakpoint)
        ensures
            b == breakpoint_of(px as int),
    {
        if px < 576 {
            Breakpoint::Xs
        } else if px < 768 {
            Breakpoint::Sm
        } else if px < 992 {
            Breakpoint::Md
        } else if px < 1200 {
            Breakpoint::Lg
        } else {
            Breakpoint::Xl
        }
    }

    /// Design width the band scales against.
    pub fn design(self) -> (d: u32)
        ensures
            d == design_of(self),
    {
        match self {
            Breakpoint::Xs => 576,
            Breakpoint::Sm => 768,
            Breakpoint::Md => 992,
            Breakpoint::Lg => 1200,
            Breakpoint::Xl => 1600,
        }
    }

    /// Scale a desktop-tuned column count down to this band (at least 1), keeping the physical
    /// horizontal step about constant so tiles reflow instead of shrinking.
    pub fn scale_cols(self, base: u32) -> (c: u32)
        ensures
            c == scaled_cols(self, base as int),
            1 <= c <= if base >= 1 { base as int } else { 1 },
    {
        let d = self.design();
        proof {
            assert(base * d <= 0xFFFF_FFFFnat * 1600) by (nonlinear_arith)
                requires
                    base <= 0xFFFF_FFFFnat,
                    d <= 1600,
            {
            }
        }
        let num = base as u64 * d as u64 + 800;
        let r = num / 1600;
        proof {
            assert(r <= base) by (nonlinear_arith)
                requires
                    r == (base * design_of(self) + 800) / 1600,
                    design_of(self) <= 1600,
                    base >= 0,
            {
            }
        }
        if r >= 1 {
            r as u32
        } else {
            1
        }
    }

    /// The storage unit this band belongs to.
    pub fn band(self) -> (b: Band)
        ensures
            b == band_of(self),
    {
        match self {
            Breakpoint::Xs | Breakpoint::Sm => Band::Sm,
            Breakpoint::Md => Band::Md,
            Breakpoint::Lg | Breakpoint::Xl => Band::Xl,
        }
    }

    /// The band's short name.
    pub fn name(self) -> (n: &'static str)
        ensures
            n@ == match self {
                Breakpoint::Xs => "xs"@,
                Breakpoint::Sm => "sm"@,
                Breakpoint::Md => "md"@,
                Breakpoint::Lg => "lg"@,
                Breakpoint::Xl => "xl"@,
            },
    {
        match self {
            Breakpoint::Xs => "xs",
            Breakpoint::Sm => "sm",
            Breakpoint::Md => "md",
            Breakpoint::Lg => "lg",
            Breakpoint::Xl => "xl",
        }
    }
}

impl Band {
    /// The band's short name, used as the suffix of its storage key.
    pub fn name(self) -> (n: &'static str)
        ensures
            n@ == match self {
                Band::Sm => "sm"@,
                Band::Md => "md"@,
                Band::Xl => "xl"@,
            },
    {
        match self {
            Band::Sm => "sm",
            Band::Md => "md",
            Band::Xl => "xl",
        }
    }
}

} // verus!
