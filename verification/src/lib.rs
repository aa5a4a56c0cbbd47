//! `dockviewers_core`: the framework-agnostic engine behind a packed-grid tiling layout.
//! Tiles have a fixed starting size, snap to an integer step grid, never overlap once settled,
//! and leave whitespace below. The data model ([`model`]), the gesture reducer ([`state`]) and
//! the responsive configuration ([`config`]) are plain data plus operations with contracts, and
//! [`laws`] states what holds across several of them.

pub mod config;
pub mod laws;
pub mod model;
pub mod persist;
pub mod reload;
pub mod state;
pub mod unique;

mod css;

pub use config::{Band, Breakpoint, Config, Keybind, Keybinds, Saved};
pub use css::CSS;
pub use model::packed::{PackedGrid, Step};
pub use model::{Group, GroupId, PanelId};
pub use state::{ContentSlot, DragGhost, Frame, KeyOutcome, PackedState, SlotPlace, Tab};
