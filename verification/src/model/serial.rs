//! The versioned envelope a layout is stored in. The JSON encoding itself is done by serde
//! outside this crate; this module tags a grid with the schema version on the way out, and on
//! the way in turns a parse failure or a payload from a newer schema into an error, never into a
//! silently reset layout.

use vstd::prelude::*;

use crate::model::packed::{GridView, PackedGrid};

verus! {

/// `serde_json::Error`, carried opaquely inside a [`LoadError`].
#[verifier::external_type_specification]
#[verifier::external_body]
pub struct ExJsonError(serde_json::Error);

/// Bumped when the stored shape changes; loading would migrate older payloads.
pub const SCHEMA_VERSION: u32 = 1;

/// The versioned wrapper actually written to storage.
#[derive(Debug)]
pub struct Serialized {
    pub version: u32,
    pub grid: PackedGrid,
}

/// Why a stored layout could not be loaded.
#[derive(Debug)]
pub enum LoadError {
    /// The payload is not a well-formed layout.
    Parse(serde_json::Error),
    /// The payload is newer than this build understands.
    FutureVersion(u32),
}

/// What opening envelope `s` yields: its grid, unless it comes from a newer schema.
pub open spec fn opened(s: Serialized) -> Option<GridView> {
    if accepts(s.version) {
        Some(s.grid@)
    } else {
        None
    }
}

/// Wrap `grid` in the envelope `save` writes: tagged with the current schema version.
pub fn envelope(grid: PackedGrid) -> (s: Serialized)
    ensures
        s.version == SCHEMA_VERSION,
        s.grid@ == grid@,
        opened(s) == Some(grid@),
{
    Serialized { version: SCHEMA_VERSION, grid }
}

/// What loading a parsed envelope yields: its grid, unless it comes from a newer schema.
pub open spec fn accepts(version: u32) -> bool {
    version <= SCHEMA_VERSION
}

/// Finish loading a parsed payload: a parse failure stays an error, a payload from a newer schema
/// is refused with its version, anything else yields its grid unchanged.
pub fn open_envelope(parsed: Result<Serialized, serde_json::Error>) -> (r: Result<PackedGrid, LoadError>)
    ensures
        parsed is Err ==> r matches Err(LoadError::Parse(_)),
        parsed matches Ok(s) ==> (accepts(s.version) <==> r is Ok),
        parsed matches Ok(s) ==> (r matches Ok(g) ==> g@ == s.grid@),
        parsed matches Ok(s) ==> (!accepts(s.version) ==> (r matches Err(LoadError::FutureVersion(v)) && v
            == s.version)),
        parsed matches Ok(s) ==> match r {
            Ok(g) => opened(s) == Some(g@),
            Err(_) => opened(s) is None,
        },
{
    match parsed {
        Err(e) => Err(LoadError::Parse(e)),
        Ok(s) => {
            if s.version > SCHEMA_VERSION {
                Err(LoadError::FutureVersion(s.version))
            } else {
                Ok(s.grid)
            }
        },
    }
}

/// Loading what was saved gives the grid back: opening any envelope tagged with the current
/// schema version, as `save` writes it, yields exactly its grid, id counter included, so ids
/// minted after a reload never repeat one minted before.
pub proof fn law_saved_envelope_loads(s: Serialized, g: GridView)
    requires
        s.version == SCHEMA_VERSION,
        s.grid@ == g,
    ensures
        opened(s) == Some(g),
        opened(s).unwrap().next_group_id == g.next_group_id,
{
}

} // verus!
