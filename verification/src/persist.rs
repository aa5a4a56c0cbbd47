//! Layout persistence outside a browser: there is no storage, so nothing is ever read back and
//! writes are dropped. (The browser build reads and writes `localStorage` in the host binding.)

use vstd::prelude::*;

verus! {

/// A saved layout under `key`: never present without a browser.
pub fn read(key: &str) -> (r: Option<String>)
    ensures
        r is None,
{
    None
}

/// Persist a layout under `key`: a no-op without a browser.
pub fn write(key: &str, json: &str) {
}

} // verus!
