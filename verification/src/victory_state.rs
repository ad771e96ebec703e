//! Whether a board has been won.

use vstd::prelude::*;

verus! {

/// Derived from the board on demand, never stored: `Won` exactly when
/// every foundation has been built up to the king.
#[derive(Clone, Copy, PartialEq, Eq, Structural, Debug)]
pub enum VictoryState {
    Won,
    Ongoing,
}

} // verus!
