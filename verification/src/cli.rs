//! The program's command-line settings.
use vstd::prelude::*;

verus! {

/// Which view of the graph to open.
#[derive(Clone, Copy, PartialEq, Eq, Structural, Debug)]
pub enum RendererType {
    TwoD,
    ThreeD,
}

/// The settings the program runs with.
pub struct Args {
    /// The directory of the vault to show.
    pub vault_path: String,
    pub renderer: RendererType,
}

} // verus!
