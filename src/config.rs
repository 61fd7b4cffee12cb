//! Saved settings of the interfaces.

use vstd::prelude::*;
use crate::sorted::SortType;

verus! {

/// Which interface starts when no argument chooses one.
#[derive(Clone, Copy, Debug, PartialEq, Eq, Structural)]
pub enum Mode {
    Gui,
    Tui,
}

/// Saved settings of the terminal interface.
#[derive(Clone, Copy, Debug, PartialEq, Eq, Structural)]
pub struct TuiConfig {
    pub sort_column: usize,
    pub sort_type: SortType,
    pub show_cpu_per_core: bool,
}

/// Saved settings.
#[derive(Clone, Copy, Debug, PartialEq, Eq, Structural)]
pub struct Config {
    pub mode: Mode,
    pub tui: TuiConfig,
}

impl Default for Config {
    /// The settings used when none are saved: terminal interface, tree view
    /// on the command column, per-core CPU shown.
    fn default() -> (r: Config)
        ensures
            r == (Config {
                mode: Mode::Tui,
                tui: TuiConfig { sort_column: 0, sort_type: SortType::Tree, show_cpu_per_core: true },
            }),
    {
        Config {
            mode: Mode::Tui,
            tui: TuiConfig { sort_column: 0, sort_type: SortType::Tree, show_cpu_per_core: true },
        }
    }
}

} // verus!
