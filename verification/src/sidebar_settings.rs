//! State of the sidebar panel that presentation shells build around the
//! engine.
//!
//! Only the state lives here: which settings tab is selected.  Rendering
//! is presentation and stays outside the library.

use vstd::prelude::*;

verus! {

/// Marker for the sidebar panel itself; shells render it, the library
/// only carries its state in [`SidebarSettings`].
#[derive(Clone, Copy, Debug, PartialEq, Eq, Structural)]
pub struct Sidebar;

/// The settings tab the sidebar currently shows.
#[derive(Clone, Copy, Debug, PartialEq, Eq, Structural)]
pub enum SidebarTab {
    GridSettings,
    PlotSettings,
}

/// Sidebar state: the selected tab.
#[derive(Clone, Copy, Debug, PartialEq, Eq, Structural)]
pub struct SidebarSettings {
    pub current_tab: SidebarTab,
}

impl Default for SidebarSettings {
    /// A fresh sidebar shows the grid settings tab.
    fn default() -> (r: SidebarSettings)
        ensures
            r.current_tab == SidebarTab::GridSettings,
    {
        SidebarSettings { current_tab: SidebarTab::GridSettings }
    }
}

} // verus!
