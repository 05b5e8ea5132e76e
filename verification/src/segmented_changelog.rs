//! Which segmented changelog a server gets.

use vstd::prelude::*;

verus! {

/// The kinds of segmented changelog that a server can be given.
#[derive(Clone, Copy, Debug, PartialEq, Eq, Structural)]
pub enum ServerChangelog {
    /// None: every request is refused.
    Disabled,
    /// One that is built in the process and updated on demand.
    OnDemand,
    /// The one that the manager loads, once.
    Loaded,
    /// The one that the manager loads, loaded anew after each period.
    PeriodicReload,
}

/// The kind of segmented changelog that the configuration asks for. A
/// changelog that is built on demand follows no other setting.
pub fn server_changelog(enabled: bool, skip_dag_load_at_startup: bool, reloads: bool) -> (r: ServerChangelog)
    ensures
        r == if !enabled {
            ServerChangelog::Disabled
        } else if skip_dag_load_at_startup {
            ServerChangelog::OnDemand
        } else if reloads {
            ServerChangelog::PeriodicReload
        } else {
            ServerChangelog::Loaded
        },
{
    if !enabled {
        return ServerChangelog::Disabled;
    }
    if skip_dag_load_at_startup {
        return ServerChangelog::OnDemand;
    }
    if reloads {
        ServerChangelog::PeriodicReload
    } else {
        ServerChangelog::Loaded
    }
}

} // verus!
