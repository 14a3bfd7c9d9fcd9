//! Error conditions surfaced by the core. Structural conditions indicate a
//! corrupt tree or unavailable geometry and abandon the current event;
//! ordinary "nothing found" outcomes are absences, not errors.

use vstd::prelude::*;

verus! {

#[derive(Debug, Clone, Copy, PartialEq, Eq, Structural)]
pub enum WmError {
    /// An ancestor that had to be a workspace or split container is not.
    NoDirectionContainer,
    /// A container that had to belong to a monitor does not.
    NoMonitor,
    /// A window that had to belong to a workspace does not.
    NoWorkspace,
    /// A container whose geometry was needed has none recorded.
    NoGeometry,
    /// A drop target had tiling children but none could be chosen.
    NoNearestContainer,
    /// The platform could not supply the mouse position.
    PlatformUnavailable,
}

} // verus!
