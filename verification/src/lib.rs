//! Core of a tiling window manager: a mutable tree of display containers
//! (monitors, workspaces, split containers, tiling and floating windows)
//! together with the algorithms that keep that tree consistent as focus
//! moves, windows are dragged, and monitors change — directional focus
//! navigation, monitor/point resolution, and the drag-end arrangement
//! engine. Native side effects are only accumulated into a pending-sync
//! queue; an outside collaborator drains it.

pub mod arrange;
pub mod error;
pub mod focus;
pub mod geometry;
pub mod monitor;
pub mod state;
pub mod tree;
pub mod tree_ops;

pub use geometry::Point;
