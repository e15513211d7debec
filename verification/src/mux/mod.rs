//! The multiplexer model: sessions, windows and panes.
//!
//! A window holds a binary split tree of panes ([`layout`]); a session is an ordered list of
//! windows. Processes and pseudoconsoles live outside; a pane holds what is known of its own.
pub mod attention;
pub mod ids;
pub mod laws;
pub mod layout;
pub mod pane;
pub mod persist;
pub mod session;
pub mod window;
pub mod workspace;

pub use attention::Attention;
pub use ids::{Ids, PaneId, SessionId, WindowId};
pub use layout::{FocusDir, Node, Rect, SplitDir};
pub use pane::{Pane, PaneEvent, PaneSnapshot, PtySize};
pub use session::{Mux, MuxError, Session};
pub use window::Window;
pub use workspace::{PrBadge, PrStatus, WorkspaceInfo};
