//! Remote tmux sessions: the control-mode transport, the conversion of tmux layouts into split
//! trees, and the attachment that mirrors a remote session.
pub mod attachment;
pub mod convert;
pub mod dcs;
pub mod effects;
pub mod keeping;
pub mod laws;
pub mod replies;
pub mod transport;

pub use attachment::RemoteAttachment;
pub use convert::layout_to_node;
pub use transport::{RemoteTmux, TransportEvent};

