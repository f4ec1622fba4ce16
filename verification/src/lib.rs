//! Framed text channels between a dispatching server and identified clients.
//!
//! The verified core: the byte-stuffed wire framing, the text commands carried
//! in frames, the per-channel message queues of the server, and the decisions
//! that the server, listener, connector and client loops take.

pub mod frame;
pub mod command;
pub mod channel;
pub mod dispatch;
pub mod registry;
pub mod listener;
pub mod connector;
pub mod client;

pub use channel::ChannelInfo;
pub use command::{ChannelCommand, ServerCommand};
pub use frame::Frame;
