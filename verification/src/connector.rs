use vstd::prelude::*;

use crate::command::{command_text, ChannelCommand, CommandView};
use crate::frame::encode;
use crate::listener::command_bytes;
use vstd::utf8::encode_utf8;

verus! {

/// A command the user of a client may have sent to the server:
/// an identification, a termination or a ping.
pub open spec fn outbound(c: CommandView) -> bool {
    c is Identify || c is Terminate || c is Ping
}

/// The state of a client's connection: its identity, and the command waiting
/// to be written to the server (at first, the identification).
pub struct ConnectorSession {
    identity: String,
    pending: Option<ChannelCommand>,
}

impl ConnectorSession {
    /// The identity of the client.
    pub closed spec fn identity(&self) -> Seq<char> {
        self.identity@
    }

    /// The command waiting to be written, if any.
    pub closed spec fn pending(&self) -> Option<CommandView> {
        match self.pending {
            Some(c) => Some(c@),
            None => None,
        }
    }

    /// A new connection of the client `identity`: it first identifies itself.
    pub fn new(identity: String) -> (session: ConnectorSession)
        ensures
            session.identity() == identity@,
            session.pending() == Some(CommandView::Identify(identity@)),
    {
        let first = ChannelCommand::Identify(identity.clone());
        ConnectorSession { identity, pending: Some(first) }
    }

    /// The bytes to write now: those of the waiting command, if any.
    pub fn pending_bytes(&self) -> (bytes: Option<Vec<u8>>)
        ensures
            match self.pending() {
                Some(c) => bytes matches Some(b) && b@ == encode(encode_utf8(command_text(c))),
                None => bytes is None,
            },
    {
        match &self.pending {
            Some(c) => Some(command_bytes(c)),
            None => None,
        }
    }

    /// The waiting command was written.
    pub fn on_written(&mut self)
        ensures
            final(self).pending() is None,
            final(self).identity() == old(self).identity(),
    {
        self.pending = None;
    }

    /// Whether a failed write ends the connection: when the peer reset or
    /// aborted it. Otherwise the command stays waiting and is written again.
    pub fn write_failure_ends(&self, reset_or_aborted: bool) -> (ends: bool)
        ensures
            ends == reset_or_aborted,
    {
        reset_or_aborted
    }

    /// Whether the user may send `command` through a client.
    pub fn is_outbound(command: &ChannelCommand) -> (ok: bool)
        ensures
            ok == outbound(command@),
    {
        match command {
            ChannelCommand::Identify(_) => true,
            ChannelCommand::Terminate(_) => true,
            ChannelCommand::Ping => true,
            _ => false,
        }
    }

    /// The user sent a command to the server through the client; it replaces
    /// any command still waiting.
    pub fn on_control(&mut self, command: ChannelCommand)
        requires
            outbound(command@),
        ensures
            final(self).pending() == Some(command@),
            final(self).identity() == old(self).identity(),
    {
        self.pending = Some(command);
    }

    /// Whether a command read from the server is handed to the user: only a
    /// channel message addressed to this client's identity.
    pub fn is_for_me(&self, command: &ChannelCommand) -> (forward: bool)
        ensures
            forward == (command@ matches CommandView::ChannelMessage(id, _) && id == self.identity()),
    {
        match command {
            ChannelCommand::ChannelMessage((id, _)) => id.eq(&self.identity),
            _ => false,
        }
    }
}

} // verus!
