use vstd::prelude::*;

use crate::command::{command_text, ChannelCommand, CommandView};
use crate::frame::encode;
use vstd::utf8::encode_utf8;

verus! {

/// The bytes `command` is sent as: the wire form of its frame.
pub fn command_bytes(command: &ChannelCommand) -> (bytes: Vec<u8>)
    ensures
        bytes@ == encode(encode_utf8(command_text(command@))),
{
    command.clone().into_frame().into_bytes()
}

/// What a connection handler tells the server about channel ids.
pub enum Registration {
    /// The connection identified itself: messages for this id go to it.
    Register(String),
    /// Messages for this id have nowhere to go any more.
    Unregister(String),
}

/// The state of the server's handler of one connection: the job id the
/// connection identified itself with (empty until then), and the command
/// waiting to be written to it.
pub struct ListenerSession {
    job_id: String,
    pending: Option<ChannelCommand>,
}

impl ListenerSession {
    /// The job id the connection identified itself with.
    pub closed spec fn job_id(&self) -> Seq<char> {
        self.job_id@
    }

    /// The command waiting to be written, if any.
    pub closed spec fn pending(&self) -> Option<CommandView> {
        match self.pending {
            Some(c) => Some(c@),
            None => None,
        }
    }

    /// A new connection: no job id, nothing to write.
    pub fn new() -> (session: ListenerSession)
        ensures
            session.job_id() == Seq::<char>::empty(),
            session.pending() is None,
    {
        ListenerSession { job_id: String::new(), pending: None }
    }

    /// The server handed down a command for this connection; it replaces any
    /// command still waiting.
    pub fn on_downstream(&mut self, command: ChannelCommand)
        ensures
            final(self).pending() == Some(command@),
            final(self).job_id() == old(self).job_id(),
    {
        self.pending = Some(command);
    }

    /// The bytes to write now: those of the waiting command, if any.
    pub fn pending_bytes(&self) -> (bytes: Option<Vec<u8>>)
        ensures
            match self.pending() {
                Some(c) => bytes matches Some(b) && b@ == encode(encode_utf8(command_text(c))),
                None => bytes is None,
            },
    {
        match &self.pending {
            Some(c) => Some(command_bytes(c)),
            None => None,
        }
    }

    /// The waiting command was written.
    pub fn on_written(&mut self)
        ensures
            final(self).pending() is None,
            final(self).job_id() == old(self).job_id(),
    {
        self.pending = None;
    }

    /// Whether a failed write ends the connection: only when the peer reset
    /// it. Otherwise the command stays waiting and is written again.
    pub fn write_failure_ends(&self, connection_reset: bool) -> (ends: bool)
        ensures
            ends == connection_reset,
    {
        connection_reset
    }

    /// Handles a command read from the connection. An identification
    /// records the job id and registers it; a termination unregisters the id
    /// it names; a ping is answered with a pong; anything else is ignored.
    pub fn on_command(&mut self, command: ChannelCommand) -> (notice: Option<Registration>)
        ensures
            match command@ {
                CommandView::Identify(id) => {
                    &&& final(self).job_id() == id
                    &&& final(self).pending() == old(self).pending()
                    &&& notice matches Some(Registration::Register(r)) && r@ == id
                },
                CommandView::Terminate(id) => {
                    &&& final(self).job_id() == old(self).job_id()
                    &&& final(self).pending() == old(self).pending()
                    &&& notice matches Some(Registration::Unregister(r)) && r@ == id
                },
                CommandView::Ping => {
                    &&& final(self).job_id() == old(self).job_id()
                    &&& final(self).pending() == Some(CommandView::Pong)
                    &&& notice is None
                },
                _ => {
                    &&& final(self).job_id() == old(self).job_id()
                    &&& final(self).pending() == old(self).pending()
                    &&& notice is None
                },
            },
    {
        match command {
            ChannelCommand::Identify(id) => {
                let registered = id.clone();
                self.job_id = id;
                Some(Registration::Register(registered))
            },
            ChannelCommand::Terminate(id) => Some(Registration::Unregister(id)),
            ChannelCommand::Ping => {
                self.pending = Some(ChannelCommand::Pong);
                None
            },
            _ => None,
        }
    }

    /// What the server is told when the connection breaks: its job id has
    /// nowhere to go.
    pub fn closing_notice(&self) -> (notice: Registration)
        ensures
            notice matches Registration::Unregister(r) && r@ == self.job_id(),
    {
        Registration::Unregister(self.job_id.clone())
    }
}

} // verus!
