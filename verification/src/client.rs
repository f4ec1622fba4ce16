use vstd::prelude::*;

use crate::command::{ChannelCommand, CommandView, ServerCommand};

verus! {

/// A client pings the server when this many seconds passed since its last
/// ping.
pub const PING_INTERVAL_SECONDS: u64 = 5;

/// A client stops reconnecting once more than this many reconnects were
/// made.
pub const MAX_RECONNECTS: u32 = 8;

/// Whether a ping is due, `elapsed_seconds` after the last one.
pub fn ping_due(elapsed_seconds: u64) -> (due: bool)
    ensures
        due == (elapsed_seconds >= PING_INTERVAL_SECONDS),
{
    elapsed_seconds >= PING_INTERVAL_SECONDS
}

/// Whether a client connects again after a connection ended, when
/// `attempts` reconnects were made so far.
pub open spec fn reconnects(should_reconnect: bool, interrupted: bool, attempts: u32) -> bool {
    should_reconnect && !interrupted && attempts <= MAX_RECONNECTS
}

/// After a connection ended: the count of reconnects made once the client
/// connects again, or `None` when it stops.
pub fn next_attempt(should_reconnect: bool, interrupted: bool, attempts: u32) -> (next: Option<u32>)
    ensures
        next is Some <==> reconnects(should_reconnect, interrupted, attempts),
        next matches Some(n) ==> n == attempts + 1,
        !should_reconnect ==> next is None,
        interrupted ==> next is None,
        attempts > 8 ==> next is None,
        should_reconnect && !interrupted && attempts <= 8 ==> next == Some((attempts + 1) as u32),
{
    if !should_reconnect || interrupted {
        return None;
    }
    if attempts > MAX_RECONNECTS {
        return None;
    }
    Some(attempts + 1)
}

/// How many connections a client makes, from the one it makes with
/// `attempts` reconnects made, when reconnecting is on and nobody
/// interrupts it.
pub open spec fn connections_from(attempts: u32) -> nat
    decreases MAX_RECONNECTS + 1 - attempts,
{
    if reconnects(true, false, attempts) {
        1 + connections_from((attempts + 1) as u32)
    } else {
        1
    }
}

/// A client connects at most ten times in all: the first connection and
/// nine reconnects.
pub proof fn lemma_connection_bound()
    ensures
        connections_from(0) == MAX_RECONNECTS + 2,
{
    reveal_with_fuel(connections_from, 11);
}

/// Whether a command from the client's owner asks it to stop.
pub fn is_terminate(command: &ServerCommand) -> (stop: bool)
    ensures
        stop == (*command is Terminate),
{
    match command {
        ServerCommand::Terminate => true,
        _ => false,
    }
}

/// What a client hands its user for a command received from the server:
/// the channel id and message of a channel message, and nothing else.
pub fn delivery(command: ChannelCommand) -> (handed: Option<(String, String)>)
    ensures
        match command@ {
            CommandView::ChannelMessage(id, msg) => handed matches Some((i, m)) && i@ == id && m@
                == msg,
            _ => handed is None,
        },
{
    match command {
        ChannelCommand::ChannelMessage((id, msg)) => Some((id, msg)),
        _ => None,
    }
}

} // verus!
