//! What a handler asks the connection layer to do in answer to a
//! packet: send to one client, send to all, or start a match.

use vstd::prelude::*;

use crate::packets::{ClientId, Packet, PacketV};

verus! {

impl DeepView for Packet {
    type V = PacketV;

    open spec fn deep_view(&self) -> PacketV {
        self.view()
    }
}

/// An instruction to the connection layer.
#[derive(Clone, Debug, PartialEq)]
pub enum Command {
    /// Send the packet to the one client.
    Send(ClientId, Packet),
    /// Send the packet to every connected client.
    Broadcast(Packet),
    /// Create a game relay between the two clients; the first plays
    /// Black, the second White.
    StartMatch(ClientId, ClientId),
}

/// The mathematical content of a command.
pub enum CommandV {
    Send(u64, PacketV),
    Broadcast(PacketV),
    StartMatch(u64, u64),
}

impl View for Command {
    type V = CommandV;

    open spec fn view(&self) -> CommandV {
        match self {
            Command::Send(id, p) => CommandV::Send(*id, p@),
            Command::Broadcast(p) => CommandV::Broadcast(p@),
            Command::StartMatch(b, w) => CommandV::StartMatch(*b, *w),
        }
    }
}

impl DeepView for Command {
    type V = CommandV;

    open spec fn deep_view(&self) -> CommandV {
        self.view()
    }
}

} // verus!
