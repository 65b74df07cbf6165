//! The wire vocabulary: a closed tagged union of messages, the client
//! identifier type, and the errors a read can end in.

use vstd::prelude::*;

use crate::board::Piece;

verus! {

/// Identifier the server hands to a connected client; `0` is reserved
/// for the server itself.
pub type ClientId = u64;

/// The id the server goes by.
pub const SERVER_ID: ClientId = 0;

/// One frame may hold at most this many bytes on the wire.
pub const MAX_PACKET_SIZE: u64 = 512;

/// A packet of the protocol.
#[derive(Clone, Debug, PartialEq)]
pub enum Packet {
    /// Packet to let the client know which id it will have. This is the
    /// first packet sent to the client when the connection stands.
    ConnectSuccess(ClientId),
    /// Never sent over the network; synthesized locally to handle
    /// disconnects gracefully.
    Disconnect,
    /// Login with the requested name. The server answers with
    /// `LoginAccept` or `LoginDeny`.
    Login(String),
    /// Positive login response.
    LoginAccept,
    /// Negative login response; the argument is the reason.
    LoginDeny(String),
    /// Ask for the current client list (client to server only).
    RequestClientList,
    /// The complete list of client ids and names (server to client only).
    ClientList(Vec<(ClientId, String)>),
    /// Request a game. Going to the server the id names the requestee;
    /// coming from the server it names the requester. Sending it back
    /// towards the original requester accepts the request.
    RequestGame(ClientId),
    /// Deny a game request; the id names the other endpoint.
    DenyGame(ClientId),
    /// Give up the running game against the client with this id.
    AbandonGame(ClientId),
    /// Start a game (server to client only): the opponent's id and the
    /// colour this client will play.
    StartGame(ClientId, Piece),
    /// Place a stone at `(x, y)`; the id names the opponent.
    PlacePiece(ClientId, u8, u8),
    /// Pass the turn; the id names the opponent.
    Pass(ClientId),
    /// A chat message. Going to the server the id names the target;
    /// coming from the server it names the sender.
    Message(ClientId, String),
}

/// The mathematical content of a packet: strings and lists replaced by
/// their views.
pub enum PacketV {
    ConnectSuccess(u64),
    Disconnect,
    Login(Seq<char>),
    LoginAccept,
    LoginDeny(Seq<char>),
    RequestClientList,
    ClientList(Seq<(u64, Seq<char>)>),
    RequestGame(u64),
    DenyGame(u64),
    AbandonGame(u64),
    StartGame(u64, Piece),
    PlacePiece(u64, u8, u8),
    Pass(u64),
    Message(u64, Seq<char>),
}

impl View for Packet {
    type V = PacketV;

    open spec fn view(&self) -> PacketV {
        match self {
            Packet::ConnectSuccess(id) => PacketV::ConnectSuccess(*id),
            Packet::Disconnect => PacketV::Disconnect,
            Packet::Login(name) => PacketV::Login(name@),
            Packet::LoginAccept => PacketV::LoginAccept,
            Packet::LoginDeny(reason) => PacketV::LoginDeny(reason@),
            Packet::RequestClientList => PacketV::RequestClientList,
            Packet::ClientList(list) => PacketV::ClientList(list.deep_view()),
            Packet::RequestGame(id) => PacketV::RequestGame(*id),
            Packet::DenyGame(id) => PacketV::DenyGame(*id),
            Packet::AbandonGame(id) => PacketV::AbandonGame(*id),
            Packet::StartGame(id, piece) => PacketV::StartGame(*id, *piece),
            Packet::PlacePiece(id, x, y) => PacketV::PlacePiece(*id, *x, *y),
            Packet::Pass(id) => PacketV::Pass(*id),
            Packet::Message(id, text) => PacketV::Message(*id, text@),
        }
    }
}

/// Why reading a packet from a peer failed.
#[derive(Clone, Copy, Debug, PartialEq, Eq, Structural)]
pub enum PacketReadError {
    /// The bytes read do not decode to a packet.
    DeserializeError,
    /// The socket reported an error.
    IOError,
    /// The connection has been closed by the peer: a read of zero bytes.
    Closed,
}

/// What a reader loop does with one read outcome: a closed connection
/// becomes a locally synthesized `Disconnect`, a failed read is
/// skipped, and a packet read passes through.
pub fn reader_step(result: Result<Packet, PacketReadError>) -> (r: Option<Packet>)
    ensures
        (match result {
            Ok(p) => r == Some(p),
            Err(PacketReadError::Closed) => r == Some(Packet::Disconnect),
            Err(_) => r is None,
        }),
{
    match result {
        Ok(p) => Some(p),
        Err(PacketReadError::Closed) => Some(Packet::Disconnect),
        Err(_) => None,
    }
}

/// Which half of a duplex connection an operation concerns.
#[derive(Clone, Copy, Debug, PartialEq, Eq, Structural)]
pub enum DirSocket {
    Read,
    Write,
    Both,
}

} // verus!
