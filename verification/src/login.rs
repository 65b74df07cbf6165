//! The client's login sequence: the decisions of connecting to the
//! server, from the first packet to an accepted or denied login.
//!
//! The surrounding connection code reads packets and feeds them in;
//! this state machine says what to send and when the login is done.

use vstd::prelude::*;

use crate::packets::{ClientId, Packet, PacketV};

verus! {

/// Where the login sequence stands.
#[derive(Clone, Copy, Debug, PartialEq, Eq, Structural)]
pub enum LoginStep {
    /// Waiting for the server to assign an id.
    AwaitConnect,
    /// The login request is out; waiting for accept or deny.
    AwaitAnswer,
    /// The server accepted the login.
    Accepted,
    /// The sequence ended without a login.
    Failed,
}

/// What the caller must do after feeding in one packet.
#[derive(Clone, Debug, PartialEq)]
pub enum LoginEvent {
    /// Nothing; the packet arrived after the sequence ended.
    Ignored,
    /// Send `Login(name)` to the server.
    SendLogin,
    /// The login went through under this session id.
    Done(ClientId),
    /// The server denied the login for this reason.
    Denied(String),
    /// The peer broke the protocol; the connection is unusable.
    Protocol,
}

/// The login sequence's state.
pub struct LoginSequence {
    step: LoginStep,
    client_id: ClientId,
}

impl LoginSequence {
    /// Where the sequence stands.
    pub closed spec fn spec_step(self) -> LoginStep {
        self.step
    }

    /// The id the server assigned, meaningful from `AwaitAnswer` on.
    pub closed spec fn spec_id(self) -> ClientId {
        self.client_id
    }

    /// Start the login sequence: the first expected packet is the
    /// server's `ConnectSuccess`.
    pub fn start() -> (r: LoginSequence)
        ensures
            r.spec_step() == LoginStep::AwaitConnect,
    {
        LoginSequence { step: LoginStep::AwaitConnect, client_id: 0 }
    }

    /// The id the server assigned.
    pub fn id(&self) -> (r: ClientId)
        ensures
            r == self.spec_id(),
    {
        self.client_id
    }

    /// Where the sequence stands.
    pub fn step(&self) -> (r: LoginStep)
        ensures
            r == self.spec_step(),
    {
        self.step
    }

    /// Feed in the next packet from the server.
    ///
    /// Expected are first `ConnectSuccess(id)`, answered by sending the
    /// login, then `LoginAccept` or `LoginDeny(reason)`; any other
    /// packet in either state breaks the protocol and ends the
    /// sequence. Packets after the end are ignored.
    pub fn on_packet(&mut self, packet: &Packet) -> (r: LoginEvent)
        ensures
            (match old(self).spec_step() {
                LoginStep::AwaitConnect => match packet@ {
                    PacketV::ConnectSuccess(id) => final(self).spec_step()
                            == LoginStep::AwaitAnswer
                        && final(self).spec_id() == id && r == LoginEvent::SendLogin,
                    _ => final(self).spec_step() == LoginStep::Failed
                        && r == LoginEvent::Protocol,
                },
                LoginStep::AwaitAnswer => match packet@ {
                    PacketV::LoginAccept => final(self).spec_step() == LoginStep::Accepted
                        && final(self).spec_id() == old(self).spec_id()
                        && r == LoginEvent::Done(old(self).spec_id()),
                    PacketV::LoginDeny(reason) => final(self).spec_step() == LoginStep::Failed
                        && (r matches LoginEvent::Denied(why) && why@ == reason),
                    _ => final(self).spec_step() == LoginStep::Failed
                        && r == LoginEvent::Protocol,
                },
                _ => *final(self) == *old(self) && r == LoginEvent::Ignored,
            }),
    {
        match self.step {
            LoginStep::AwaitConnect => match packet {
                Packet::ConnectSuccess(id) => {
                    self.step = LoginStep::AwaitAnswer;
                    self.client_id = *id;
                    LoginEvent::SendLogin
                },
                _ => {
                    self.step = LoginStep::Failed;
                    LoginEvent::Protocol
                },
            },
            LoginStep::AwaitAnswer => match packet {
                Packet::LoginAccept => {
                    self.step = LoginStep::Accepted;
                    LoginEvent::Done(self.client_id)
                },
                Packet::LoginDeny(reason) => {
                    self.step = LoginStep::Failed;
                    LoginEvent::Denied(reason.clone())
                },
                _ => {
                    self.step = LoginStep::Failed;
                    LoginEvent::Protocol
                },
            },
            _ => LoginEvent::Ignored,
        }
    }
}

} // verus!
