//! The client's view of a running online match: the mirrored board,
//! the own colour and the opponent's id.
//!
//! The packet dispatch and the move decisions are the client's game
//! logic; rendering and the sending of packets stay outside. The
//! server stays authoritative: moves of the opponent arrive already
//! validated and are mirrored, own moves are checked locally before a
//! packet goes out.

use vstd::prelude::*;

use crate::board::{
    cell, in_bounds, initial_grid, spec_can_place, spec_flipped, Board, Grid, Piece,
};
use crate::packets::{ClientId, Packet, PacketV};

verus! {

/// A running online match, seen from one client.
pub struct OnlineGame {
    board: Board,
    piece: Piece,
    opponent: ClientId,
    running: bool,
}

impl OnlineGame {
    /// The mirrored board's contents.
    pub closed spec fn grid(self) -> Grid {
        self.board.grid()
    }

    /// Whose turn the mirrored board holds it to be.
    pub closed spec fn turn(self) -> Piece {
        self.board.spec_turn()
    }

    /// The colour this client plays.
    pub closed spec fn spec_piece(self) -> Piece {
        self.piece
    }

    /// The opponent's id.
    pub closed spec fn spec_opponent(self) -> ClientId {
        self.opponent
    }

    /// The match has neither been abandoned nor ended.
    pub closed spec fn spec_running(self) -> bool {
        self.running
    }

    /// The board keeps its shape.
    pub closed spec fn well_formed(self) -> bool {
        self.board.well_formed()
    }

    /// Start mirroring a fresh match, as announced by `StartGame`.
    pub fn new(piece: Piece, opponent: ClientId) -> (r: OnlineGame)
        ensures
            r.well_formed(),
            r.grid() == initial_grid(),
            r.turn() == Piece::Black,
            r.spec_piece() == piece,
            r.spec_opponent() == opponent,
            r.spec_running(),
    {
        OnlineGame { board: Board::new(), piece, opponent, running: true }
    }

    /// Read access to the mirrored board.
    pub fn board(&self) -> (r: &Board)
        ensures
            r.grid() == self.grid(),
            r.spec_turn() == self.turn(),
            self.well_formed() ==> r.well_formed(),
    {
        &self.board
    }

    /// The colour this client plays.
    pub fn piece(&self) -> (r: Piece)
        ensures
            r == self.spec_piece(),
    {
        self.piece
    }

    /// The opponent's id.
    pub fn opponent(&self) -> (r: ClientId)
        ensures
            r == self.spec_opponent(),
    {
        self.opponent
    }

    /// Whether the match is still on.
    pub fn running(&self) -> (r: bool)
        ensures
            r == self.spec_running(),
    {
        self.running
    }

    /// Try to play the own colour at `(x, y)`: the move is checked on
    /// the mirrored board first, and only a legal move yields the
    /// packet to send to the server.
    pub fn try_place(&mut self, x: u8, y: u8) -> (r: Option<Packet>)
        requires
            old(self).well_formed(),
        ensures
            final(self).well_formed(),
            final(self).spec_piece() == old(self).spec_piece(),
            final(self).spec_opponent() == old(self).spec_opponent(),
            final(self).spec_running() == old(self).spec_running(),
            ({
                let me = old(self).spec_piece();
                let legal = old(self).turn() == me && in_bounds(x as int, y as int)
                    && cell(old(self).grid(), x as int, y as int) is None
                    && spec_can_place(old(self).grid(), x as int, y as int, me);
                if legal {
                    &&& final(self).turn() == me.spec_opposite()
                    &&& cell(final(self).grid(), x as int, y as int) == Some(me)
                    &&& forall|cx: int, cy: int|
                        in_bounds(cx, cy) && !(cx == x as int && cy == y as int)
                            ==> cell(final(self).grid(), cx, cy)
                                == (if spec_flipped(old(self).grid(), x as int, y as int,
                                        me, cx, cy) {
                                    Some(me)
                                } else {
                                    cell(old(self).grid(), cx, cy)
                                })
                    &&& (r matches Some(p)
                        && p@ == PacketV::PlacePiece(old(self).spec_opponent(), x, y))
                } else {
                    final(self).grid() == old(self).grid()
                        && final(self).turn() == old(self).turn() && r is None
                }
            }),
    {
        if self.board.place((x, y), self.piece) {
            Some(Packet::PlacePiece(self.opponent, x, y))
        } else {
            None
        }
    }

    /// Try to pass: only on the own turn, yielding the packet to send.
    pub fn try_pass(&mut self) -> (r: Option<Packet>)
        requires
            old(self).well_formed(),
        ensures
            final(self).well_formed(),
            final(self).grid() == old(self).grid(),
            final(self).spec_piece() == old(self).spec_piece(),
            final(self).spec_opponent() == old(self).spec_opponent(),
            final(self).spec_running() == old(self).spec_running(),
            if old(self).turn() == old(self).spec_piece() {
                final(self).turn() == old(self).spec_piece().spec_opposite()
                    && (r matches Some(p) && p@ == PacketV::Pass(old(self).spec_opponent()))
            } else {
                final(self).turn() == old(self).turn() && r is None
            },
    {
        let own_turn = self.board.turn() == self.piece;
        if own_turn {
            self.board.pass();
            Some(Packet::Pass(self.opponent))
        } else {
            None
        }
    }

    /// Give the match up, yielding the packet that tells the server.
    pub fn abandon(&mut self) -> (r: Packet)
        ensures
            final(self).grid() == old(self).grid(),
            final(self).turn() == old(self).turn(),
            final(self).spec_piece() == old(self).spec_piece(),
            final(self).spec_opponent() == old(self).spec_opponent(),
            !final(self).spec_running(),
            old(self).well_formed() ==> final(self).well_formed(),
            r@ == PacketV::AbandonGame(old(self).spec_opponent()),
    {
        self.running = false;
        Packet::AbandonGame(self.opponent)
    }

    /// Handle one packet from the server. Returns true when the packet
    /// belonged to this game and was consumed: a relayed move of the
    /// opponent is mirrored, a relayed pass flips the turn, an
    /// abandonment ends the match. A packet naming another client, or
    /// of another kind, is left for the rest of the client.
    pub fn handle_packet(&mut self, packet: &Packet) -> (r: bool)
        requires
            old(self).well_formed(),
        ensures
            final(self).well_formed(),
            final(self).spec_piece() == old(self).spec_piece(),
            final(self).spec_opponent() == old(self).spec_opponent(),
            (match packet@ {
                PacketV::PlacePiece(from, x, y) => if from == old(self).spec_opponent() {
                    let opp = old(self).spec_piece().spec_opposite();
                    let legal = old(self).turn() == opp && in_bounds(x as int, y as int)
                        && cell(old(self).grid(), x as int, y as int) is None
                        && spec_can_place(old(self).grid(), x as int, y as int, opp);
                    &&& r
                    &&& final(self).spec_running() == old(self).spec_running()
                    &&& (if legal {
                        final(self).turn() == opp.spec_opposite()
                            && cell(final(self).grid(), x as int, y as int) == Some(opp)
                            && forall|cx: int, cy: int|
                                in_bounds(cx, cy) && !(cx == x as int && cy == y as int)
                                    ==> cell(final(self).grid(), cx, cy)
                                        == (if spec_flipped(old(self).grid(), x as int,
                                                y as int, opp, cx, cy) {
                                            Some(opp)
                                        } else {
                                            cell(old(self).grid(), cx, cy)
                                        })
                    } else {
                        final(self).grid() == old(self).grid()
                            && final(self).turn() == old(self).turn()
                    })
                } else {
                    !r && *final(self) == *old(self)
                },
                PacketV::Pass(from) => if from == old(self).spec_opponent() {
                    r && final(self).grid() == old(self).grid()
                        && final(self).turn() == old(self).turn().spec_opposite()
                        && final(self).spec_running() == old(self).spec_running()
                } else {
                    !r && *final(self) == *old(self)
                },
                PacketV::AbandonGame(from) => if from == old(self).spec_opponent() {
                    r && final(self).grid() == old(self).grid()
                        && final(self).turn() == old(self).turn()
                        && !final(self).spec_running()
                } else {
                    !r && *final(self) == *old(self)
                },
                _ => !r && *final(self) == *old(self),
            }),
    {
        match packet {
            Packet::PlacePiece(from, x, y) => {
                if *from != self.opponent {
                    return false;
                }
                // the server validated the move; mirror it
                self.board.place((*x, *y), self.piece.opposite());
                true
            },
            Packet::Pass(from) => {
                if *from != self.opponent {
                    return false;
                }
                self.board.pass();
                true
            },
            Packet::AbandonGame(from) => {
                if *from != self.opponent {
                    return false;
                }
                self.running = false;
                true
            },
            _ => false,
        }
    }
}

} // verus!
