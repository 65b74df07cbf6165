//! The per-match relay: an authoritative board between two clients.
//!
//! The relay validates each move against its own board and forwards
//! only what the board accepts; illegal moves are silently dropped.
//! It stops on abandonment, on a disconnect, or when the board admits
//! no further move for either colour.

use vstd::prelude::*;

use crate::board::{Board, Grid, Piece, initial_grid, spec_can_place, cell, in_bounds};
use crate::command::{Command, CommandV};
use crate::packets::{ClientId, Packet, PacketV};
use crate::score::{has_move, Score};

verus! {

/// A running match between a Black and a White client.
pub struct Game {
    board: Board,
    black: ClientId,
    white: ClientId,
    running: bool,
}

impl Game {
    /// The authoritative board's contents.
    pub closed spec fn grid(self) -> Grid {
        self.board.grid()
    }

    /// Whose turn the authoritative board holds it to be.
    pub closed spec fn turn(self) -> Piece {
        self.board.spec_turn()
    }

    /// The id playing the given colour.
    pub closed spec fn spec_player(self, piece: Piece) -> ClientId {
        match piece {
            Piece::Black => self.black,
            Piece::White => self.white,
        }
    }

    /// The relay still forwards moves.
    pub closed spec fn spec_running(self) -> bool {
        self.running
    }

    /// The board keeps its shape.
    pub closed spec fn well_formed(self) -> bool {
        self.board.well_formed()
    }

    /// Open a match between the two clients on a fresh board and tell
    /// both: each learns its opponent and its colour.
    pub fn new(black: ClientId, white: ClientId) -> (r: (Game, Vec<Command>))
        ensures
            r.0.well_formed(),
            r.0.grid() == initial_grid(),
            r.0.turn() == Piece::Black,
            r.0.spec_player(Piece::Black) == black,
            r.0.spec_player(Piece::White) == white,
            r.0.spec_running(),
            r.1.deep_view() =~= seq![
                CommandV::Send(black, PacketV::StartGame(white, Piece::Black)),
                CommandV::Send(white, PacketV::StartGame(black, Piece::White)),
            ],
    {
        let game = Game { board: Board::new(), black, white, running: true };
        let mut out: Vec<Command> = Vec::new();
        out.push(Command::Send(black, Packet::StartGame(white, Piece::Black)));
        out.push(Command::Send(white, Packet::StartGame(black, Piece::White)));
        (game, out)
    }

    /// Read access to the authoritative board.
    pub fn board(&self) -> (r: &Board)
        ensures
            r.grid() == self.grid(),
            r.spec_turn() == self.turn(),
            self.well_formed() ==> r.well_formed(),
    {
        &self.board
    }

    /// The id playing the given colour.
    pub fn get_player(&self, piece: Piece) -> (r: ClientId)
        ensures
            r == self.spec_player(piece),
    {
        match piece {
            Piece::Black => self.black,
            Piece::White => self.white,
        }
    }

    /// Whether the relay still forwards moves.
    pub fn is_running(&self) -> (r: bool)
        ensures
            r == self.spec_running(),
    {
        self.running
    }

    /// Handle one packet sent by the player of colour `piece`.
    ///
    /// A placement is tried on the authoritative board and forwarded
    /// only on success; a pass is forwarded only on the sender's turn;
    /// an abandonment or a disconnect is forwarded and ends the relay;
    /// after the relay has ended, and for a packet naming the wrong
    /// opponent, nothing happens. The relay also ends when the board
    /// admits no further move for either colour.
    pub fn handle_packet(&mut self, piece: Piece, packet: &Packet) -> (r: Vec<Command>)
        requires
            old(self).well_formed(),
        ensures
            final(self).well_formed(),
            final(self).spec_player(Piece::Black) == old(self).spec_player(Piece::Black),
            final(self).spec_player(Piece::White) == old(self).spec_player(Piece::White),
            !old(self).spec_running() ==> *final(self) == *old(self)
                && r.deep_view() =~= Seq::<CommandV>::empty(),
            old(self).spec_running() ==> (match packet@ {
                PacketV::PlacePiece(opp, x, y) => {
                    let legal = opp == old(self).spec_player(piece.spec_opposite())
                        && old(self).turn() == piece && in_bounds(x as int, y as int)
                        && cell(old(self).grid(), x as int, y as int) is None
                        && spec_can_place(old(self).grid(), x as int, y as int, piece);
                    if legal {
                        &&& final(self).turn() == piece.spec_opposite()
                        &&& cell(final(self).grid(), x as int, y as int) == Some(piece)
                        &&& forall|cx: int, cy: int|
                            in_bounds(cx, cy) && !(cx == x as int && cy == y as int)
                                ==> cell(final(self).grid(), cx, cy)
                                    == (if crate::board::spec_flipped(old(self).grid(),
                                            x as int, y as int, piece, cx, cy) {
                                        Some(piece)
                                    } else {
                                        cell(old(self).grid(), cx, cy)
                                    })
                        &&& final(self).spec_running()
                            == (has_move(final(self).grid(), Piece::Black)
                                || has_move(final(self).grid(), Piece::White))
                        &&& r.deep_view() =~= seq![CommandV::Send(
                            old(self).spec_player(piece.spec_opposite()),
                            PacketV::PlacePiece(old(self).spec_player(piece), x, y))]
                    } else {
                        final(self).grid() == old(self).grid()
                            && final(self).turn() == old(self).turn()
                            && final(self).spec_running()
                            && r.deep_view() =~= Seq::<CommandV>::empty()
                    }
                },
                PacketV::Pass(opp) => {
                    if opp == old(self).spec_player(piece.spec_opposite())
                        && old(self).turn() == piece {
                        &&& final(self).grid() == old(self).grid()
                        &&& final(self).turn() == piece.spec_opposite()
                        &&& final(self).spec_running()
                        &&& r.deep_view() =~= seq![CommandV::Send(
                            old(self).spec_player(piece.spec_opposite()),
                            PacketV::Pass(old(self).spec_player(piece)))]
                    } else {
                        final(self).grid() == old(self).grid()
                            && final(self).turn() == old(self).turn()
                            && final(self).spec_running()
                            && r.deep_view() =~= Seq::<CommandV>::empty()
                    }
                },
                PacketV::AbandonGame(_) => {
                    &&& final(self).grid() == old(self).grid()
                    &&& !final(self).spec_running()
                    &&& r.deep_view() =~= seq![CommandV::Send(
                        old(self).spec_player(piece.spec_opposite()),
                        PacketV::AbandonGame(old(self).spec_player(piece)))]
                },
                PacketV::Disconnect => {
                    &&& final(self).grid() == old(self).grid()
                    &&& !final(self).spec_running()
                    &&& r.deep_view() =~= seq![CommandV::Send(
                        old(self).spec_player(piece.spec_opposite()),
                        PacketV::AbandonGame(old(self).spec_player(piece)))]
                },
                _ => *final(self) == *old(self)
                    && r.deep_view() =~= Seq::<CommandV>::empty(),
            }),
    {
        let empty_out: Vec<Command> = Vec::new();
        proof {
            assert(empty_out.deep_view() =~= Seq::<CommandV>::empty());
        }
        if !self.running {
            return empty_out;
        }
        let me = self.get_player(piece);
        let opponent = self.get_player(piece.opposite());
        match packet {
            Packet::PlacePiece(opp, x, y) => {
                if *opp != opponent {
                    return empty_out;
                }
                if self.board.place((*x, *y), piece) {
                    let score = Score::score(&self.board);
                    let decided = match score.winner() {
                        Some(_) => true,
                        None => false,
                    };
                    if decided {
                        self.running = false;
                    }
                    let mut out: Vec<Command> = Vec::new();
                    out.push(Command::Send(opponent, Packet::PlacePiece(me, *x, *y)));
                    proof {
                        assert(out.deep_view() =~= seq![CommandV::Send(opponent,
                            PacketV::PlacePiece(me, *x, *y))]);
                    }
                    out
                } else {
                    empty_out
                }
            },
            Packet::Pass(opp) => {
                if *opp != opponent {
                    return empty_out;
                }
                let turn_matches = self.board.turn() == piece;
                if turn_matches {
                    self.board.pass();
                    let mut out: Vec<Command> = Vec::new();
                    out.push(Command::Send(opponent, Packet::Pass(me)));
                    proof {
                        assert(out.deep_view() =~= seq![CommandV::Send(opponent,
                            PacketV::Pass(me))]);
                    }
                    out
                } else {
                    empty_out
                }
            },
            Packet::AbandonGame(_) => {
                self.running = false;
                let mut out: Vec<Command> = Vec::new();
                out.push(Command::Send(opponent, Packet::AbandonGame(me)));
                proof {
                    assert(out.deep_view() =~= seq![CommandV::Send(opponent,
                        PacketV::AbandonGame(me))]);
                }
                out
            },
            Packet::Disconnect => {
                self.running = false;
                let mut out: Vec<Command> = Vec::new();
                out.push(Command::Send(opponent, Packet::AbandonGame(me)));
                proof {
                    assert(out.deep_view() =~= seq![CommandV::Send(opponent,
                        PacketV::AbandonGame(me))]);
                }
                out
            },
            _ => empty_out,
        }
    }
}

} // verus!
