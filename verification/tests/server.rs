use othello::board::Piece;
use othello::command::Command;
use othello::game::Game;
use othello::gamehandler::GameHandler;
use othello::master::Master;
use othello::packets::{reader_step, Packet, PacketReadError};
use othello::score::Score;
use std::collections::HashMap;

#[test]
fn happy_login() {
    let mut master = Master::new();
    let out = master.handle_packet(1, &Packet::Login(String::from("alice")));
    assert_eq!(out, vec![
        Command::Send(1, Packet::LoginAccept),
        Command::Broadcast(Packet::ClientList(vec![(1, String::from("alice"))])),
    ]);
    assert_eq!(master.get_login_name(1), Some(String::from("alice")));
    assert_eq!(master.get_id(&String::from("alice")), Some(1));
}

#[test]
fn duplicate_name_is_denied() {
    let mut master = Master::new();
    master.handle_packet(1, &Packet::Login(String::from("alice")));
    let out = master.handle_packet(2, &Packet::Login(String::from("alice")));
    assert_eq!(out, vec![Command::Send(2,
        Packet::LoginDeny(String::from("Name already in use.")))]);
    // the registry is unchanged
    assert_eq!(master.get_login_name(2), None);
    assert_eq!(master.get_id(&String::from("alice")), Some(1));
}

#[test]
fn relogin_changes_the_name() {
    let mut master = Master::new();
    master.handle_packet(1, &Packet::Login(String::from("alice")));
    let out = master.handle_packet(1, &Packet::Login(String::from("carol")));
    assert_eq!(out, vec![
        Command::Send(1, Packet::LoginAccept),
        Command::Broadcast(Packet::ClientList(vec![(1, String::from("carol"))])),
    ]);
    assert_eq!(master.get_id(&String::from("alice")), None);
}

#[test]
fn disconnect_frees_the_name() {
    let mut master = Master::new();
    master.handle_packet(1, &Packet::Login(String::from("alice")));
    master.handle_packet(2, &Packet::Login(String::from("bob")));
    let out = master.handle_packet(1, &Packet::Disconnect);
    assert_eq!(out, vec![Command::Broadcast(Packet::ClientList(vec![
        (2, String::from("bob")),
    ]))]);
    // the name can be claimed again
    let out = master.handle_packet(3, &Packet::Login(String::from("alice")));
    assert_eq!(out[0], Command::Send(3, Packet::LoginAccept));
}

#[test]
fn message_is_forwarded_with_the_sender() {
    let mut master = Master::new();
    let out = master.handle_packet(4, &Packet::Message(7, String::from("hi")));
    assert_eq!(out, vec![Command::Send(7, Packet::Message(4, String::from("hi")))]);
}

#[test]
fn client_list_on_request() {
    let mut master = Master::new();
    master.handle_packet(1, &Packet::Login(String::from("alice")));
    let out = master.handle_packet(1, &Packet::RequestClientList);
    assert_eq!(out, vec![Command::Send(1,
        Packet::ClientList(vec![(1, String::from("alice"))]))]);
}

#[test]
fn game_packets_before_login_are_ignored_by_the_registry() {
    let mut master = Master::new();
    let out = master.handle_packet(1, &Packet::RequestGame(2));
    assert_eq!(out, vec![]);
}

#[test]
fn game_packets_are_gated_until_login() {
    let mut master = Master::new();
    // before logging in, nothing game-related passes to the handlers
    assert!(!master.admits_game_packet(1, &Packet::RequestGame(2)));
    assert!(!master.admits_game_packet(1, &Packet::PlacePiece(2, 2, 3)));
    assert!(!master.admits_game_packet(1, &Packet::Pass(2)));
    // lobby traffic and disconnects always pass
    assert!(master.admits_game_packet(1, &Packet::Disconnect));
    assert!(master.admits_game_packet(1, &Packet::Message(2, String::from("hi"))));
    assert!(master.admits_game_packet(1, &Packet::RequestClientList));
    // after the login the client may play
    master.handle_packet(1, &Packet::Login(String::from("alice")));
    assert!(master.admits_game_packet(1, &Packet::RequestGame(2)));
    // a disconnect takes the right away again
    master.handle_packet(1, &Packet::Disconnect);
    assert!(!master.admits_game_packet(1, &Packet::RequestGame(2)));
}

#[test]
fn reader_step_decides_one_read_outcome() {
    assert_eq!(reader_step(Ok(Packet::Pass(3))), Some(Packet::Pass(3)));
    assert_eq!(reader_step(Err(PacketReadError::Closed)), Some(Packet::Disconnect));
    assert_eq!(reader_step(Err(PacketReadError::DeserializeError)), None);
    assert_eq!(reader_step(Err(PacketReadError::IOError)), None);
}

#[test]
fn mutual_challenge_starts_game() {
    let mut handler = GameHandler::new();
    // C1 asks for a game with C2; the server forwards the request
    let out = handler.handle_packet(1, &Packet::RequestGame(2));
    assert_eq!(out, vec![Command::Send(2, Packet::RequestGame(1))]);
    // C2 asks back: the game starts, the initial requester is Black,
    // and no further request is forwarded
    let out = handler.handle_packet(2, &Packet::RequestGame(1));
    assert_eq!(out, vec![Command::StartMatch(1, 2)]);
    let (_game, hello) = Game::new(1, 2);
    assert_eq!(hello, vec![
        Command::Send(1, Packet::StartGame(2, Piece::Black)),
        Command::Send(2, Packet::StartGame(1, Piece::White)),
    ]);
}

#[test]
fn duplicate_request_is_ignored() {
    let mut handler = GameHandler::new();
    handler.handle_packet(1, &Packet::RequestGame(2));
    let out = handler.handle_packet(1, &Packet::RequestGame(2));
    assert_eq!(out, vec![]);
    // the pending pair still completes normally afterwards
    let out = handler.handle_packet(2, &Packet::RequestGame(1));
    assert_eq!(out, vec![Command::StartMatch(1, 2)]);
}

#[test]
fn self_request_is_ignored() {
    let mut handler = GameHandler::new();
    let out = handler.handle_packet(1, &Packet::RequestGame(1));
    assert_eq!(out, vec![]);
}

#[test]
fn deny_clears_the_request() {
    let mut handler = GameHandler::new();
    handler.handle_packet(1, &Packet::RequestGame(2));
    let out = handler.handle_packet(2, &Packet::DenyGame(1));
    assert_eq!(out, vec![Command::Send(1, Packet::DenyGame(2))]);
    // nothing left to deny
    let out = handler.handle_packet(2, &Packet::DenyGame(1));
    assert_eq!(out, vec![]);
}

#[test]
fn disconnect_cleans_pending_pairs() {
    let mut handler = GameHandler::new();
    // pending (1,2) and (3,1)
    handler.handle_packet(1, &Packet::RequestGame(2));
    handler.handle_packet(3, &Packet::RequestGame(1));
    let out = handler.handle_packet(1, &Packet::Disconnect);
    assert_eq!(out, vec![
        Command::Send(2, Packet::DenyGame(1)),
        Command::Send(3, Packet::DenyGame(1)),
    ]);
    // no pair mentioning client 1 is left: a new request forwards
    let out = handler.handle_packet(3, &Packet::RequestGame(1));
    assert_eq!(out, vec![Command::Send(1, Packet::RequestGame(3))]);
}

#[test]
fn move_relay() {
    let (mut game, _) = Game::new(1, 2);
    // Black opens at (2,3); the board confirms and the move is relayed
    let out = game.handle_packet(Piece::Black, &Packet::PlacePiece(2, 2, 3));
    assert_eq!(out, vec![Command::Send(2, Packet::PlacePiece(1, 2, 3))]);
    // the authoritative board holds the move: the stone stands, the
    // enclosed white stone flipped, and the turn went to White
    assert_eq!(game.board().squares()[2][3], Some(Piece::Black));
    assert_eq!(game.board().squares()[3][3], Some(Piece::Black));
    assert_eq!(game.board().turn(), Piece::White);
    // White answers at (2,2), legal after the opening, and is relayed
    let out = game.handle_packet(Piece::White, &Packet::PlacePiece(1, 2, 2));
    assert_eq!(out, vec![Command::Send(1, Packet::PlacePiece(2, 2, 2))]);
    // an illegal move is dropped
    let out = game.handle_packet(Piece::Black, &Packet::PlacePiece(2, 0, 0));
    assert_eq!(out, vec![]);
    // a move naming the wrong opponent is dropped
    let out = game.handle_packet(Piece::Black, &Packet::PlacePiece(9, 4, 2));
    assert_eq!(out, vec![]);
    assert!(game.is_running());
}

#[test]
fn pass_is_relayed_only_on_turn() {
    let (mut game, _) = Game::new(1, 2);
    // not White's turn
    let out = game.handle_packet(Piece::White, &Packet::Pass(1));
    assert_eq!(out, vec![]);
    // Black may pass on its turn
    let out = game.handle_packet(Piece::Black, &Packet::Pass(2));
    assert_eq!(out, vec![Command::Send(2, Packet::Pass(1))]);
    // and now it is White's turn
    let out = game.handle_packet(Piece::White, &Packet::Pass(1));
    assert_eq!(out, vec![Command::Send(1, Packet::Pass(2))]);
}

#[test]
fn abandon_ends_the_relay() {
    let (mut game, _) = Game::new(1, 2);
    let out = game.handle_packet(Piece::Black, &Packet::AbandonGame(2));
    assert_eq!(out, vec![Command::Send(2, Packet::AbandonGame(1))]);
    assert!(!game.is_running());
    // subsequent moves from either side are ignored
    let out = game.handle_packet(Piece::White, &Packet::PlacePiece(1, 2, 2));
    assert_eq!(out, vec![]);
    let out = game.handle_packet(Piece::Black, &Packet::PlacePiece(2, 2, 3));
    assert_eq!(out, vec![]);
}

#[test]
fn disconnect_cascades() {
    // the relay treats a disconnect as an implicit abandon
    let (mut game, _) = Game::new(1, 2);
    let out = game.handle_packet(Piece::Black, &Packet::Disconnect);
    assert_eq!(out, vec![Command::Send(2, Packet::AbandonGame(1))]);
    assert!(!game.is_running());
    // the match-maker clears the pending pairs of the vanished client
    let mut handler = GameHandler::new();
    handler.handle_packet(1, &Packet::RequestGame(3));
    let out = handler.handle_packet(1, &Packet::Disconnect);
    assert_eq!(out, vec![Command::Send(3, Packet::DenyGame(1))]);
    // the registry removes the client and broadcasts the new list
    let mut master = Master::new();
    master.handle_packet(1, &Packet::Login(String::from("alice")));
    master.handle_packet(2, &Packet::Login(String::from("bob")));
    let out = master.handle_packet(1, &Packet::Disconnect);
    assert_eq!(out, vec![Command::Broadcast(Packet::ClientList(vec![
        (2, String::from("bob")),
    ]))]);
}

#[test]
fn relay_ends_when_the_board_is_decided() {
    // both players move greedily until the board admits no further
    // move for either colour; the relay must stop on its own
    let (mut game, _) = Game::new(1, 2);
    let mut steps = 0;
    while game.is_running() && steps < 400 {
        let piece = game.board().turn();
        let opponent = if piece == Piece::Black { 2 } else { 1 };
        let moves = game.board().opportunities(piece);
        let packet = match moves.first() {
            Some(&(x, y)) => Packet::PlacePiece(opponent, x, y),
            None => Packet::Pass(opponent),
        };
        game.handle_packet(piece, &packet);
        steps += 1;
    }
    assert!(!game.is_running());
    assert!(Score::score(game.board()).winner().is_some());
}

#[test]
fn search_free_id_returns_the_first_free_id_along_the_order() {
    let mut map: HashMap<u64, ()> = HashMap::new();
    // an empty server hands the very first peer id 1
    assert_eq!(othello::nethandler::search_free_id(&map, 1), Some(1));
    map.insert(1, ());
    map.insert(2, ());
    // the search runs upward from the hint, skipping live ids
    assert_eq!(othello::nethandler::search_free_id(&map, 1), Some(3));
    assert_eq!(othello::nethandler::search_free_id(&map, 2), Some(3));
    // a freed low id is not taken before the high range runs out
    map.remove(&1);
    map.insert(3, ());
    assert_eq!(othello::nethandler::search_free_id(&map, 2), Some(4));
}

#[test]
fn search_free_id_wraps_through_the_low_range() {
    let mut map: HashMap<u64, ()> = HashMap::new();
    for k in (u64::MAX - 4)..u64::MAX {
        map.insert(k, ());
    }
    // everything from the hint upward is taken; the search wraps and
    // finds the lowest freed id again
    assert_eq!(othello::nethandler::search_free_id(&map, u64::MAX - 4), Some(1));
    map.insert(1, ());
    map.insert(2, ());
    assert_eq!(othello::nethandler::search_free_id(&map, u64::MAX - 4), Some(3));
}
