use othello::board::Piece;
use othello::cli_game::OnlineGame;
use othello::lobby::{find_name_or_id, parse_client_id, RequestGameSequence, SequenceStatus};
use othello::login::{LoginEvent, LoginSequence, LoginStep};
use othello::mailbox::Mailbox;
use othello::packets::Packet;

#[test]
fn login_sequence_happy_path() {
    let mut seq = LoginSequence::start();
    assert_eq!(seq.step(), LoginStep::AwaitConnect);
    let ev = seq.on_packet(&Packet::ConnectSuccess(1));
    assert_eq!(ev, LoginEvent::SendLogin);
    assert_eq!(seq.id(), 1);
    let ev = seq.on_packet(&Packet::LoginAccept);
    assert_eq!(ev, LoginEvent::Done(1));
    assert_eq!(seq.step(), LoginStep::Accepted);
    // later packets are not the sequence's business
    let ev = seq.on_packet(&Packet::Pass(2));
    assert_eq!(ev, LoginEvent::Ignored);
}

#[test]
fn login_sequence_denied() {
    let mut seq = LoginSequence::start();
    seq.on_packet(&Packet::ConnectSuccess(2));
    let ev = seq.on_packet(&Packet::LoginDeny(String::from("Name already in use.")));
    assert_eq!(ev, LoginEvent::Denied(String::from("Name already in use.")));
    assert_eq!(seq.step(), LoginStep::Failed);
}

#[test]
fn login_sequence_protocol_errors() {
    let mut seq = LoginSequence::start();
    let ev = seq.on_packet(&Packet::LoginAccept);
    assert_eq!(ev, LoginEvent::Protocol);
    assert_eq!(seq.step(), LoginStep::Failed);

    let mut seq = LoginSequence::start();
    seq.on_packet(&Packet::ConnectSuccess(3));
    let ev = seq.on_packet(&Packet::Message(1, String::from("hello")));
    assert_eq!(ev, LoginEvent::Protocol);
    assert_eq!(seq.step(), LoginStep::Failed);
}

fn sample_list() -> Vec<(u64, String)> {
    vec![(1, String::from("Alice")), (2, String::from("bob")), (7, String::from("42"))]
}

#[test]
fn find_by_name_ignores_case() {
    let list = sample_list();
    assert_eq!(find_name_or_id(&list, &String::from("alice")),
        Some((1, String::from("Alice"))));
    assert_eq!(find_name_or_id(&list, &String::from("BOB")),
        Some((2, String::from("bob"))));
}

#[test]
fn find_by_id_when_no_name_matches() {
    let list = sample_list();
    assert_eq!(find_name_or_id(&list, &String::from("2")),
        Some((2, String::from("bob"))));
    assert_eq!(find_name_or_id(&list, &String::from("3")), None);
    assert_eq!(find_name_or_id(&list, &String::from("carol")), None);
}

#[test]
fn a_name_that_looks_numeric_wins_over_the_id() {
    let list = sample_list();
    // "42" is a login name here; the name match comes first
    assert_eq!(find_name_or_id(&list, &String::from("42")),
        Some((7, String::from("42"))));
}

#[test]
fn parse_client_id_accepts_what_the_standard_parser_accepts() {
    assert_eq!(parse_client_id(&String::from("0")), Some(0));
    assert_eq!(parse_client_id(&String::from("42")), Some(42));
    assert_eq!(parse_client_id(&String::from("+42")), Some(42));
    assert_eq!(parse_client_id(&String::from("0042")), Some(42));
    assert_eq!(parse_client_id(&String::from("18446744073709551615")),
        Some(u64::MAX));
    assert_eq!(parse_client_id(&String::from("18446744073709551616")), None);
    assert_eq!(parse_client_id(&String::from("")), None);
    assert_eq!(parse_client_id(&String::from("+")), None);
    assert_eq!(parse_client_id(&String::from("-1")), None);
    assert_eq!(parse_client_id(&String::from("4a2")), None);
}

#[test]
fn parse_client_id_agrees_with_the_standard_parser() {
    let samples = [
        "", "0", "7", "42", "+42", "++42", "0042", "-1", " 42", "42 ", "4a2",
        "18446744073709551615", "18446744073709551616", "99999999999999999999999",
        "+18446744073709551615", "000000000000000000000042", "\u{0660}",
    ];
    for s in samples {
        assert_eq!(
            parse_client_id(&String::from(s)),
            s.parse::<u64>().ok(),
            "diverges on {:?}",
            s
        );
    }
}

#[test]
fn local_request_needs_a_known_player_and_no_game() {
    let list = sample_list();
    let r = RequestGameSequence::local_request(&String::from("bob"), &list, false);
    let (seq, packet) = r.expect("the player is on the server");
    assert_eq!(seq.status(), SequenceStatus::Running);
    assert_eq!(packet, Packet::RequestGame(2));
    // names must match exactly here
    assert!(RequestGameSequence::local_request(&String::from("BOB"), &list, false)
        .is_none());
    // no second game while one is running
    assert!(RequestGameSequence::local_request(&String::from("bob"), &list, true)
        .is_none());
}

#[test]
fn remote_request_decision() {
    assert_eq!(RequestGameSequence::remote_request(5, false, false, true),
        (true, Some(Packet::RequestGame(5))));
    assert_eq!(RequestGameSequence::remote_request(5, false, false, false),
        (false, Some(Packet::DenyGame(5))));
    assert_eq!(RequestGameSequence::remote_request(5, true, false, true), (false, None));
    assert_eq!(RequestGameSequence::remote_request(5, false, true, true), (false, None));
}

#[test]
fn mailbox_delivers_in_publication_order() {
    let mut mb = Mailbox::new(8);
    assert!(mb.push(Packet::Pass(1)));
    assert!(mb.push(Packet::Pass(2)));
    assert!(mb.push(Packet::Pass(3)));
    assert_eq!(mb.pop(), Some(Packet::Pass(1)));
    assert_eq!(mb.pop(), Some(Packet::Pass(2)));
    assert_eq!(mb.pop(), Some(Packet::Pass(3)));
    assert_eq!(mb.pop(), None);
}

#[test]
fn mailbox_overflow_drops_the_subscriber() {
    let mut mb = Mailbox::new(2);
    assert!(mb.push(Packet::Pass(1)));
    assert!(mb.push(Packet::Pass(2)));
    // the mailbox is full: the publisher is not blocked, the
    // subscriber is failed, and only the tail is lost
    assert!(!mb.push(Packet::Pass(3)));
    assert!(!mb.push(Packet::Pass(4)));
    assert_eq!(mb.pop(), Some(Packet::Pass(1)));
    assert_eq!(mb.pop(), Some(Packet::Pass(2)));
    assert_eq!(mb.pop(), None);
}

#[test]
fn online_game_mirrors_the_match() {
    // this client plays White against client 1
    let mut game = OnlineGame::new(Piece::White, 1);
    assert!(game.running());
    // the opponent's validated opening move is mirrored
    assert!(game.handle_packet(&Packet::PlacePiece(1, 2, 3)));
    assert_eq!(game.board().squares()[2][3], Some(Piece::Black));
    assert_eq!(game.board().squares()[3][3], Some(Piece::Black));
    assert_eq!(game.board().turn(), Piece::White);
    // an own legal move yields the packet for the server
    assert_eq!(game.try_place(2, 2), Some(Packet::PlacePiece(1, 2, 2)));
    // an own illegal move yields nothing and stays local
    assert_eq!(game.try_place(0, 0), None);
    // packets of other clients or other kinds are left alone
    assert!(!game.handle_packet(&Packet::PlacePiece(9, 4, 2)));
    assert!(!game.handle_packet(&Packet::Message(1, String::from("hi"))));
    // the opponent abandons: the match ends
    assert!(game.handle_packet(&Packet::AbandonGame(1)));
    assert!(!game.running());
}

#[test]
fn online_game_passes_only_on_the_own_turn() {
    let mut game = OnlineGame::new(Piece::White, 1);
    // Black moves first: White cannot pass yet
    assert_eq!(game.try_pass(), None);
    // the opponent passes: now it is White's turn
    assert!(game.handle_packet(&Packet::Pass(1)));
    assert_eq!(game.try_pass(), Some(Packet::Pass(1)));
}

#[test]
fn online_game_abandon_yields_the_notice() {
    let mut game = OnlineGame::new(Piece::Black, 7);
    assert_eq!(game.abandon(), Packet::AbandonGame(7));
    assert!(!game.running());
}
