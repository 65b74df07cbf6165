use othello::board::Piece;
use othello::packets::{Packet, MAX_PACKET_SIZE};

fn round_trip(p: Packet) {
    let bytes = p.encode().expect("packet should fit a frame");
    assert!(bytes.len() as u64 <= MAX_PACKET_SIZE);
    let (q, n) = Packet::decode(&bytes).expect("an encoded frame should decode");
    assert_eq!(q, p);
    assert_eq!(n, bytes.len());
}

#[test]
fn round_trip_every_variant() {
    round_trip(Packet::ConnectSuccess(1));
    round_trip(Packet::Disconnect);
    round_trip(Packet::Login(String::from("alice")));
    round_trip(Packet::LoginAccept);
    round_trip(Packet::LoginDeny(String::from("Name already in use.")));
    round_trip(Packet::RequestClientList);
    round_trip(Packet::ClientList(vec![]));
    round_trip(Packet::ClientList(vec![
        (1, String::from("alice")),
        (2, String::from("bob")),
    ]));
    round_trip(Packet::RequestGame(2));
    round_trip(Packet::DenyGame(3));
    round_trip(Packet::AbandonGame(4));
    round_trip(Packet::StartGame(5, Piece::Black));
    round_trip(Packet::StartGame(5, Piece::White));
    round_trip(Packet::PlacePiece(6, 2, 3));
    round_trip(Packet::Pass(7));
    round_trip(Packet::Message(8, String::from("hi there")));
    round_trip(Packet::Login(String::from("")));
    round_trip(Packet::Message(9, String::from("snowman \u{2603}")));
}

#[test]
fn encode_of_decode_gives_the_bytes_back() {
    let bytes = Packet::Message(3, String::from("hello")).encode().unwrap();
    let (p, n) = Packet::decode(&bytes).unwrap();
    assert_eq!(n, bytes.len());
    assert_eq!(p.encode().unwrap(), bytes);
}

#[test]
fn connect_success_layout() {
    let bytes = Packet::ConnectSuccess(1).encode().unwrap();
    assert_eq!(bytes, vec![0, 0, 0, 0, 1, 0, 0, 0, 0, 0, 0, 0]);
}

#[test]
fn login_layout() {
    let bytes = Packet::Login(String::from("ab")).encode().unwrap();
    let expect = vec![
        2, 0, 0, 0, // tag
        2, 0, 0, 0, 0, 0, 0, 0, // byte length
        b'a', b'b',
    ];
    assert_eq!(bytes, expect);
}

#[test]
fn client_list_layout() {
    let bytes = Packet::ClientList(vec![(1, String::from("alice"))]).encode().unwrap();
    let expect = vec![
        6, 0, 0, 0, // tag
        1, 0, 0, 0, 0, 0, 0, 0, // one entry
        1, 0, 0, 0, 0, 0, 0, 0, // id
        5, 0, 0, 0, 0, 0, 0, 0, // name length
        b'a', b'l', b'i', b'c', b'e',
    ];
    assert_eq!(bytes, expect);
}

#[test]
fn start_game_layout() {
    let black = Packet::StartGame(2, Piece::Black).encode().unwrap();
    assert_eq!(black[12..16], [0, 0, 0, 0]);
    let white = Packet::StartGame(2, Piece::White).encode().unwrap();
    assert_eq!(white[12..16], [1, 0, 0, 0]);
}

#[test]
fn place_piece_layout() {
    let bytes = Packet::PlacePiece(2, 2, 3).encode().unwrap();
    assert_eq!(bytes.len(), 14);
    assert_eq!(bytes[12], 2);
    assert_eq!(bytes[13], 3);
}

#[test]
fn decode_reads_a_literal_frame() {
    let bytes = vec![7, 0, 0, 0, 9, 0, 0, 0, 0, 0, 0, 0];
    let (p, n) = Packet::decode(&bytes).unwrap();
    assert_eq!(p, Packet::RequestGame(9));
    assert_eq!(n, 12);
}

#[test]
fn decode_ignores_trailing_bytes() {
    let mut bytes = Packet::Pass(4).encode().unwrap();
    let frame_len = bytes.len();
    bytes.extend_from_slice(&[0xAB; 100]);
    let (p, n) = Packet::decode(&bytes).unwrap();
    assert_eq!(p, Packet::Pass(4));
    assert_eq!(n, frame_len);
}

#[test]
fn decode_rejects_malformed_frames() {
    // unknown tag
    assert!(Packet::decode(&[99, 0, 0, 0, 0, 0, 0, 0]).is_none());
    // too short for any frame
    assert!(Packet::decode(&[]).is_none());
    assert!(Packet::decode(&[0, 0]).is_none());
    // id field cut off
    assert!(Packet::decode(&[0, 0, 0, 0, 1, 2]).is_none());
    // string length runs past the buffer
    assert!(Packet::decode(&[2, 0, 0, 0, 200, 0, 0, 0, 0, 0, 0, 0, b'a']).is_none());
    // string bytes that are not UTF-8
    assert!(Packet::decode(&[2, 0, 0, 0, 1, 0, 0, 0, 0, 0, 0, 0, 0xFF]).is_none());
    // a piece code that is neither colour
    assert!(Packet::decode(&[
        10, 0, 0, 0, 1, 0, 0, 0, 0, 0, 0, 0, 7, 0, 0, 0,
    ]).is_none());
}

#[test]
fn encode_refuses_an_oversized_frame() {
    // tag + id + length + text: the text may take at most 492 bytes
    let fits = "x".repeat(492);
    let too_big = "x".repeat(493);
    assert!(Packet::Message(1, fits.clone()).encode().is_some());
    assert_eq!(Packet::Message(1, fits).encode().unwrap().len(), 512);
    assert!(Packet::Message(1, too_big).encode().is_none());
}
