//! The framed packet codec: a length-bounded binary layout for the
//! packet union, bounded by `MAX_PACKET_SIZE` bytes per frame.
//!
//! Layout: a 32-bit little-endian variant tag, then the fields in
//! order. Client ids are 64-bit little-endian; strings are a 64-bit
//! little-endian byte length followed by the UTF-8 bytes; the client
//! list is a 64-bit count followed by its entries; a piece and the two
//! board coordinates are a 32-bit tag and single bytes respectively.

use vstd::prelude::*;
use vstd::bytes::{
    spec_u32_to_le_bytes, spec_u64_to_le_bytes, u32_from_le_bytes, u32_to_le_bytes,
    u64_from_le_bytes, u64_to_le_bytes,
};
use vstd::utf8::{decode_utf8, encode_utf8, valid_utf8};

use crate::board::Piece;
use crate::packets::{Packet, PacketV, MAX_PACKET_SIZE};

verus! {

/// The variant tag a packet carries on the wire.
pub open spec fn tag_of(p: PacketV) -> u32 {
    match p {
        PacketV::ConnectSuccess(_) => 0,
        PacketV::Disconnect => 1,
        PacketV::Login(_) => 2,
        PacketV::LoginAccept => 3,
        PacketV::LoginDeny(_) => 4,
        PacketV::RequestClientList => 5,
        PacketV::ClientList(_) => 6,
        PacketV::RequestGame(_) => 7,
        PacketV::DenyGame(_) => 8,
        PacketV::AbandonGame(_) => 9,
        PacketV::StartGame(_, _) => 10,
        PacketV::PlacePiece(_, _, _) => 11,
        PacketV::Pass(_) => 12,
        PacketV::Message(_, _) => 13,
    }
}

/// The wire code of a piece.
pub open spec fn piece_code(p: Piece) -> u32 {
    match p {
        Piece::Black => 0,
        Piece::White => 1,
    }
}

/// The wire form of one string: byte length, then UTF-8 bytes.
pub open spec fn enc_str(s: Seq<char>) -> Seq<u8> {
    spec_u64_to_le_bytes(encode_utf8(s).len() as u64) + encode_utf8(s)
}

/// The wire form of one client-list entry: id, then name.
pub open spec fn enc_entry(e: (u64, Seq<char>)) -> Seq<u8> {
    spec_u64_to_le_bytes(e.0) + enc_str(e.1)
}

/// The wire form of the client-list entries, in order.
pub open spec fn enc_entries(l: Seq<(u64, Seq<char>)>) -> Seq<u8>
    decreases l.len(),
{
    if l.len() == 0 {
        Seq::empty()
    } else {
        enc_entry(l.first()) + enc_entries(l.drop_first())
    }
}

/// Every length field of the packet fits in its 64-bit slot. Every
/// packet built from executable values satisfies this.
pub open spec fn wire_len_ok(p: PacketV) -> bool {
    match p {
        PacketV::Login(s) => encode_utf8(s).len() < 0x1_0000_0000_0000_0000,
        PacketV::LoginDeny(s) => encode_utf8(s).len() < 0x1_0000_0000_0000_0000,
        PacketV::Message(_, s) => encode_utf8(s).len() < 0x1_0000_0000_0000_0000,
        PacketV::ClientList(l) => {
            &&& l.len() < 0x1_0000_0000_0000_0000
            &&& forall|i: int| 0 <= i < l.len()
                ==> encode_utf8((#[trigger] l[i]).1).len() < 0x1_0000_0000_0000_0000
        },
        _ => true,
    }
}

/// The bytes after the tag: the packet's fields in order.
pub open spec fn spec_payload(p: PacketV) -> Seq<u8> {
    match p {
        PacketV::ConnectSuccess(id) => spec_u64_to_le_bytes(id),
        PacketV::Disconnect => Seq::empty(),
        PacketV::Login(s) => enc_str(s),
        PacketV::LoginAccept => Seq::empty(),
        PacketV::LoginDeny(s) => enc_str(s),
        PacketV::RequestClientList => Seq::empty(),
        PacketV::ClientList(l) => spec_u64_to_le_bytes(l.len() as u64) + enc_entries(l),
        PacketV::RequestGame(id) => spec_u64_to_le_bytes(id),
        PacketV::DenyGame(id) => spec_u64_to_le_bytes(id),
        PacketV::AbandonGame(id) => spec_u64_to_le_bytes(id),
        PacketV::StartGame(id, piece) => spec_u64_to_le_bytes(id)
            + spec_u32_to_le_bytes(piece_code(piece)),
        PacketV::PlacePiece(id, x, y) => spec_u64_to_le_bytes(id) + seq![x] + seq![y],
        PacketV::Pass(id) => spec_u64_to_le_bytes(id),
        PacketV::Message(id, s) => spec_u64_to_le_bytes(id) + enc_str(s),
    }
}

/// The exact bytes a packet takes on the wire, before the size bound
/// is applied: the variant tag, then the fields.
pub open spec fn spec_encode(p: PacketV) -> Seq<u8> {
    spec_u32_to_le_bytes(tag_of(p)) + spec_payload(p)
}

/// A frame for `pv` stands at the front of `d` and takes `n` bytes.
pub open spec fn valid_prefix(d: Seq<u8>, pv: PacketV, n: int) -> bool {
    0 <= n <= d.len() && wire_len_ok(pv) && spec_encode(pv) == d.take(n)
}

/// A valid prefix fixes the tag bytes and the payload bytes.
proof fn lemma_valid_prefix_parts(d: Seq<u8>, pv: PacketV, n: int)
    requires
        valid_prefix(d, pv, n),
    ensures
        n == 4 + spec_payload(pv).len(),
        vstd::bytes::spec_u32_from_le_bytes(d.subrange(0, 4)) == tag_of(pv),
        spec_payload(pv) == d.subrange(4, n),
{
    vstd::bytes::lemma_auto_spec_u32_to_from_le_bytes();
    assert(spec_u32_to_le_bytes(tag_of(pv)).len() == 4);
    assert(spec_encode(pv).len() == n);
    assert(d.take(n).subrange(0, 4) =~= d.subrange(0, 4));
    assert(spec_encode(pv).subrange(0, 4) =~= spec_u32_to_le_bytes(tag_of(pv)));
    assert(d.take(n).subrange(4, n) =~= d.subrange(4, n));
    assert(spec_encode(pv).subrange(4, n) =~= spec_payload(pv));
}

/// Appending an entry extends the encoded entries at the end.
proof fn lemma_enc_entries_snoc(l: Seq<(u64, Seq<char>)>, e: (u64, Seq<char>))
    ensures
        enc_entries(l.push(e)) == enc_entries(l) + enc_entry(e),
    decreases l.len(),
{
    if l.len() == 0 {
        let lp = l.push(e);
        assert(lp.first() == e);
        assert(lp.drop_first() =~= Seq::<(u64, Seq<char>)>::empty());
        assert(enc_entries(lp) == enc_entry(lp.first()) + enc_entries(lp.drop_first()));
        assert(enc_entries(lp.drop_first()) =~= Seq::<u8>::empty());
        assert(enc_entries(lp) =~= enc_entry(e));
        assert(enc_entries(l) + enc_entry(e) =~= enc_entry(e));
    } else {
        assert(l.push(e).first() == l.first());
        assert(l.push(e).drop_first() =~= l.drop_first().push(e));
        lemma_enc_entries_snoc(l.drop_first(), e);
        assert(enc_entries(l.push(e))
            == enc_entry(l.first()) + (enc_entries(l.drop_first()) + enc_entry(e)));
        assert(enc_entry(l.first()) + (enc_entries(l.drop_first()) + enc_entry(e))
            =~= (enc_entry(l.first()) + enc_entries(l.drop_first())) + enc_entry(e));
    }
}

/// Append the little-endian bytes of `v` to `out`.
fn push_u64(out: &mut Vec<u8>, v: u64)
    ensures
        final(out)@ == old(out)@ + spec_u64_to_le_bytes(v),
{
    let mut b = u64_to_le_bytes(v);
    out.append(&mut b);
}

/// Append the little-endian bytes of `v` to `out`.
fn push_u32(out: &mut Vec<u8>, v: u32)
    ensures
        final(out)@ == old(out)@ + spec_u32_to_le_bytes(v),
{
    let mut b = u32_to_le_bytes(v);
    out.append(&mut b);
}

/// Append the wire form of a string to `out`.
fn push_str(out: &mut Vec<u8>, s: &String)
    ensures
        final(out)@ == old(out)@ + enc_str(s@),
        encode_utf8(s@).len() < 0x1_0000_0000_0000_0000,
{
    let bytes = s.as_str().as_bytes();
    push_u64(out, bytes.len() as u64);
    out.extend_from_slice(bytes);
    proof {
        assert(bytes@ == encode_utf8(s@));
        assert(final(out)@ =~= old(out)@ + enc_str(s@));
    }
}

/// Relies on std::str::from_utf8: it returns `Ok` exactly on valid
/// UTF-8 input, and decodes it.
#[verifier::external_body]
fn utf8_to_string(bytes: &[u8]) -> (r: Option<String>)
    ensures
        r is Some <==> valid_utf8(bytes@),
        r is Some ==> r.unwrap()@ == decode_utf8(bytes@),
{
    match core::str::from_utf8(bytes) {
        Ok(s) => Some(String::from_str(s)),
        Err(_) => None,
    }
}

/// Read the 64-bit little-endian number at `off`.
fn read_u64(data: &[u8], off: usize) -> (r: u64)
    requires
        off + 8 <= data@.len(),
    ensures
        r == vstd::bytes::spec_u64_from_le_bytes(data@.subrange(off as int, off as int + 8)),
{
    let dlen = data.len();
    proof {
        assert(off + 8 <= dlen);
    }
    let s = vstd::slice::slice_subrange(data, off, off + 8);
    u64_from_le_bytes(s)
}

/// Read the 32-bit little-endian number at `off`.
fn read_u32(data: &[u8], off: usize) -> (r: u32)
    requires
        off + 4 <= data@.len(),
    ensures
        r == vstd::bytes::spec_u32_from_le_bytes(data@.subrange(off as int, off as int + 4)),
{
    let dlen = data.len();
    proof {
        assert(off + 4 <= dlen);
    }
    let s = vstd::slice::slice_subrange(data, off, off + 4);
    u32_from_le_bytes(s)
}

/// Parse the wire form of one string found at `start`: a 64-bit byte
/// length, then that many UTF-8 bytes. The parse fails only when no
/// string stands there, and finds the one that does.
fn parse_str(data: &[u8], start: usize) -> (r: Option<(String, usize)>)
    requires
        start <= data@.len(),
    ensures
        r is Some ==> {
            let (s, end) = r.unwrap();
            &&& start <= end <= data@.len()
            &&& encode_utf8(s@).len() < 0x1_0000_0000_0000_0000
            &&& enc_str(s@) == data@.subrange(start as int, end as int)
        },
        forall|sv: Seq<char>, end: int|
            start <= end <= data@.len() && encode_utf8(sv).len() < 0x1_0000_0000_0000_0000
                && enc_str(sv) == data@.subrange(start as int, end)
                ==> r is Some && r.unwrap().0@ == sv && r.unwrap().1 == end,
{
    proof {
        vstd::bytes::lemma_auto_spec_u64_to_from_le_bytes();
    }
    if data.len() - start < 8 {
        proof {
            assert forall|sv: Seq<char>, end: int|
                !(start <= end <= data@.len()
                    && encode_utf8(sv).len() < 0x1_0000_0000_0000_0000
                    && enc_str(sv) == data@.subrange(start as int, end)) by {
                if start <= end <= data@.len()
                    && enc_str(sv) == data@.subrange(start as int, end) {
                    assert(enc_str(sv).len() >= 8);
                    assert(end - start >= 8);
                }
            }
        }
        return None;
    }
    let len64 = read_u64(data, start);
    let rem = (data.len() - (start + 8)) as u64;
    if len64 > rem {
        proof {
            assert forall|sv: Seq<char>, end: int|
                !(start <= end <= data@.len()
                    && encode_utf8(sv).len() < 0x1_0000_0000_0000_0000
                    && enc_str(sv) == data@.subrange(start as int, end)) by {
                if start <= end <= data@.len()
                    && encode_utf8(sv).len() < 0x1_0000_0000_0000_0000
                    && enc_str(sv) == data@.subrange(start as int, end) {
                    let b = data@.subrange(start as int, end);
                    assert(b.len() == enc_str(sv).len());
                    assert(enc_str(sv).len() == 8 + encode_utf8(sv).len());
                    assert(end - start == 8 + encode_utf8(sv).len());
                    assert(b.subrange(0, 8)
                        =~= data@.subrange(start as int, start as int + 8));
                    assert(b.subrange(0, 8)
                        == spec_u64_to_le_bytes(encode_utf8(sv).len() as u64));
                    assert(len64 == encode_utf8(sv).len() as u64);
                    assert(end <= data@.len());
                }
            }
        }
        return None;
    }
    let blen = len64 as usize;
    let sb = vstd::slice::slice_subrange(data, start + 8, start + 8 + blen);
    let end = start + 8 + blen;
    match utf8_to_string(sb) {
        Some(s) => {
            proof {
                assert(encode_utf8(s@) =~= sb@) by {
                    vstd::utf8::decode_utf8_encode_utf8(sb@);
                }
                assert(enc_str(s@) =~= data@.subrange(start as int, end as int));
                assert forall|sv: Seq<char>, end2: int|
                    start <= end2 <= data@.len()
                        && encode_utf8(sv).len() < 0x1_0000_0000_0000_0000
                        && enc_str(sv) == data@.subrange(start as int, end2)
                    implies s@ == sv && end2 == end as int by {
                    let b = data@.subrange(start as int, end2);
                    assert(b.len() == enc_str(sv).len());
                    assert(enc_str(sv).len() == 8 + encode_utf8(sv).len());
                    assert(b.subrange(0, 8)
                        =~= data@.subrange(start as int, start as int + 8));
                    assert(b.subrange(0, 8)
                        == spec_u64_to_le_bytes(encode_utf8(sv).len() as u64));
                    assert(len64 == encode_utf8(sv).len() as u64);
                    assert(end2 == end as int);
                    assert(b.subrange(8, b.len() as int)
                        =~= data@.subrange(start as int + 8, end as int));
                    assert(encode_utf8(sv) =~= sb@);
                    vstd::utf8::encode_utf8_decode_utf8(sv);
                    assert(s@ == decode_utf8(sb@));
                    assert(sv == s@);
                }
            }
            Some((s, end))
        },
        None => {
            proof {
                assert forall|sv: Seq<char>, end2: int|
                    !(start <= end2 <= data@.len()
                        && encode_utf8(sv).len() < 0x1_0000_0000_0000_0000
                        && enc_str(sv) == data@.subrange(start as int, end2)) by {
                    if start <= end2 <= data@.len()
                        && encode_utf8(sv).len() < 0x1_0000_0000_0000_0000
                        && enc_str(sv) == data@.subrange(start as int, end2) {
                        let b = data@.subrange(start as int, end2);
                        assert(b.len() == enc_str(sv).len());
                        assert(enc_str(sv).len() == 8 + encode_utf8(sv).len());
                        assert(b.subrange(0, 8)
                            =~= data@.subrange(start as int, start as int + 8));
                        assert(b.subrange(0, 8)
                            == spec_u64_to_le_bytes(encode_utf8(sv).len() as u64));
                        assert(len64 == encode_utf8(sv).len() as u64);
                        assert(end2 == start + 8 + encode_utf8(sv).len());
                        assert(b.subrange(8, b.len() as int)
                            =~= data@.subrange(start as int + 8, end as int));
                        assert(encode_utf8(sv) =~= sb@);
                        vstd::utf8::encode_utf8_valid_utf8(sv);
                        assert(valid_utf8(sb@));
                    }
                }
            }
            None
        },
    }
}

/// All name fields of the entries fit their length slots.
pub open spec fn entries_len_ok(l: Seq<(u64, Seq<char>)>) -> bool {
    forall|i: int| 0 <= i < l.len()
        ==> encode_utf8((#[trigger] l[i]).1).len() < 0x1_0000_0000_0000_0000
}

/// Parse `count` client-list entries found at `start`: for each an id
/// and a name. The parse fails only when no such entries stand there,
/// and finds the ones that do.
fn parse_entries(data: &[u8], start: usize, count: u64) -> (r: Option<(Vec<(u64, String)>, usize)>)
    requires
        start <= data@.len(),
    ensures
        r is Some ==> {
            let (v, end) = r.unwrap();
            &&& start <= end <= data@.len()
            &&& v.deep_view().len() == count
            &&& entries_len_ok(v.deep_view())
            &&& enc_entries(v.deep_view()) == data@.subrange(start as int, end as int)
        },
        forall|l2: Seq<(u64, Seq<char>)>, end: int|
            #![trigger enc_entries(l2), data@.subrange(start as int, end)]
            start <= end <= data@.len() && l2.len() == count && entries_len_ok(l2)
                && enc_entries(l2) == data@.subrange(start as int, end)
                ==> r is Some && r.unwrap().0.deep_view() == l2 && r.unwrap().1 == end,
    decreases count,
{
    proof {
        vstd::bytes::lemma_auto_spec_u64_to_from_le_bytes();
    }
    if count == 0 {
        let v: Vec<(u64, String)> = Vec::new();
        proof {
            assert(v.deep_view() =~= Seq::<(u64, Seq<char>)>::empty());
            assert(enc_entries(v.deep_view()) =~= Seq::<u8>::empty());
            assert(data@.subrange(start as int, start as int) =~= Seq::<u8>::empty());
            assert forall|l2: Seq<(u64, Seq<char>)>, end: int|
                start <= end <= data@.len() && l2.len() == 0 && entries_len_ok(l2)
                    && enc_entries(l2) == data@.subrange(start as int, end)
                implies l2 == v.deep_view() && end == start as int by {
                assert(l2 =~= v.deep_view());
                assert(enc_entries(l2).len() == 0);
                assert(data@.subrange(start as int, end).len() == end - start);
            }
        }
        return Some((v, start));
    }
    let dlen = data.len();
    if dlen - start < 8 {
        proof {
            assert forall|l2: Seq<(u64, Seq<char>)>, end: int|
                !(start <= end <= data@.len() && l2.len() == count && entries_len_ok(l2)
                    && enc_entries(l2) == data@.subrange(start as int, end)) by {
                if start <= end <= data@.len() && l2.len() == count && entries_len_ok(l2)
                    && enc_entries(l2) == data@.subrange(start as int, end) {
                    assert(enc_entries(l2)
                        == enc_entry(l2.first()) + enc_entries(l2.drop_first()));
                    assert(enc_entry(l2.first()).len() >= 16);
                    assert(enc_entries(l2).len() >= 16);
                    assert(end - start >= 16);
                }
            }
        }
        return None;
    }
    let id = read_u64(data, start);
    match parse_str(data, start + 8) {
        None => {
            proof {
                assert forall|l2: Seq<(u64, Seq<char>)>, end: int|
                    !(start <= end <= data@.len() && l2.len() == count && entries_len_ok(l2)
                        && enc_entries(l2) == data@.subrange(start as int, end)) by {
                    if start <= end <= data@.len() && l2.len() == count && entries_len_ok(l2)
                        && enc_entries(l2) == data@.subrange(start as int, end) {
                        let e0 = l2.first();
                        let elen = enc_entry(e0).len() as int;
                        assert(enc_entries(l2) == enc_entry(e0) + enc_entries(l2.drop_first()));
                        assert(end - start >= elen);
                        assert(enc_entry(e0)
                            =~= data@.subrange(start as int, start as int + elen));
                        assert(enc_str(e0.1)
                            =~= enc_entry(e0).subrange(8, elen));
                        assert(enc_str(e0.1)
                            =~= data@.subrange(start as int + 8, start as int + elen));
                        assert(encode_utf8(e0.1).len() < 0x1_0000_0000_0000_0000);
                    }
                }
            }
            None
        },
        Some((s, send)) => {
            match parse_entries(data, send, count - 1) {
                None => {
                    proof {
                        assert forall|l2: Seq<(u64, Seq<char>)>, end: int|
                            !(start <= end <= data@.len() && l2.len() == count
                                && entries_len_ok(l2)
                                && enc_entries(l2) == data@.subrange(start as int, end)) by {
                            if start <= end <= data@.len() && l2.len() == count
                                && entries_len_ok(l2)
                                && enc_entries(l2) == data@.subrange(start as int, end) {
                                let e0 = l2.first();
                                let elen = enc_entry(e0).len() as int;
                                assert(enc_entries(l2)
                                    == enc_entry(e0) + enc_entries(l2.drop_first()));
                                assert(end - start >= elen);
                                assert(enc_entry(e0)
                                    =~= data@.subrange(start as int, start as int + elen));
                                assert(enc_str(e0.1)
                                    =~= enc_entry(e0).subrange(8, elen));
                                assert(enc_str(e0.1)
                                    =~= data@.subrange(start as int + 8, start as int + elen));
                                assert(encode_utf8(e0.1).len() < 0x1_0000_0000_0000_0000);
                                assert(s@ == e0.1 && send as int == start as int + elen);
                                assert(entries_len_ok(l2.drop_first())) by {
                                    assert(forall|i: int| 0 <= i < l2.drop_first().len()
                                        ==> (#[trigger] l2.drop_first()[i]) == l2[i + 1]);
                                }
                                assert(enc_entries(l2.drop_first())
                                    =~= enc_entries(l2).subrange(elen, end - start));
                                assert(enc_entries(l2).subrange(elen, end - start)
                                    =~= data@.subrange(send as int, end));
                            }
                        }
                    }
                    None
                },
                Some((rest, rend)) => {
                    let ghost restv = rest.deep_view();
                    let mut out = rest;
                    out.insert(0, (id, s));
                    proof {
                        assert(out.deep_view() =~= restv.insert(0, (id, s@)));
                        let ov = out.deep_view();
                        assert(ov.first() == (id, s@));
                        assert(ov.drop_first() =~= restv);
                        assert(enc_entries(ov) == enc_entry((id, s@)) + enc_entries(restv));
                        assert(data@.subrange(start as int, start as int + 8)
                            == spec_u64_to_le_bytes(id));
                        assert(enc_entry((id, s@))
                            =~= data@.subrange(start as int, send as int));
                        assert(enc_entries(ov)
                            =~= data@.subrange(start as int, rend as int));
                        assert(entries_len_ok(ov)) by {
                            assert(forall|i: int| 1 <= i < ov.len()
                                ==> (#[trigger] ov[i]) == restv[i - 1]);
                        }
                        assert forall|l2: Seq<(u64, Seq<char>)>, end: int|
                            start <= end <= data@.len() && l2.len() == count
                                && entries_len_ok(l2)
                                && enc_entries(l2) == data@.subrange(start as int, end)
                            implies l2 == ov && end == rend as int by {
                            let e0 = l2.first();
                            let elen = enc_entry(e0).len() as int;
                            assert(enc_entries(l2)
                                == enc_entry(e0) + enc_entries(l2.drop_first()));
                            assert(end - start >= elen);
                            assert(enc_entry(e0)
                                =~= data@.subrange(start as int, start as int + elen));
                            assert(enc_str(e0.1)
                                =~= enc_entry(e0).subrange(8, elen));
                            assert(enc_str(e0.1)
                                =~= data@.subrange(start as int + 8, start as int + elen));
                            assert(encode_utf8(e0.1).len() < 0x1_0000_0000_0000_0000);
                            assert(s@ == e0.1 && send as int == start as int + elen);
                            assert(data@.subrange(start as int, start as int + 8)
                                == spec_u64_to_le_bytes(e0.0));
                            assert(e0.0 == id);
                            assert(entries_len_ok(l2.drop_first())) by {
                                assert(forall|i: int| 0 <= i < l2.drop_first().len()
                                    ==> (#[trigger] l2.drop_first()[i]) == l2[i + 1]);
                            }
                            assert(enc_entries(l2.drop_first())
                                =~= enc_entries(l2).subrange(elen, end - start));
                            assert(enc_entries(l2).subrange(elen, end - start)
                                =~= data@.subrange(send as int, end));
                            assert(l2.drop_first() == restv && end == rend as int);
                            assert(l2 =~= ov);
                        }
                    }
                    Some((out, rend))
                },
            }
        },
    }
}

impl Packet {
    /// Serialize this packet. Returns the frame, or `None` when the
    /// frame would exceed `MAX_PACKET_SIZE` bytes.
    pub fn encode(&self) -> (r: Option<Vec<u8>>)
        ensures
            wire_len_ok(self@),
            r is Some <==> spec_encode(self@).len() <= MAX_PACKET_SIZE,
            r is Some ==> r.unwrap()@ == spec_encode(self@),
    {
        let mut out: Vec<u8> = Vec::new();
        match self {
            Packet::ConnectSuccess(id) => {
                push_u32(&mut out, 0);
                push_u64(&mut out, *id);
            },
            Packet::Disconnect => {
                push_u32(&mut out, 1);
            },
            Packet::Login(name) => {
                push_u32(&mut out, 2);
                push_str(&mut out, name);
            },
            Packet::LoginAccept => {
                push_u32(&mut out, 3);
            },
            Packet::LoginDeny(reason) => {
                push_u32(&mut out, 4);
                push_str(&mut out, reason);
            },
            Packet::RequestClientList => {
                push_u32(&mut out, 5);
            },
            Packet::ClientList(list) => {
                push_u32(&mut out, 6);
                push_u64(&mut out, list.len() as u64);
                let ghost lv = list.deep_view();
                let mut i: usize = 0;
                proof {
                    assert(lv.len() == list@.len());
                    assert(lv.take(0) =~= Seq::empty());
                    assert(enc_entries(lv.take(0)) =~= Seq::empty());
                    assert(out@ =~= spec_u32_to_le_bytes(6)
                        + spec_u64_to_le_bytes(lv.len() as u64) + enc_entries(lv.take(0)));
                }
                while i < list.len()
                    invariant
                        i <= list@.len(),
                        lv == list.deep_view(),
                        lv.len() == list@.len(),
                        forall|k: int| 0 <= k < i
                            ==> encode_utf8((#[trigger] lv[k]).1).len()
                                < 0x1_0000_0000_0000_0000,
                        out@ == spec_u32_to_le_bytes(6)
                            + spec_u64_to_le_bytes(lv.len() as u64)
                            + enc_entries(lv.take(i as int)),
                    decreases list@.len() - i,
                {
                    let e = &list[i];
                    push_u64(&mut out, e.0);
                    push_str(&mut out, &e.1);
                    proof {
                        assert(lv[i as int] == (list@[i as int].0, list@[i as int].1@));
                        assert(lv.take(i as int + 1) =~= lv.take(i as int).push(lv[i as int]));
                        lemma_enc_entries_snoc(lv.take(i as int), lv[i as int]);
                        assert(out@ =~= spec_u32_to_le_bytes(6)
                            + spec_u64_to_le_bytes(lv.len() as u64)
                            + enc_entries(lv.take(i as int + 1)));
                    }
                    i = i + 1;
                }
                proof {
                    assert(lv.take(lv.len() as int) =~= lv);
                }
            },
            Packet::RequestGame(id) => {
                push_u32(&mut out, 7);
                push_u64(&mut out, *id);
            },
            Packet::DenyGame(id) => {
                push_u32(&mut out, 8);
                push_u64(&mut out, *id);
            },
            Packet::AbandonGame(id) => {
                push_u32(&mut out, 9);
                push_u64(&mut out, *id);
            },
            Packet::StartGame(id, piece) => {
                push_u32(&mut out, 10);
                push_u64(&mut out, *id);
                let code: u32 = match piece {
                    Piece::Black => 0,
                    Piece::White => 1,
                };
                push_u32(&mut out, code);
            },
            Packet::PlacePiece(id, x, y) => {
                push_u32(&mut out, 11);
                push_u64(&mut out, *id);
                out.push(*x);
                out.push(*y);
            },
            Packet::Pass(id) => {
                push_u32(&mut out, 12);
                push_u64(&mut out, *id);
            },
            Packet::Message(id, text) => {
                push_u32(&mut out, 13);
                push_u64(&mut out, *id);
                push_str(&mut out, text);
            },
        }
        proof {
            assert(out@ =~= spec_encode(self@));
        }
        if (out.len() as u64) > MAX_PACKET_SIZE {
            None
        } else {
            Some(out)
        }
    }

    /// Decode one packet from the front of `data`; trailing bytes are
    /// ignored, as the reader hands in its whole buffer. Returns the
    /// packet and the number of bytes its frame took, or `None` when no
    /// frame stands at the front. Exactly the frames the encoder
    /// produces decode, and each to the packet it came from.
    #[verifier::rlimit(100)]
    pub fn decode(data: &[u8]) -> (r: Option<(Packet, usize)>)
        ensures
            r is Some ==> ({
                let (p, n) = r.unwrap();
                &&& n <= data@.len()
                &&& wire_len_ok(p@)
                &&& spec_encode(p@) == data@.take(n as int)
            }),
            forall|pv: PacketV, n: int| #[trigger] valid_prefix(data@, pv, n)
                ==> r is Some && r.unwrap().0@ == pv && r.unwrap().1 == n,
    {
        proof {
            vstd::bytes::lemma_auto_spec_u32_to_from_le_bytes();
            vstd::bytes::lemma_auto_spec_u64_to_from_le_bytes();
        }
        let dlen = data.len();
        if dlen < 4 {
            proof {
                assert forall|pv: PacketV, n: int|
                    !(#[trigger] valid_prefix(data@, pv, n)) by {
                    if valid_prefix(data@, pv, n) {
                        lemma_valid_prefix_parts(data@, pv, n);
                    }
                }
            }
            return None;
        }
        let tag = read_u32(data, 0);
        proof {
            assert(data@.subrange(0int, 4int) == data@.subrange(0int, 0int + 4));
        }
        if tag > 13 {
            proof {
                assert forall|pv: PacketV, n: int|
                    !(#[trigger] valid_prefix(data@, pv, n)) by {
                    if valid_prefix(data@, pv, n) {
                        lemma_valid_prefix_parts(data@, pv, n);
                        assert(tag_of(pv) <= 13);
                    }
                }
            }
            return None;
        }
        // variants with no payload
        if tag == 1 || tag == 3 || tag == 5 {
            let p = if tag == 1 {
                Packet::Disconnect
            } else if tag == 3 {
                Packet::LoginAccept
            } else {
                Packet::RequestClientList
            };
            proof {
                assert(spec_u32_to_le_bytes(tag) == data@.subrange(0, 4));
                assert(spec_payload(p@) =~= Seq::<u8>::empty());
                assert(spec_encode(p@) =~= data@.take(4));
                assert forall|pv: PacketV, n: int| #[trigger] valid_prefix(data@, pv, n)
                    implies pv == p@ && n == 4 by {
                    lemma_valid_prefix_parts(data@, pv, n);
                    assert(tag_of(pv) == tag);
                    assert(spec_payload(pv).len() == 0);
                }
            }
            return Some((p, 4));
        }
        // variants holding a single client id
        if tag == 0 || tag == 7 || tag == 8 || tag == 9 || tag == 12 {
            if dlen < 12 {
                proof {
                    assert forall|pv: PacketV, n: int|
                        !(#[trigger] valid_prefix(data@, pv, n)) by {
                        if valid_prefix(data@, pv, n) {
                            lemma_valid_prefix_parts(data@, pv, n);
                            assert(tag_of(pv) == tag);
                            assert(spec_payload(pv).len() == 8);
                        }
                    }
                }
                return None;
            }
            let id = read_u64(data, 4);
            let p = if tag == 0 {
                Packet::ConnectSuccess(id)
            } else if tag == 7 {
                Packet::RequestGame(id)
            } else if tag == 8 {
                Packet::DenyGame(id)
            } else if tag == 9 {
                Packet::AbandonGame(id)
            } else {
                Packet::Pass(id)
            };
            proof {
                assert(data@.subrange(4int, 12int) == data@.subrange(4int, 4int + 8));
                assert(spec_u32_to_le_bytes(tag) == data@.subrange(0, 4));
                assert(spec_u64_to_le_bytes(id) == data@.subrange(4, 12));
                assert(spec_payload(p@) == spec_u64_to_le_bytes(id));
                assert(spec_encode(p@) =~= data@.take(12));
                assert forall|pv: PacketV, n: int| #[trigger] valid_prefix(data@, pv, n)
                    implies pv == p@ && n == 12 by {
                    lemma_valid_prefix_parts(data@, pv, n);
                    assert(tag_of(pv) == tag);
                    assert(spec_payload(pv).len() == 8);
                    assert(n == 12);
                    assert(spec_payload(pv) == data@.subrange(4, 12));
                }
            }
            return Some((p, 12));
        }
        // variants holding one string
        if tag == 2 || tag == 4 {
            match parse_str(data, 4) {
                Some((s, end)) => {
                    let p = if tag == 2 {
                        Packet::Login(s)
                    } else {
                        Packet::LoginDeny(s)
                    };
                    proof {
                        assert(spec_u32_to_le_bytes(tag) == data@.subrange(0, 4));
                        assert(spec_encode(p@) =~= data@.take(end as int));
                        assert forall|pv: PacketV, n: int| #[trigger] valid_prefix(data@, pv, n)
                            implies pv == p@ && n == end as int by {
                            lemma_valid_prefix_parts(data@, pv, n);
                            assert(tag_of(pv) == tag);
                            if tag == 2 {
                                let sv = pv->Login_0;
                                assert(enc_str(sv) == data@.subrange(4, n));
                                assert(enc_str(sv)
                                    == data@.subrange(4int as int, n));
                            } else {
                                let sv = pv->LoginDeny_0;
                                assert(enc_str(sv) == data@.subrange(4, n));
                            }
                        }
                    }
                    Some((p, end))
                },
                None => {
                    proof {
                        assert forall|pv: PacketV, n: int|
                            !(#[trigger] valid_prefix(data@, pv, n)) by {
                            if valid_prefix(data@, pv, n) {
                                lemma_valid_prefix_parts(data@, pv, n);
                                assert(tag_of(pv) == tag);
                                if tag == 2 {
                                    assert(enc_str(pv->Login_0) == data@.subrange(4, n));
                                } else {
                                    assert(enc_str(pv->LoginDeny_0) == data@.subrange(4, n));
                                }
                            }
                        }
                    }
                    None
                },
            }
        } else if tag == 13 {
            // a message: an id and a string
            if dlen < 12 {
                proof {
                    assert forall|pv: PacketV, n: int|
                        !(#[trigger] valid_prefix(data@, pv, n)) by {
                        if valid_prefix(data@, pv, n) {
                            lemma_valid_prefix_parts(data@, pv, n);
                            assert(tag_of(pv) == tag);
                            assert(spec_payload(pv).len() >= 16);
                        }
                    }
                }
                return None;
            }
            let id = read_u64(data, 4);
            match parse_str(data, 12) {
                Some((s, end)) => {
                    let p = Packet::Message(id, s);
                    proof {
                        assert(data@.subrange(4int, 12int) == data@.subrange(4int, 4int + 8));
                        assert(spec_u32_to_le_bytes(tag) == data@.subrange(0, 4));
                        assert(spec_u64_to_le_bytes(id) == data@.subrange(4, 12));
                        assert(spec_payload(p@)
                            =~= data@.subrange(4, end as int));
                        assert(spec_encode(p@) =~= data@.take(end as int));
                        assert forall|pv: PacketV, n: int| #[trigger] valid_prefix(data@, pv, n)
                            implies pv == p@ && n == end as int by {
                            lemma_valid_prefix_parts(data@, pv, n);
                            assert(tag_of(pv) == tag);
                            let idv = pv->Message_0;
                            let sv = pv->Message_1;
                            assert(spec_payload(pv) == spec_u64_to_le_bytes(idv) + enc_str(sv));
                            assert(n - 4 >= 8);
                            assert(spec_u64_to_le_bytes(idv)
                                =~= data@.subrange(4, 12));
                            assert(idv == id);
                            assert(enc_str(sv) =~= spec_payload(pv).subrange(8, n - 4));
                            assert(enc_str(sv) =~= data@.subrange(12, n));
                        }
                    }
                    Some((p, end))
                },
                None => {
                    proof {
                        assert forall|pv: PacketV, n: int|
                            !(#[trigger] valid_prefix(data@, pv, n)) by {
                            if valid_prefix(data@, pv, n) {
                                lemma_valid_prefix_parts(data@, pv, n);
                                assert(tag_of(pv) == tag);
                                let sv = pv->Message_1;
                                assert(spec_payload(pv)
                                    == spec_u64_to_le_bytes(pv->Message_0) + enc_str(sv));
                                assert(enc_str(sv) =~= spec_payload(pv).subrange(8, n - 4));
                                assert(enc_str(sv) =~= data@.subrange(12, n));
                            }
                        }
                    }
                    None
                },
            }
        } else if tag == 10 {
            // the start of a game: an id and a piece
            if dlen < 16 {
                proof {
                    assert forall|pv: PacketV, n: int|
                        !(#[trigger] valid_prefix(data@, pv, n)) by {
                        if valid_prefix(data@, pv, n) {
                            lemma_valid_prefix_parts(data@, pv, n);
                            assert(tag_of(pv) == tag);
                            assert(spec_payload(pv).len() == 12);
                        }
                    }
                }
                return None;
            }
            let id = read_u64(data, 4);
            let code = read_u32(data, 12);
            if code > 1 {
                proof {
                    assert forall|pv: PacketV, n: int|
                        !(#[trigger] valid_prefix(data@, pv, n)) by {
                        if valid_prefix(data@, pv, n) {
                            lemma_valid_prefix_parts(data@, pv, n);
                            assert(tag_of(pv) == tag);
                            let pc = piece_code(pv->StartGame_1);
                            assert(spec_payload(pv)
                                == spec_u64_to_le_bytes(pv->StartGame_0)
                                    + spec_u32_to_le_bytes(pc));
                            assert(spec_payload(pv).len() == 12);
                            assert(n == 16);
                            assert(spec_u32_to_le_bytes(pc)
                                =~= spec_payload(pv).subrange(8, 12));
                            assert(spec_u32_to_le_bytes(pc)
                                =~= data@.subrange(12, 16));
                            assert(data@.subrange(12int, 16int)
                                == data@.subrange(12int, 12int + 4));
                            assert(pc == code);
                            assert(pc <= 1);
                        }
                    }
                }
                return None;
            }
            let piece = if code == 0 {
                Piece::Black
            } else {
                Piece::White
            };
            let p = Packet::StartGame(id, piece);
            proof {
                assert(data@.subrange(4int, 12int) == data@.subrange(4int, 4int + 8));
                assert(data@.subrange(12int, 16int) == data@.subrange(12int, 12int + 4));
                assert(spec_u32_to_le_bytes(tag) == data@.subrange(0, 4));
                assert(spec_u64_to_le_bytes(id) == data@.subrange(4, 12));
                assert(spec_u32_to_le_bytes(piece_code(piece)) == data@.subrange(12, 16));
                assert(spec_payload(p@) =~= data@.subrange(4, 16));
                assert(spec_encode(p@) =~= data@.take(16));
                assert forall|pv: PacketV, n: int| #[trigger] valid_prefix(data@, pv, n)
                    implies pv == p@ && n == 16 by {
                    lemma_valid_prefix_parts(data@, pv, n);
                    assert(tag_of(pv) == tag);
                    assert(spec_payload(pv).len() == 12);
                    assert(n == 16);
                    let pc = piece_code(pv->StartGame_1);
                    assert(spec_payload(pv)
                        == spec_u64_to_le_bytes(pv->StartGame_0) + spec_u32_to_le_bytes(pc));
                    assert(spec_u64_to_le_bytes(pv->StartGame_0)
                        =~= spec_payload(pv).subrange(0, 8));
                    assert(spec_u64_to_le_bytes(pv->StartGame_0) =~= data@.subrange(4, 12));
                    assert(spec_u32_to_le_bytes(pc) =~= spec_payload(pv).subrange(8, 12));
                    assert(spec_u32_to_le_bytes(pc) =~= data@.subrange(12, 16));
                    assert(pv->StartGame_0 == id);
                    assert(pc == code);
                    assert(pv->StartGame_1 == piece);
                }
            }
            Some((p, 16))
        } else if tag == 11 {
            // a placed stone: an id and two coordinates
            if dlen < 14 {
                proof {
                    assert forall|pv: PacketV, n: int|
                        !(#[trigger] valid_prefix(data@, pv, n)) by {
                        if valid_prefix(data@, pv, n) {
                            lemma_valid_prefix_parts(data@, pv, n);
                            assert(tag_of(pv) == tag);
                            assert(spec_payload(pv).len() == 10);
                        }
                    }
                }
                return None;
            }
            let id = read_u64(data, 4);
            let x = *vstd::slice::slice_index_get(data, 12);
            let y = *vstd::slice::slice_index_get(data, 13);
            let p = Packet::PlacePiece(id, x, y);
            proof {
                assert(data@.subrange(4int, 12int) == data@.subrange(4int, 4int + 8));
                assert(spec_u32_to_le_bytes(tag) == data@.subrange(0, 4));
                assert(spec_u64_to_le_bytes(id) == data@.subrange(4, 12));
                assert(spec_payload(p@) =~= data@.subrange(4, 14));
                assert(spec_encode(p@) =~= data@.take(14));
                assert forall|pv: PacketV, n: int| #[trigger] valid_prefix(data@, pv, n)
                    implies pv == p@ && n == 14 by {
                    lemma_valid_prefix_parts(data@, pv, n);
                    assert(tag_of(pv) == tag);
                    assert(spec_payload(pv).len() == 10);
                    assert(n == 14);
                    assert(spec_payload(pv)
                        == spec_u64_to_le_bytes(pv->PlacePiece_0)
                            + seq![pv->PlacePiece_1] + seq![pv->PlacePiece_2]);
                    assert(spec_u64_to_le_bytes(pv->PlacePiece_0) =~= data@.subrange(4, 12));
                    assert(pv->PlacePiece_0 == id);
                    assert(spec_payload(pv)[8] == pv->PlacePiece_1);
                    assert(spec_payload(pv)[9] == pv->PlacePiece_2);
                    assert(data@.subrange(4, n)[8] == data@[12]);
                    assert(data@.subrange(4, n)[9] == data@[13]);
                }
            }
            Some((p, 14))
        } else {
            // the client list: a count, then id and name pairs
            if dlen < 12 {
                proof {
                    assert forall|pv: PacketV, n: int|
                        !(#[trigger] valid_prefix(data@, pv, n)) by {
                        if valid_prefix(data@, pv, n) {
                            lemma_valid_prefix_parts(data@, pv, n);
                            assert(tag_of(pv) == tag);
                            assert(spec_payload(pv).len() >= 8);
                        }
                    }
                }
                return None;
            }
            let count = read_u64(data, 4);
            match parse_entries(data, 12, count) {
                Some((v, end)) => {
                    let ghost lv = v.deep_view();
                    let p = Packet::ClientList(v);
                    proof {
                        assert(data@.subrange(4int, 12int) == data@.subrange(4int, 4int + 8));
                        assert(spec_u32_to_le_bytes(tag) == data@.subrange(0, 4));
                        assert(spec_u64_to_le_bytes(count) == data@.subrange(4, 12));
                        assert(p@ == PacketV::ClientList(lv));
                        assert(lv.len() == count);
                        assert((lv.len() as u64) == count);
                        assert(spec_payload(p@)
                            == spec_u64_to_le_bytes(count) + enc_entries(lv));
                        assert(spec_payload(p@) =~= data@.subrange(4, end as int));
                        assert(spec_encode(p@) =~= data@.take(end as int));
                        assert(wire_len_ok(p@));
                        assert forall|pv: PacketV, n: int| #[trigger] valid_prefix(data@, pv, n)
                            implies pv == p@ && n == end as int by {
                            lemma_valid_prefix_parts(data@, pv, n);
                            assert(tag_of(pv) == tag);
                            let l2 = pv->ClientList_0;
                            assert(spec_payload(pv)
                                == spec_u64_to_le_bytes(l2.len() as u64) + enc_entries(l2));
                            assert(spec_u64_to_le_bytes(l2.len() as u64)
                                =~= data@.subrange(4, 12));
                            assert((l2.len() as u64) == count);
                            assert(l2.len() == count);
                            assert(entries_len_ok(l2));
                            assert(enc_entries(l2)
                                =~= spec_payload(pv).subrange(8, n - 4));
                            assert(enc_entries(l2) == data@.subrange(12int as int, n));
                            assert(l2 == lv && n == end as int);
                        }
                    }
                    Some((p, end))
                },
                None => {
                    proof {
                        assert forall|pv: PacketV, n: int|
                            !(#[trigger] valid_prefix(data@, pv, n)) by {
                            if valid_prefix(data@, pv, n) {
                                lemma_valid_prefix_parts(data@, pv, n);
                                assert(tag_of(pv) == tag);
                                let l2 = pv->ClientList_0;
                                assert(spec_payload(pv)
                                    == spec_u64_to_le_bytes(l2.len() as u64)
                                        + enc_entries(l2));
                                assert(spec_u64_to_le_bytes(l2.len() as u64)
                                    =~= data@.subrange(4, 12));
                                assert(data@.subrange(4int, 12int)
                                    == data@.subrange(4int, 4int + 8));
                                assert((l2.len() as u64) == count);
                                assert(l2.len() == count);
                                assert(entries_len_ok(l2));
                                assert(enc_entries(l2)
                                    =~= spec_payload(pv).subrange(8, n - 4));
                                assert(enc_entries(l2) == data@.subrange(12int as int, n));
                            }
                        }
                    }
                    None
                },
            }
        }
    }
}

} // verus!
