//! Picking opponents from the client list: finding a client by name or
//! id, and the client-side bookkeeping of a game request.

use vstd::prelude::*;
use vstd::string::StrSliceExecFns;

use crate::master::{lookup_id, RosterV};
use crate::packets::{ClientId, Packet, PacketV};

verus! {

/// What `str::to_lowercase` returns for these characters.
pub uninterp spec fn lower_of(s: Seq<char>) -> Seq<char>;

/// Relies on str::to_lowercase: the result depends on the characters
/// alone.
#[verifier::external_body]
fn lowercase(s: &String) -> (r: String)
    ensures
        r@ == lower_of(s@),
{
    s.to_lowercase()
}

/// The first entry whose lower-cased name is `target`, if any.
pub open spec fn find_by_lower_name(l: RosterV, target: Seq<char>) -> Option<(u64, Seq<char>)>
    decreases l.len(),
{
    if l.len() == 0 {
        None
    } else if lower_of(l.first().1) == target {
        Some(l.first())
    } else {
        find_by_lower_name(l.drop_first(), target)
    }
}

/// The first entry carrying the id, if any.
pub open spec fn find_by_id(l: RosterV, id: u64) -> Option<(u64, Seq<char>)>
    decreases l.len(),
{
    if l.len() == 0 {
        None
    } else if l.first().0 == id {
        Some(l.first())
    } else {
        find_by_id(l.drop_first(), id)
    }
}

/// The numeric value of a run of decimal digits.
pub open spec fn dec_val(s: Seq<char>) -> int
    decreases s.len(),
{
    if s.len() == 0 {
        0
    } else {
        dec_val(s.drop_last()) * 10 + (s.last() as u32 - 48)
    }
}

/// Every character is a decimal digit.
pub open spec fn all_digits(s: Seq<char>) -> bool {
    forall|i: int| 0 <= i < s.len() ==> 48 <= (#[trigger] s[i]) as u32 <= 57
}

/// What `str::parse::<u64>` accepts: an optional leading plus sign,
/// then one or more digits, with a value that fits.
pub open spec fn spec_parse_u64(s: Seq<char>) -> Option<u64> {
    let body = if s.len() > 0 && s[0] == '+' { s.drop_first() } else { s };
    if body.len() == 0 || !all_digits(body) {
        None
    } else if dec_val(body) > u64::MAX {
        None
    } else {
        Some(dec_val(body) as u64)
    }
}

proof fn lemma_dec_val_nonneg(s: Seq<char>)
    requires
        all_digits(s),
    ensures
        dec_val(s) >= 0,
    decreases s.len(),
{
    if s.len() > 0 {
        assert(all_digits(s.drop_last()));
        lemma_dec_val_nonneg(s.drop_last());
    }
}

/// A digit string is worth at least any of its prefixes.
proof fn lemma_dec_val_prefix(s: Seq<char>, i: int)
    requires
        all_digits(s),
        0 <= i <= s.len(),
    ensures
        dec_val(s.take(i)) <= dec_val(s),
    decreases s.len(),
{
    lemma_dec_val_nonneg(s);
    if i < s.len() {
        assert(all_digits(s.drop_last()));
        lemma_dec_val_nonneg(s.drop_last());
        assert(s.take(i) =~= s.drop_last().take(i));
        lemma_dec_val_prefix(s.drop_last(), i);
    } else {
        assert(s.take(i) =~= s);
    }
}

/// Parse a client id the way the standard library parses a `u64`.
pub fn parse_client_id(s: &String) -> (r: Option<ClientId>)
    ensures
        r == spec_parse_u64(s@),
{
    let st = s.as_str();
    let n = st.unicode_len();
    let mut i: usize = 0;
    let ghost sv = s@;
    if n > 0 && st.get_char(0) == '+' {
        i = 1;
    }
    let ghost body = if sv.len() > 0 && sv[0] == '+' { sv.drop_first() } else { sv };
    proof {
        assert(body.len() == n - i);
        assert(forall|k: int| 0 <= k < body.len() ==> #[trigger] body[k] == sv[k + i]);
    }
    if i == n {
        return None;
    }
    let mut v: u64 = 0;
    let ghost off = i as int;
    while i < n
        invariant
            st@ == sv,
            off == (if sv.len() > 0 && sv[0] == '+' { 1int } else { 0int }),
            off <= i <= n,
            n == sv.len(),
            sv == s@,
            body == (if sv.len() > 0 && sv[0] == '+' { sv.drop_first() } else { sv }),
            body.len() == n - off,
            forall|k: int| 0 <= k < body.len() ==> #[trigger] body[k] == sv[k + off],
            all_digits(body.take(i - off)),
            v as int == dec_val(body.take(i - off)),
        decreases n - i,
    {
        let c = st.get_char(i);
        let d = c as u32;
        if d < 48 || d > 57 {
            proof {
                assert(c == sv[i as int]);
                assert(body[i - off] == sv[i as int]);
                assert(body[i - off] as u32 == d);
                assert(!(48 <= body[i - off] as u32 <= 57));
                assert(!all_digits(body));
            }
            return None;
        }
        proof {
            assert(body.take(i - off + 1).drop_last() =~= body.take(i - off));
            assert(body.take(i - off + 1).last() == body[i - off]);
            assert(c == sv[i as int]);
            assert(body[i - off] == sv[i as int]);
            assert(body[i - off] as u32 == d);
            let t = body.take(i - off + 1);
            assert forall|k: int| 0 <= k < t.len()
                implies 48 <= (#[trigger] t[k]) as u32 <= 57 by {
                if k < i - off {
                    assert(t[k] == body.take(i - off)[k]);
                    assert(48 <= body.take(i - off)[k] as u32 <= 57);
                } else {
                    assert(t[k] == body[i - off]);
                }
            }
            assert(all_digits(t));
        }
        let limit = u64::MAX / 10;
        if v > limit || (v == limit && (d - 48) as u64 > u64::MAX % 10) {
            // the next digit would push the value past 64 bits
            proof {
                let t = body.take(i - off + 1);
                assert(dec_val(t) == (v as int) * 10 + (d - 48));
                assert(dec_val(t) > u64::MAX);
                if all_digits(body) {
                    lemma_dec_val_prefix(body, i - off + 1);
                }
            }
            return None;
        }
        v = v * 10 + (d - 48) as u64;
        i = i + 1;
    }
    proof {
        assert(body.take(n - off) =~= body);
    }
    Some(v)
}

/// Find a client in the list, first by case-insensitive name, then by
/// the id the argument spells out.
pub fn find_name_or_id(client_list: &Vec<(ClientId, String)>, to_find: &String)
    -> (r: Option<(ClientId, String)>)
    ensures
        (match find_by_lower_name(client_list.deep_view(), lower_of(to_find@)) {
            Some(e) => r matches Some(f) && f.0 == e.0 && f.1@ == e.1,
            None => match spec_parse_u64(to_find@) {
                Some(id) => (match find_by_id(client_list.deep_view(), id) {
                    Some(e) => r matches Some(f) && f.0 == e.0 && f.1@ == e.1,
                    None => r is None,
                }),
                None => r is None,
            },
        }),
{
    let ghost l = client_list.deep_view();
    let target = lowercase(to_find);
    let n = client_list.len();
    let mut i: usize = 0;
    proof {
        assert(l.skip(0) =~= l);
    }
    while i < n
        invariant
            n == client_list@.len(),
            l == client_list.deep_view(),
            i <= n,
            target@ == lower_of(to_find@),
            find_by_lower_name(l, lower_of(to_find@))
                == find_by_lower_name(l.skip(i as int), lower_of(to_find@)),
        decreases n - i,
    {
        proof {
            let sk = l.skip(i as int);
            assert(sk.first() == l[i as int]);
            assert(sk.drop_first() =~= l.skip(i as int + 1));
            assert(l[i as int] == (client_list@[i as int].0, client_list@[i as int].1@));
        }
        let e = &client_list[i];
        let lower_name = lowercase(&e.1);
        if lower_name == target {
            return Some((e.0, e.1.clone()));
        }
        i = i + 1;
    }
    proof {
        assert(l.skip(n as int) =~= RosterV::empty());
    }

    // If the client could not be found by name, maybe it was entered
    // as an id.
    let id = match parse_client_id(to_find) {
        Some(id) => id,
        None => {
            return None;
        },
    };
    let mut i: usize = 0;
    proof {
        assert(l.skip(0) =~= l);
    }
    while i < n
        invariant
            n == client_list@.len(),
            l == client_list.deep_view(),
            i <= n,
            find_by_lower_name(l, lower_of(to_find@)) is None,
            spec_parse_u64(to_find@) == Some(id),
            find_by_id(l, id) == find_by_id(l.skip(i as int), id),
        decreases n - i,
    {
        proof {
            let sk = l.skip(i as int);
            assert(sk.first() == l[i as int]);
            assert(sk.drop_first() =~= l.skip(i as int + 1));
            assert(l[i as int] == (client_list@[i as int].0, client_list@[i as int].1@));
        }
        let e = &client_list[i];
        if e.0 == id {
            return Some((e.0, e.1.clone()));
        }
        i = i + 1;
    }
    proof {
        assert(l.skip(n as int) =~= RosterV::empty());
    }
    None
}

/// Where a client-side game request stands.
#[derive(Clone, Copy, Debug, PartialEq, Eq, Structural)]
pub enum SequenceStatus {
    /// Still waiting for the outcome.
    Running,
    /// Over; true when a game came of it.
    Finished(bool),
}

/// The client-side record of one game request.
pub struct RequestGameSequence {
    remote_name: String,
    local_ok: bool,
    remote_ok: bool,
    status: SequenceStatus,
}

impl RequestGameSequence {
    /// The name of the other player.
    pub closed spec fn spec_remote_name(self) -> Seq<char> {
        self.remote_name@
    }

    /// Where the request stands.
    pub closed spec fn spec_status(self) -> SequenceStatus {
        self.status
    }

    /// Where the request stands.
    pub fn status(&self) -> (r: SequenceStatus)
        ensures
            r == self.spec_status(),
    {
        self.status
    }

    /// Start a request from the local player to the player with the
    /// provided name. Nothing starts while a game is running or when
    /// no such player is on the server; otherwise the request to send
    /// to the server comes back with the sequence.
    pub fn local_request(to: &String, client_list: &Vec<(ClientId, String)>,
        game_running: bool) -> (r: Option<(RequestGameSequence, Packet)>)
        ensures
            game_running ==> r is None,
            !game_running ==> (match lookup_id(client_list.deep_view(), to@) {
                Some(id) => r matches Some(p) && p.0.spec_remote_name() == to@
                    && p.0.spec_status() == SequenceStatus::Running
                    && p.1@ == PacketV::RequestGame(id),
                None => r is None,
            }),
    {
        if game_running {
            return None;
        }
        let ghost l = client_list.deep_view();
        let n = client_list.len();
        let mut i: usize = 0;
        proof {
            assert(l.skip(0) =~= l);
        }
        while i < n
            invariant
                !game_running,
                n == client_list@.len(),
                l == client_list.deep_view(),
                i <= n,
                lookup_id(l, to@) == lookup_id(l.skip(i as int), to@),
            decreases n - i,
        {
            proof {
                let sk = l.skip(i as int);
                assert(sk.first() == l[i as int]);
                assert(sk.drop_first() =~= l.skip(i as int + 1));
                assert(l[i as int] == (client_list@[i as int].0,
                    client_list@[i as int].1@));
            }
            let e = &client_list[i];
            if e.1 == *to {
                let seq_state = RequestGameSequence {
                    remote_name: to.clone(),
                    local_ok: true,
                    remote_ok: false,
                    status: SequenceStatus::Running,
                };
                return Some((seq_state, Packet::RequestGame(e.0)));
            }
            i = i + 1;
        }
        proof {
            assert(l.skip(n as int) =~= RosterV::empty());
        }
        None
    }

    /// Decide on a request that came in from another player: while a
    /// game runs or the request is already noted, nothing happens;
    /// otherwise the player's yes or no becomes the accepting
    /// counter-request or a deny.
    pub fn remote_request(from: ClientId, game_running: bool, already_noted: bool,
        accept: bool) -> (r: (bool, Option<Packet>))
        ensures
            game_running || already_noted ==> !r.0 && r.1 is None,
            !game_running && !already_noted && accept ==> r.0
                && (r.1 matches Some(p) && p@ == PacketV::RequestGame(from)),
            !game_running && !already_noted && !accept ==> !r.0
                && (r.1 matches Some(p) && p@ == PacketV::DenyGame(from)),
    {
        if game_running || already_noted {
            return (false, None);
        }
        if accept {
            (true, Some(Packet::RequestGame(from)))
        } else {
            (false, Some(Packet::DenyGame(from)))
        }
    }
}

} // verus!
