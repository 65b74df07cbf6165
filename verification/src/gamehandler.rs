//! The match-maker: pending game requests, mutual-accept detection and
//! disconnect cleanup.
//!
//! A pending pair `(from, to)` means `from` has asked `to` for a game
//! and the answer is still out. The initial requester plays Black when
//! the game starts.

use vstd::prelude::*;

use crate::command::{Command, CommandV};
use crate::packets::{ClientId, Packet, PacketV};

verus! {

/// The set of pending requests, in arrival order.
pub type PendingV = Seq<(u64, u64)>;

/// The pair `(from, to)` is pending.
pub open spec fn has_pair(s: PendingV, from: u64, to: u64) -> bool {
    s.contains((from, to))
}

/// No pair relates a client to itself, and no pair repeats.
pub open spec fn wf_pending(s: PendingV) -> bool {
    &&& forall|i: int| 0 <= i < s.len() ==> (#[trigger] s[i]).0 != s[i].1
    &&& forall|i: int, j: int| 0 <= i < j < s.len() ==> s[i] != s[j]
}

/// The pending set without the pair `(from, to)`, order kept.
pub open spec fn remove_pair(s: PendingV, from: u64, to: u64) -> PendingV
    decreases s.len(),
{
    if s.len() == 0 {
        Seq::empty()
    } else if s.first() == (from, to) {
        remove_pair(s.drop_first(), from, to)
    } else {
        seq![s.first()] + remove_pair(s.drop_first(), from, to)
    }
}

/// What one `RequestGame` does to the pending set, and what it sends:
/// nothing for a self-request or a duplicate; a started match when the
/// reverse pair was pending, the initial requester as Black; otherwise
/// a new pair and the forwarded request.
pub open spec fn spec_request(s: PendingV, from: u64, to: u64) -> (PendingV, Seq<CommandV>) {
    if from == to {
        (s, Seq::empty())
    } else if has_pair(s, from, to) {
        (s, Seq::empty())
    } else if has_pair(s, to, from) {
        (remove_pair(s, to, from), seq![CommandV::StartMatch(to, from)])
    } else {
        (s.push((from, to)), seq![CommandV::Send(to, PacketV::RequestGame(from))])
    }
}

/// What one `DenyGame` does: the denied pair leaves and the original
/// requester hears of it; without a pending pair, nothing.
pub open spec fn spec_deny(s: PendingV, from: u64, to: u64) -> (PendingV, Seq<CommandV>) {
    if has_pair(s, to, from) {
        (remove_pair(s, to, from), seq![CommandV::Send(to, PacketV::DenyGame(from))])
    } else {
        (s, Seq::empty())
    }
}

/// What a disconnect does: every pair mentioning the client leaves,
/// and the other endpoint of each hears a deny in the client's name.
pub open spec fn spec_disconnect(s: PendingV, client: u64) -> (PendingV, Seq<CommandV>)
    decreases s.len(),
{
    if s.len() == 0 {
        (Seq::empty(), Seq::empty())
    } else {
        let (rest, out) = spec_disconnect(s.drop_first(), client);
        let p = s.first();
        if p.0 == client {
            (rest, seq![CommandV::Send(p.1, PacketV::DenyGame(client))] + out)
        } else if p.1 == client {
            (rest, seq![CommandV::Send(p.0, PacketV::DenyGame(client))] + out)
        } else {
            (seq![p] + rest, out)
        }
    }
}

/// Law: a request that duplicates a pending one changes nothing and
/// sends nothing; in particular no further game starts.
pub proof fn lemma_duplicate_request(s: PendingV, from: u64, to: u64)
    requires
        has_pair(s, from, to),
    ensures
        spec_request(s, from, to) == (s, Seq::<CommandV>::empty()),
{
    // whether or not the request names its own sender, nothing changes
    if from == to {
        assert(s.contains((from, to)));
    }
}

/// Law: one request and then its reverse start exactly one game; the
/// initial requester plays Black, the accepter White, and nothing is
/// left pending between the two.
pub proof fn lemma_mutual_accept(s: PendingV, a: u64, b: u64)
    requires
        wf_pending(s),
        a != b,
        !has_pair(s, a, b),
        !has_pair(s, b, a),
    ensures
        ({
            let (s1, out1) = spec_request(s, a, b);
            let (s2, out2) = spec_request(s1, b, a);
            &&& out1 == seq![CommandV::Send(b, PacketV::RequestGame(a))]
            &&& out2 == seq![CommandV::StartMatch(a, b)]
            &&& !has_pair(s2, a, b)
            &&& !has_pair(s2, b, a)
        }),
{
    let (s1, out1) = spec_request(s, a, b);
    assert(s1 == s.push((a, b)));
    assert(has_pair(s1, a, b)) by {
        assert(s1[s.len() as int] == (a, b));
    }
    assert(!has_pair(s1, b, a)) by {
        if s1.contains((b, a)) {
            let i = choose|i: int| 0 <= i < s1.len() && s1[i] == (b, a);
            assert(i < s.len());
            assert(s[i] == (b, a));
        }
    }
    let (s2, out2) = spec_request(s1, b, a);
    assert(s2 == remove_pair(s1, a, b));
    lemma_remove_pair_removes(s1, a, b);
    assert(!has_pair(s2, b, a)) by {
        lemma_remove_pair_contains(s1, a, b);
        if s2.contains((b, a)) {
            let i = choose|i: int| 0 <= i < s2.len() && s2[i] == (b, a);
            assert(s1.contains((b, a)));
        }
    }
}

/// No pair `(from, to)` survives its removal.
proof fn lemma_remove_pair_removes(s: PendingV, from: u64, to: u64)
    ensures
        !has_pair(remove_pair(s, from, to), from, to),
    decreases s.len(),
{
    if s.len() > 0 {
        lemma_remove_pair_removes(s.drop_first(), from, to);
        let r = remove_pair(s, from, to);
        if s.first() != (from, to) {
            let rr = remove_pair(s.drop_first(), from, to);
            if r.contains((from, to)) {
                let i = choose|i: int| 0 <= i < r.len() && r[i] == (from, to);
                assert(i > 0);
                assert(rr[i - 1] == (from, to));
            }
        }
    }
}

/// Every pair that survives a removal was pending before.
proof fn lemma_remove_pair_contains(s: PendingV, from: u64, to: u64)
    ensures
        forall|i: int| 0 <= i < remove_pair(s, from, to).len()
            ==> s.contains(#[trigger] remove_pair(s, from, to)[i]),
    decreases s.len(),
{
    if s.len() > 0 {
        lemma_remove_pair_contains(s.drop_first(), from, to);
        let r = remove_pair(s, from, to);
        let rr = remove_pair(s.drop_first(), from, to);
        assert forall|i: int| 0 <= i < r.len()
            implies s.contains(#[trigger] r[i]) by {
            if s.first() == (from, to) {
                let j = choose|j: int| 0 <= j < s.drop_first().len()
                    && s.drop_first()[j] == rr[i];
                assert(s[j + 1] == rr[i]);
            } else if i == 0 {
                assert(r[0] == s[0]);
            } else {
                assert(r[i] == rr[i - 1]);
                let j = choose|j: int| 0 <= j < s.drop_first().len()
                    && s.drop_first()[j] == rr[i - 1];
                assert(s[j + 1] == rr[i - 1]);
            }
        }
    }
}

/// Law: after a disconnect no pending pair mentions the client, every
/// surviving pair was pending before, and for each removed pair the
/// other endpoint is told `DenyGame` in the client's name.
pub proof fn lemma_disconnect_cleanup(s: PendingV, client: u64)
    ensures
        ({
            let (s2, out) = spec_disconnect(s, client);
            &&& forall|i: int| 0 <= i < s2.len()
                ==> (#[trigger] s2[i]).0 != client && s2[i].1 != client
            &&& forall|i: int| 0 <= i < s2.len() ==> s.contains(#[trigger] s2[i])
            &&& forall|i: int| 0 <= i < s.len() && (#[trigger] s[i]).0 == client
                ==> out.contains(CommandV::Send(s[i].1, PacketV::DenyGame(client)))
            &&& forall|i: int| 0 <= i < s.len() && (#[trigger] s[i]).1 == client
                && s[i].0 != client
                ==> out.contains(CommandV::Send(s[i].0, PacketV::DenyGame(client)))
        }),
    decreases s.len(),
{
    if s.len() > 0 {
        lemma_disconnect_cleanup(s.drop_first(), client);
        let (rest, rout) = spec_disconnect(s.drop_first(), client);
        let (s2, out) = spec_disconnect(s, client);
        let p = s.first();
        assert(forall|k: int| 0 <= k < s.drop_first().len()
            ==> #[trigger] s.drop_first()[k] == s[k + 1]);
        assert forall|i: int| 0 <= i < s2.len()
            implies (#[trigger] s2[i]).0 != client && s2[i].1 != client by {
            if p.0 != client && p.1 != client && i > 0 {
                assert(s2[i] == rest[i - 1]);
            }
        }
        assert forall|i: int| 0 <= i < s2.len() implies s.contains(#[trigger] s2[i]) by {
            if p.0 != client && p.1 != client {
                if i == 0 {
                    assert(s2[0] == s[0]);
                } else {
                    assert(s2[i] == rest[i - 1]);
                    let j = choose|j: int| 0 <= j < s.drop_first().len()
                        && s.drop_first()[j] == rest[i - 1];
                    assert(s[j + 1] == rest[i - 1]);
                }
            } else {
                let j = choose|j: int| 0 <= j < s.drop_first().len()
                    && s.drop_first()[j] == s2[i];
                assert(s[j + 1] == s2[i]);
            }
        }
        assert forall|i: int| 0 <= i < s.len() && (#[trigger] s[i]).0 == client
            implies out.contains(CommandV::Send(s[i].1, PacketV::DenyGame(client))) by {
            if i == 0 {
                assert(out[0] == CommandV::Send(p.1, PacketV::DenyGame(client)));
            } else {
                assert(s.drop_first()[i - 1] == s[i]);
                assert(rout.contains(CommandV::Send(s[i].1, PacketV::DenyGame(client))));
                let j = choose|j: int| 0 <= j < rout.len()
                    && rout[j] == CommandV::Send(s[i].1, PacketV::DenyGame(client));
                if p.0 == client || p.1 == client {
                    assert(out[j + 1] == rout[j]);
                } else {
                    assert(out == rout);
                }
            }
        }
        assert forall|i: int| 0 <= i < s.len() && (#[trigger] s[i]).1 == client
            && s[i].0 != client
            implies out.contains(CommandV::Send(s[i].0, PacketV::DenyGame(client))) by {
            if i == 0 {
                assert(out[0] == CommandV::Send(p.0, PacketV::DenyGame(client)));
            } else {
                assert(s.drop_first()[i - 1] == s[i]);
                assert(rout.contains(CommandV::Send(s[i].0, PacketV::DenyGame(client))));
                let j = choose|j: int| 0 <= j < rout.len()
                    && rout[j] == CommandV::Send(s[i].0, PacketV::DenyGame(client));
                if p.0 == client || p.1 == client {
                    assert(out[j + 1] == rout[j]);
                } else {
                    assert(out == rout);
                }
            }
        }
    }
}

/// The match-maker's pending requests.
pub struct GameHandler {
    pending: Vec<(ClientId, ClientId)>,
}

impl GameHandler {
    /// The pending pairs, in arrival order.
    pub closed spec fn pairs(self) -> PendingV {
        self.pending@
    }

    /// No self-pair, no repeated pair.
    pub open spec fn well_formed(self) -> bool {
        wf_pending(self.pairs())
    }

    /// A fresh match-maker with nothing pending.
    pub fn new() -> (r: GameHandler)
        ensures
            r.well_formed(),
            r.pairs() == PendingV::empty(),
    {
        let r = GameHandler { pending: Vec::new() };
        proof {
            assert(r.pairs() =~= PendingV::empty());
        }
        r
    }

    /// Whether the pair `(from, to)` is pending.
    fn contains_pair(&self, from: ClientId, to: ClientId) -> (r: bool)
        ensures
            r == has_pair(self.pairs(), from, to),
    {
        let n = self.pending.len();
        let mut i: usize = 0;
        while i < n
            invariant
                n == self.pending@.len(),
                i <= n,
                forall|k: int| 0 <= k < i ==> #[trigger] self.pending@[k] != (from, to),
            decreases n - i,
        {
            let e = self.pending[i];
            if e.0 == from && e.1 == to {
                proof {
                    assert(self.pairs()[i as int] == (from, to));
                }
                return true;
            }
            i = i + 1;
        }
        proof {
            if has_pair(self.pairs(), from, to) {
                let k = choose|k: int| 0 <= k < n && self.pairs()[k] == (from, to);
                assert(self.pending@[k] == (from, to));
            }
        }
        false
    }

    /// Remove the pair `(from, to)` wherever it stands.
    fn remove_pair_exec(&mut self, from: ClientId, to: ClientId)
        ensures
            final(self).pairs() == remove_pair(old(self).pairs(), from, to),
    {
        let ghost s0 = self.pairs();
        let n = self.pending.len();
        let mut kept: Vec<(ClientId, ClientId)> = Vec::new();
        let mut i: usize = 0;
        proof {
            assert(s0.skip(0) =~= s0);
            assert(kept@ + remove_pair(s0.skip(0), from, to) =~= remove_pair(s0, from, to));
        }
        while i < n
            invariant
                n == self.pending@.len(),
                s0 == self.pairs(),
                i <= n,
                remove_pair(s0, from, to) == kept@ + remove_pair(s0.skip(i as int), from, to),
            decreases n - i,
        {
            let e = self.pending[i];
            let ghost pre = kept@;
            proof {
                let sk = s0.skip(i as int);
                assert(sk.first() == s0[i as int]);
                assert(sk.drop_first() =~= s0.skip(i as int + 1));
            }
            if !(e.0 == from && e.1 == to) {
                kept.push(e);
                proof {
                    assert(s0[i as int] != (from, to));
                    assert(remove_pair(s0.skip(i as int), from, to)
                        =~= seq![s0[i as int]] + remove_pair(s0.skip(i as int + 1), from, to));
                    assert(pre + (seq![s0[i as int]]
                            + remove_pair(s0.skip(i as int + 1), from, to))
                        =~= kept@ + remove_pair(s0.skip(i as int + 1), from, to));
                }
            } else {
                proof {
                    assert(s0[i as int] == (from, to));
                }
            }
            i = i + 1;
        }
        proof {
            assert(s0.skip(n as int) =~= PendingV::empty());
            assert(remove_pair(s0.skip(n as int), from, to) =~= PendingV::empty());
            assert(kept@ + remove_pair(s0.skip(n as int), from, to) =~= kept@);
        }
        self.pending = kept;
    }

    /// Handle one packet from `client`: a game request, a deny or a
    /// disconnect; everything else is ignored.
    pub fn handle_packet(&mut self, client: ClientId, packet: &Packet) -> (r: Vec<Command>)
        requires
            old(self).well_formed(),
        ensures
            final(self).well_formed(),
            (match packet@ {
                PacketV::RequestGame(to) => (final(self).pairs(), r.deep_view())
                    == spec_request(old(self).pairs(), client, to),
                PacketV::DenyGame(to) => (final(self).pairs(), r.deep_view())
                    == spec_deny(old(self).pairs(), client, to),
                PacketV::Disconnect => (final(self).pairs(), r.deep_view())
                    == spec_disconnect(old(self).pairs(), client),
                _ => final(self).pairs() == old(self).pairs()
                    && r.deep_view() =~= Seq::<CommandV>::empty(),
            }),
    {
        match packet {
            Packet::RequestGame(to) => self.handle_game_request(client, *to),
            Packet::DenyGame(to) => self.handle_deny_game(client, *to),
            Packet::Disconnect => self.handle_disconnect(client),
            _ => {
                let r: Vec<Command> = Vec::new();
                proof {
                    assert(r.deep_view() =~= Seq::<CommandV>::empty());
                }
                r
            },
        }
    }

    /// A game request from `from` to `to`; a repeated request is
    /// ignored, a mutual one starts the game with `to` as Black.
    fn handle_game_request(&mut self, from: ClientId, to: ClientId) -> (r: Vec<Command>)
        requires
            old(self).well_formed(),
        ensures
            final(self).well_formed(),
            (final(self).pairs(), r.deep_view()) == spec_request(old(self).pairs(), from, to),
    {
        let ghost s0 = self.pairs();
        if from == to {
            let r: Vec<Command> = Vec::new();
            proof {
                assert(r.deep_view() =~= Seq::<CommandV>::empty());
            }
            return r;
        }
        if self.contains_pair(from, to) {
            let r: Vec<Command> = Vec::new();
            proof {
                assert(r.deep_view() =~= Seq::<CommandV>::empty());
            }
            return r;
        }
        if self.contains_pair(to, from) {
            self.remove_pair_exec(to, from);
            let mut r: Vec<Command> = Vec::new();
            r.push(Command::StartMatch(to, from));
            proof {
                lemma_remove_pair_contains(s0, to, from);
                assert(wf_pending(self.pairs())) by {
                    let s1 = self.pairs();
                    assert forall|i: int, j: int| 0 <= i < j < s1.len()
                        implies s1[i] != s1[j] by {
                        if s1[i] == s1[j] {
                            lemma_remove_pair_distinct(s0, to, from);
                        }
                    }
                    assert(forall|i: int| 0 <= i < s1.len()
                        ==> (#[trigger] s1[i]).0 != s1[i].1) by {
                        assert(forall|i: int| 0 <= i < s1.len()
                            ==> s0.contains(#[trigger] s1[i]));
                    }
                }
                assert(r.deep_view() =~= seq![CommandV::StartMatch(to, from)]);
            }
            return r;
        }
        self.pending.push((from, to));
        let mut r: Vec<Command> = Vec::new();
        r.push(Command::Send(to, Packet::RequestGame(from)));
        proof {
            assert(self.pairs() == s0.push((from, to)));
            assert(wf_pending(self.pairs())) by {
                let s1 = self.pairs();
                assert forall|i: int, j: int| 0 <= i < j < s1.len()
                    implies s1[i] != s1[j] by {
                    if j < s0.len() {
                        assert(s1[i] == s0[i] && s1[j] == s0[j]);
                    } else {
                        assert(s1[j] == (from, to));
                        assert(s1[i] == s0[i]);
                        if s1[i] == (from, to) {
                            assert(s0.contains((from, to)));
                        }
                    }
                }
            }
            assert(r.deep_view() =~= seq![CommandV::Send(to, PacketV::RequestGame(from))]);
        }
        r
    }

    /// `from` denies the request `to` made; without such a request the
    /// packet does nothing.
    fn handle_deny_game(&mut self, from: ClientId, to: ClientId) -> (r: Vec<Command>)
        requires
            old(self).well_formed(),
        ensures
            final(self).well_formed(),
            (final(self).pairs(), r.deep_view()) == spec_deny(old(self).pairs(), from, to),
    {
        let ghost s0 = self.pairs();
        if self.contains_pair(to, from) {
            self.remove_pair_exec(to, from);
            let mut r: Vec<Command> = Vec::new();
            r.push(Command::Send(to, Packet::DenyGame(from)));
            proof {
                lemma_remove_pair_contains(s0, to, from);
                lemma_remove_pair_distinct(s0, to, from);
                assert(forall|i: int| 0 <= i < self.pairs().len()
                    ==> s0.contains(#[trigger] self.pairs()[i]));
                assert(r.deep_view() =~= seq![CommandV::Send(to, PacketV::DenyGame(from))]);
            }
            r
        } else {
            let r: Vec<Command> = Vec::new();
            proof {
                assert(r.deep_view() =~= Seq::<CommandV>::empty());
            }
            r
        }
    }

    /// The client is gone: clear every pair that mentions it and tell
    /// each other endpoint.
    fn handle_disconnect(&mut self, client: ClientId) -> (r: Vec<Command>)
        requires
            old(self).well_formed(),
        ensures
            final(self).well_formed(),
            (final(self).pairs(), r.deep_view()) == spec_disconnect(old(self).pairs(), client),
    {
        let ghost s0 = self.pairs();
        let n = self.pending.len();
        let mut kept: Vec<(ClientId, ClientId)> = Vec::new();
        let mut out: Vec<Command> = Vec::new();
        let mut i: usize = n;
        proof {
            assert(s0.skip(n as int) =~= PendingV::empty());
            assert((kept@, out.deep_view())
                =~= spec_disconnect(s0.skip(n as int), client));
        }
        while i > 0
            invariant
                n == self.pending@.len(),
                s0 == self.pairs(),
                i <= n,
                (kept@, out.deep_view()) == spec_disconnect(s0.skip(i as int), client),
            decreases i,
        {
            i = i - 1;
            let e = self.pending[i];
            proof {
                let sk = s0.skip(i as int);
                assert(sk.first() == s0[i as int]);
                assert(sk.drop_first() =~= s0.skip(i as int + 1));
                assert(s0[i as int] == e);
            }
            let ghost pre_kept = kept@;
            let ghost pre_out = out.deep_view();
            if e.0 == client {
                out.insert(0, Command::Send(e.1, Packet::DenyGame(client)));
                proof {
                    assert(out.deep_view() =~= seq![CommandV::Send(e.1,
                        PacketV::DenyGame(client))] + pre_out);
                }
            } else if e.1 == client {
                out.insert(0, Command::Send(e.0, Packet::DenyGame(client)));
                proof {
                    assert(out.deep_view() =~= seq![CommandV::Send(e.0,
                        PacketV::DenyGame(client))] + pre_out);
                }
            } else {
                kept.insert(0, e);
                proof {
                    assert(kept@ =~= seq![e] + pre_kept);
                }
            }
        }
        proof {
            assert(s0.skip(0) =~= s0);
        }
        self.pending = kept;
        proof {
            lemma_disconnect_cleanup(s0, client);
            assert(wf_pending(self.pairs())) by {
                let s1 = self.pairs();
                lemma_disconnect_distinct(s0, client);
            }
        }
        out
    }
}

/// The pairs kept by a removal stay pairwise distinct.
proof fn lemma_remove_pair_distinct(s: PendingV, from: u64, to: u64)
    requires
        wf_pending(s),
    ensures
        wf_pending(remove_pair(s, from, to)),
    decreases s.len(),
{
    if s.len() > 0 {
        assert(wf_pending(s.drop_first())) by {
            assert(forall|k: int| 0 <= k < s.drop_first().len()
                ==> #[trigger] s.drop_first()[k] == s[k + 1]);
        }
        lemma_remove_pair_distinct(s.drop_first(), from, to);
        lemma_remove_pair_contains(s.drop_first(), from, to);
        let r = remove_pair(s, from, to);
        let rr = remove_pair(s.drop_first(), from, to);
        if s.first() != (from, to) {
            assert forall|a: int, b: int| 0 <= a < b < r.len()
                implies r[a] != r[b] by {
                if a == 0 {
                    assert(r[0] == s.first());
                    assert(r[b] == rr[b - 1]);
                    let j = choose|j: int| 0 <= j < s.drop_first().len()
                        && s.drop_first()[j] == rr[b - 1];
                    assert(s[j + 1] == rr[b - 1]);
                    assert(s[0] != s[j + 1]);
                } else {
                    assert(r[a] == rr[a - 1] && r[b] == rr[b - 1]);
                }
            }
            assert forall|a: int| 0 <= a < r.len()
                implies (#[trigger] r[a]).0 != r[a].1 by {
                if a == 0 {
                    assert(r[0] == s[0]);
                } else {
                    assert(r[a] == rr[a - 1]);
                    let j = choose|j: int| 0 <= j < s.drop_first().len()
                        && s.drop_first()[j] == rr[a - 1];
                    assert(s[j + 1] == rr[a - 1]);
                }
            }
        }
    }
}

/// The pairs kept by a disconnect stay pairwise distinct and avoid the
/// client.
proof fn lemma_disconnect_distinct(s: PendingV, client: u64)
    requires
        wf_pending(s),
    ensures
        wf_pending(spec_disconnect(s, client).0),
    decreases s.len(),
{
    if s.len() > 0 {
        assert(wf_pending(s.drop_first())) by {
            assert(forall|k: int| 0 <= k < s.drop_first().len()
                ==> #[trigger] s.drop_first()[k] == s[k + 1]);
        }
        lemma_disconnect_distinct(s.drop_first(), client);
        lemma_disconnect_cleanup(s.drop_first(), client);
        let (s2, _) = spec_disconnect(s, client);
        let (rest, _) = spec_disconnect(s.drop_first(), client);
        let p = s.first();
        if p.0 != client && p.1 != client {
            assert forall|a: int, b: int| 0 <= a < b < s2.len()
                implies s2[a] != s2[b] by {
                if a == 0 {
                    assert(s2[0] == p);
                    assert(s2[b] == rest[b - 1]);
                    let j = choose|j: int| 0 <= j < s.drop_first().len()
                        && s.drop_first()[j] == rest[b - 1];
                    assert(s[j + 1] == rest[b - 1]);
                    assert(s[0] != s[j + 1]);
                } else {
                    assert(s2[a] == rest[a - 1] && s2[b] == rest[b - 1]);
                }
            }
            assert forall|a: int| 0 <= a < s2.len()
                implies (#[trigger] s2[a]).0 != s2[a].1 by {
                if a == 0 {
                    assert(s2[0] == s[0]);
                } else {
                    assert(s2[a] == rest[a - 1]);
                    let j = choose|j: int| 0 <= j < s.drop_first().len()
                        && s.drop_first()[j] == rest[a - 1];
                    assert(s[j + 1] == rest[a - 1]);
                }
            }
        }
    }
}

} // verus!
