//! The master server's login registry: which client goes by which
//! name. Names are pairwise distinct; so are the client ids.
//!
//! The registry is a pure state machine: it is handed one packet at a
//! time and answers with the commands the connection layer must carry
//! out.

use vstd::prelude::*;
use vstd::string::StringExecFns;

use crate::command::{Command, CommandV};
use crate::packets::{ClientId, Packet, PacketV};

verus! {

/// The registry's content: ids paired with names, in login order.
pub type RosterV = Seq<(u64, Seq<char>)>;

/// Some client is registered under this id.
pub open spec fn has_id(s: RosterV, id: u64) -> bool {
    exists|i: int| 0 <= i < s.len() && (#[trigger] s[i]).0 == id
}

/// Some client is registered under this name.
pub open spec fn name_taken(s: RosterV, name: Seq<char>) -> bool {
    exists|i: int| 0 <= i < s.len() && (#[trigger] s[i]).1 == name
}

/// The name registered under `id`, if any.
pub open spec fn lookup_name(s: RosterV, id: u64) -> Option<Seq<char>>
    decreases s.len(),
{
    if s.len() == 0 {
        None
    } else if s.first().0 == id {
        Some(s.first().1)
    } else {
        lookup_name(s.drop_first(), id)
    }
}

/// The id registered under `name`, if any.
pub open spec fn lookup_id(s: RosterV, name: Seq<char>) -> Option<u64>
    decreases s.len(),
{
    if s.len() == 0 {
        None
    } else if s.first().1 == name {
        Some(s.first().0)
    } else {
        lookup_id(s.drop_first(), name)
    }
}

/// The roster without the entries of `id`, order kept.
pub open spec fn remove_id(s: RosterV, id: u64) -> RosterV
    decreases s.len(),
{
    if s.len() == 0 {
        Seq::empty()
    } else if s.first().0 == id {
        remove_id(s.drop_first(), id)
    } else {
        seq![s.first()] + remove_id(s.drop_first(), id)
    }
}

/// Every entry that survives a removal stood in the roster and does
/// not bear the removed id.
proof fn lemma_remove_id_contains(s: RosterV, id: u64)
    ensures
        forall|k: int| 0 <= k < remove_id(s, id).len()
            ==> s.contains(#[trigger] remove_id(s, id)[k]) && remove_id(s, id)[k].0 != id,
    decreases s.len(),
{
    if s.len() > 0 {
        lemma_remove_id_contains(s.drop_first(), id);
        assert forall|k: int| 0 <= k < remove_id(s, id).len()
            implies s.contains(#[trigger] remove_id(s, id)[k])
                && remove_id(s, id)[k].0 != id by {
            let r = remove_id(s, id);
            let rr = remove_id(s.drop_first(), id);
            if s.first().0 == id {
                assert(r[k] == rr[k]);
                let j = choose|j: int| 0 <= j < s.drop_first().len()
                    && s.drop_first()[j] == rr[k];
                assert(s[j + 1] == rr[k]);
            } else {
                if k == 0 {
                    assert(r[0] == s.first());
                    assert(s[0] == s.first());
                } else {
                    assert(r[k] == rr[k - 1]);
                    let j = choose|j: int| 0 <= j < s.drop_first().len()
                        && s.drop_first()[j] == rr[k - 1];
                    assert(s[j + 1] == rr[k - 1]);
                }
            }
        }
    }
}

/// Removing an id keeps ids and names pairwise distinct.
proof fn lemma_remove_id_wf(s: RosterV, id: u64)
    requires
        wf_roster(s),
    ensures
        wf_roster(remove_id(s, id)),
    decreases s.len(),
{
    if s.len() > 0 {
        assert(wf_roster(s.drop_first())) by {
            assert(forall|k: int| 0 <= k < s.drop_first().len()
                ==> #[trigger] s.drop_first()[k] == s[k + 1]);
        }
        lemma_remove_id_wf(s.drop_first(), id);
        lemma_remove_id_contains(s.drop_first(), id);
        let r = remove_id(s, id);
        let rr = remove_id(s.drop_first(), id);
        if s.first().0 == id {
        } else {
            assert forall|a: int, b: int| 0 <= a < b < r.len()
                implies (#[trigger] r[a]).0 != (#[trigger] r[b]).0
                    && r[a].1 != r[b].1 by {
                if a == 0 {
                    assert(r[0] == s.first());
                    assert(r[b] == rr[b - 1]);
                    let j = choose|j: int| 0 <= j < s.drop_first().len()
                        && s.drop_first()[j] == rr[b - 1];
                    assert(s[j + 1] == rr[b - 1]);
                    assert(s[0].0 != s[j + 1].0 && s[0].1 != s[j + 1].1);
                } else {
                    assert(r[a] == rr[a - 1] && r[b] == rr[b - 1]);
                }
            }
        }
    }
}

/// The roster with `id` registered under `name`: its entry replaced
/// where `id` is known, appended where it is new.
pub open spec fn set_name(s: RosterV, id: u64, name: Seq<char>) -> RosterV {
    if has_id(s, id) {
        Seq::new(s.len(), |i: int| if s[i].0 == id { (id, name) } else { s[i] })
    } else {
        s.push((id, name))
    }
}

/// A packet that belongs to the game machinery rather than the lobby.
pub open spec fn is_game_packet(p: PacketV) -> bool {
    match p {
        PacketV::RequestGame(_) => true,
        PacketV::DenyGame(_) => true,
        PacketV::AbandonGame(_) => true,
        PacketV::StartGame(_, _) => true,
        PacketV::PlacePiece(_, _, _) => true,
        PacketV::Pass(_) => true,
        _ => false,
    }
}

/// Ids and names are pairwise distinct.
pub open spec fn wf_roster(s: RosterV) -> bool {
    forall|i: int, j: int| 0 <= i < j < s.len()
        ==> (#[trigger] s[i]).0 != (#[trigger] s[j]).0 && s[i].1 != s[j].1
}

/// The master server's registry of logged-in clients.
pub struct Master {
    named_clients: Vec<(ClientId, String)>,
}

impl Master {
    /// The registry's mathematical content.
    pub closed spec fn roster(self) -> RosterV {
        self.named_clients.deep_view()
    }

    /// Names pairwise distinct, ids pairwise distinct.
    pub open spec fn well_formed(self) -> bool {
        wf_roster(self.roster())
    }

    /// A fresh registry with nobody logged in.
    pub fn new() -> (r: Master)
        ensures
            r.well_formed(),
            r.roster() == RosterV::empty(),
    {
        let r = Master { named_clients: Vec::new() };
        proof {
            assert(r.roster() =~= RosterV::empty());
        }
        r
    }

    /// Whether some client already goes by `name`.
    fn name_in_use(&self, name: &String) -> (r: bool)
        ensures
            r == name_taken(self.roster(), name@),
    {
        let n = self.named_clients.len();
        let mut i: usize = 0;
        while i < n
            invariant
                n == self.named_clients@.len(),
                i <= n,
                forall|k: int| 0 <= k < i ==> (#[trigger] self.roster()[k]).1 != name@,
            decreases n - i,
        {
            if self.named_clients[i].1 == *name {
                proof {
                    assert(self.roster()[i as int].1 == name@);
                }
                return true;
            }
            proof {
                assert(self.roster()[i as int].1 == self.named_clients@[i as int].1@);
            }
            i = i + 1;
        }
        false
    }

    /// A copy of the registry in the shape the client list packet uses.
    fn roster_vec(&self) -> (r: Vec<(ClientId, String)>)
        ensures
            r.deep_view() == self.roster(),
    {
        let n = self.named_clients.len();
        let mut out: Vec<(ClientId, String)> = Vec::new();
        let mut i: usize = 0;
        while i < n
            invariant
                n == self.named_clients@.len(),
                i <= n,
                out.deep_view().len() == i,
                forall|k: int| 0 <= k < i
                    ==> #[trigger] out.deep_view()[k] == self.roster()[k],
            decreases n - i,
        {
            let e = &self.named_clients[i];
            let ghost pre = out.deep_view();
            out.push((e.0, e.1.clone()));
            proof {
                assert(out@.len() == i + 1);
                assert forall|k: int| 0 <= k < i
                    implies #[trigger] out.deep_view()[k] == pre[k] by {
                    assert(out@[k] == out@.drop_last()[k]);
                }
                assert(out.deep_view()[i as int] == self.roster()[i as int]);
            }
            i = i + 1;
        }
        proof {
            assert(out.deep_view() =~= self.roster());
        }
        out
    }

    /// The name the client with `id` logged in under.
    pub fn get_login_name(&self, client: ClientId) -> (r: Option<String>)
        ensures
            r is Some <==> lookup_name(self.roster(), client) is Some,
            r is Some ==> r.unwrap()@ == lookup_name(self.roster(), client).unwrap(),
    {
        let n = self.named_clients.len();
        let mut i: usize = 0;
        proof {
            assert(self.roster().skip(0) =~= self.roster());
        }
        while i < n
            invariant
                n == self.named_clients@.len(),
                i <= n,
                lookup_name(self.roster(), client)
                    == lookup_name(self.roster().skip(i as int), client),
            decreases n - i,
        {
            proof {
                let s = self.roster().skip(i as int);
                assert(s.first() == self.roster()[i as int]);
                assert(s.drop_first() =~= self.roster().skip(i as int + 1));
            }
            let e = &self.named_clients[i];
            if e.0 == client {
                proof {
                    assert(self.roster()[i as int] == (e.0, e.1@));
                }
                return Some(e.1.clone());
            }
            proof {
                assert(self.roster()[i as int] == (self.named_clients@[i as int].0,
                    self.named_clients@[i as int].1@));
            }
            i = i + 1;
        }
        proof {
            assert(self.roster().skip(n as int) =~= RosterV::empty());
        }
        None
    }

    /// The id of the client that logged in under `login_name`.
    pub fn get_id(&self, login_name: &String) -> (r: Option<ClientId>)
        ensures
            r == lookup_id(self.roster(), login_name@),
    {
        let n = self.named_clients.len();
        let mut i: usize = 0;
        proof {
            assert(self.roster().skip(0) =~= self.roster());
        }
        while i < n
            invariant
                n == self.named_clients@.len(),
                i <= n,
                lookup_id(self.roster(), login_name@)
                    == lookup_id(self.roster().skip(i as int), login_name@),
            decreases n - i,
        {
            proof {
                let s = self.roster().skip(i as int);
                assert(s.first() == self.roster()[i as int]);
                assert(s.drop_first() =~= self.roster().skip(i as int + 1));
                assert(self.roster()[i as int] == (self.named_clients@[i as int].0,
                    self.named_clients@[i as int].1@));
            }
            let e = &self.named_clients[i];
            if e.1 == *login_name {
                return Some(e.0);
            }
            i = i + 1;
        }
        proof {
            assert(self.roster().skip(n as int) =~= RosterV::empty());
        }
        None
    }

    /// Whether the registry knows the client.
    fn knows_id(&self, client: ClientId) -> (r: bool)
        ensures
            r == has_id(self.roster(), client),
    {
        let n = self.named_clients.len();
        let mut i: usize = 0;
        while i < n
            invariant
                n == self.named_clients@.len(),
                i <= n,
                forall|k: int| 0 <= k < i ==> (#[trigger] self.roster()[k]).0 != client,
            decreases n - i,
        {
            if self.named_clients[i].0 == client {
                proof {
                    assert(self.roster()[i as int].0 == client);
                }
                return true;
            }
            proof {
                assert(self.roster()[i as int].0 == self.named_clients@[i as int].0);
            }
            i = i + 1;
        }
        false
    }

    /// Whether this packet from this client may reach the game
    /// handlers: a client cannot play before `LoginAccept`, so a game
    /// packet from a client that has not logged in is to be silently
    /// ignored; everything else passes.
    pub fn admits_game_packet(&self, client: ClientId, packet: &Packet) -> (r: bool)
        ensures
            r == (!is_game_packet(packet@) || has_id(self.roster(), client)),
    {
        let game_related = match packet {
            Packet::RequestGame(_) => true,
            Packet::DenyGame(_) => true,
            Packet::AbandonGame(_) => true,
            Packet::StartGame(_, _) => true,
            Packet::PlacePiece(_, _, _) => true,
            Packet::Pass(_) => true,
            _ => false,
        };
        if !game_related {
            return true;
        }
        self.knows_id(client)
    }

    /// The broadcast that keeps every client's list current.
    pub fn push_client_list(&self) -> (r: Vec<Command>)
        ensures
            r.deep_view() =~= seq![CommandV::Broadcast(PacketV::ClientList(self.roster()))],
    {
        let list = self.roster_vec();
        let mut out: Vec<Command> = Vec::new();
        out.push(Command::Broadcast(Packet::ClientList(list)));
        out
    }

    /// Handle one packet from `client`: a login attempt, a disconnect,
    /// a chat message or a list request; everything else is ignored.
    pub fn handle_packet(&mut self, client: ClientId, packet: &Packet) -> (r: Vec<Command>)
        requires
            old(self).well_formed(),
        ensures
            final(self).well_formed(),
            (match packet@ {
                PacketV::Login(name) => if name_taken(old(self).roster(), name) {
                    final(self).roster() == old(self).roster()
                        && r.deep_view() =~= seq![CommandV::Send(client,
                            PacketV::LoginDeny("Name already in use."@))]
                } else {
                    final(self).roster() == set_name(old(self).roster(), client, name)
                        && r.deep_view() =~= seq![CommandV::Send(client, PacketV::LoginAccept),
                            CommandV::Broadcast(PacketV::ClientList(final(self).roster()))]
                },
                PacketV::Disconnect => final(self).roster()
                        == remove_id(old(self).roster(), client)
                    && r.deep_view() =~= seq![CommandV::Broadcast(PacketV::ClientList(
                        final(self).roster()))],
                PacketV::Message(to, text) => final(self).roster() == old(self).roster()
                    && r.deep_view() =~= seq![CommandV::Send(to,
                        PacketV::Message(client, text))],
                PacketV::RequestClientList => final(self).roster() == old(self).roster()
                    && r.deep_view() =~= seq![CommandV::Send(client,
                        PacketV::ClientList(old(self).roster()))],
                _ => final(self).roster() == old(self).roster()
                    && r.deep_view() =~= Seq::<CommandV>::empty(),
            }),
    {
        match packet {
            Packet::Login(name) => self.handle_login(client, name),
            Packet::Disconnect => self.handle_disconnect(client),
            Packet::Message(to, text) => {
                let mut out: Vec<Command> = Vec::new();
                out.push(Command::Send(*to, Packet::Message(client, text.clone())));
                out
            },
            Packet::RequestClientList => {
                let list = self.roster_vec();
                let mut out: Vec<Command> = Vec::new();
                out.push(Command::Send(client, Packet::ClientList(list)));
                out
            },
            _ => Vec::new(),
        }
    }

    /// A login attempt: accepted and broadcast when the name is free,
    /// denied with the reason when it is taken.
    fn handle_login(&mut self, client: ClientId, name: &String) -> (r: Vec<Command>)
        requires
            old(self).well_formed(),
        ensures
            final(self).well_formed(),
            if name_taken(old(self).roster(), name@) {
                final(self).roster() == old(self).roster()
                    && r.deep_view() =~= seq![CommandV::Send(client,
                        PacketV::LoginDeny("Name already in use."@))]
            } else {
                final(self).roster() == set_name(old(self).roster(), client, name@)
                    && r.deep_view() =~= seq![CommandV::Send(client, PacketV::LoginAccept),
                        CommandV::Broadcast(PacketV::ClientList(final(self).roster()))]
            },
    {
        if self.name_in_use(name) {
            let mut out: Vec<Command> = Vec::new();
            out.push(Command::Send(client,
                Packet::LoginDeny(String::from_str("Name already in use."))));
            return out;
        }
        let ghost s0 = self.roster();
        let n = self.named_clients.len();
        let mut i: usize = 0;
        let mut found = false;
        while i < n && !found
            invariant
                n == self.named_clients@.len(),
                i <= n,
                s0 == self.roster(),
                !found ==> forall|k: int| 0 <= k < i ==> (#[trigger] s0[k]).0 != client,
                found ==> i < n && s0[i as int].0 == client,
            decreases n - i, (if found { 0int } else { 1int }),
        {
            if self.named_clients[i].0 == client {
                found = true;
            } else {
                proof {
                    assert(s0[i as int].0 == self.named_clients@[i as int].0);
                }
                i = i + 1;
            }
        }
        if found {
            self.named_clients[i] = (client, name.clone());
            proof {
                assert(has_id(s0, client));
                assert(self.roster() =~= set_name(s0, client, name@)) by {
                    assert(forall|k: int| 0 <= k < s0.len() && k != i
                        ==> (#[trigger] s0[k]).0 != client);
                }
            }
        } else {
            proof {
                assert(!has_id(s0, client));
            }
            self.named_clients.push((client, name.clone()));
            proof {
                assert(self.roster() =~= s0.push((client, name@)));
            }
        }
        proof {
            let s1 = self.roster();
            assert(wf_roster(s1)) by {
                assert forall|a: int, b: int| 0 <= a < b < s1.len()
                    implies (#[trigger] s1[a]).0 != (#[trigger] s1[b]).0
                        && s1[a].1 != s1[b].1 by {
                    if found {
                        assert(forall|k: int| 0 <= k < s1.len() && k != i
                            ==> #[trigger] s1[k] == s0[k]);
                    } else {
                        assert(forall|k: int| 0 <= k < s0.len()
                            ==> #[trigger] s1[k] == s0[k]);
                    }
                    assert(forall|k: int| 0 <= k < s0.len()
                        ==> (#[trigger] s0[k]).1 != name@);
                }
            }
        }
        let list = self.roster_vec();
        let mut out: Vec<Command> = Vec::new();
        out.push(Command::Send(client, Packet::LoginAccept));
        out.push(Command::Broadcast(Packet::ClientList(list)));
        out
    }

    /// A disconnect: drop the entry and broadcast the new list.
    fn handle_disconnect(&mut self, client: ClientId) -> (r: Vec<Command>)
        requires
            old(self).well_formed(),
        ensures
            final(self).well_formed(),
            final(self).roster() == remove_id(old(self).roster(), client),
            r.deep_view() =~= seq![CommandV::Broadcast(PacketV::ClientList(
                final(self).roster()))],
    {
        let ghost s0 = self.roster();
        let n = self.named_clients.len();
        let mut kept: Vec<(ClientId, String)> = Vec::new();
        let mut i: usize = 0;
        proof {
            assert(s0.skip(0) =~= s0);
            assert(kept.deep_view() =~= RosterV::empty());
            assert(kept.deep_view() + remove_id(s0.skip(0), client)
                =~= remove_id(s0, client));
        }
        while i < n
            invariant
                n == self.named_clients@.len(),
                i <= n,
                s0 == self.roster(),
                remove_id(s0, client)
                    == kept.deep_view() + remove_id(s0.skip(i as int), client),
            decreases n - i,
        {
            let e = &self.named_clients[i];
            let ghost pre = kept.deep_view();
            proof {
                let sk = s0.skip(i as int);
                assert(sk.first() == s0[i as int]);
                assert(sk.drop_first() =~= s0.skip(i as int + 1));
                assert(s0[i as int] == (self.named_clients@[i as int].0,
                    self.named_clients@[i as int].1@));
            }
            if e.0 != client {
                kept.push((e.0, e.1.clone()));
                proof {
                    assert(kept.deep_view() =~= pre.push((e.0, e.1@)));
                    assert(remove_id(s0.skip(i as int), client)
                        =~= seq![s0[i as int]] + remove_id(s0.skip(i as int + 1), client));
                    assert(pre + (seq![s0[i as int]]
                            + remove_id(s0.skip(i as int + 1), client))
                        =~= kept.deep_view() + remove_id(s0.skip(i as int + 1), client));
                }
            }
            i = i + 1;
        }
        proof {
            assert(s0.skip(n as int) =~= RosterV::empty());
            assert(remove_id(s0.skip(n as int), client) =~= RosterV::empty());
            assert(kept.deep_view() + remove_id(s0.skip(n as int), client)
                =~= kept.deep_view());
        }
        self.named_clients = kept;
        proof {
            lemma_remove_id_wf(s0, client);
        }
        let list = self.roster_vec();
        let mut out: Vec<Command> = Vec::new();
        out.push(Command::Broadcast(Packet::ClientList(list)));
        out
    }
}

} // verus!
