//! A bounded FIFO mailbox, the unit of the subscription model: a
//! publisher appends packets, a subscriber drains them in order.
//!
//! The publisher never blocks: when the mailbox is full the push is
//! refused and the mailbox is marked failed, so a slow subscriber is
//! dropped rather than stalling a reader. What a subscriber has
//! observed, followed by what still waits, is always exactly what was
//! published, in publication order.

use vstd::prelude::*;

use crate::packets::{Packet, PacketV};

verus! {

/// A bounded first-in-first-out mailbox of packets.
pub struct Mailbox {
    items: Vec<Packet>,
    capacity: usize,
    alive: bool,
    published: Ghost<Seq<PacketV>>,
    observed: Ghost<Seq<PacketV>>,
}

impl Mailbox {
    /// Everything ever pushed, in order.
    pub closed spec fn published(self) -> Seq<PacketV> {
        self.published@
    }

    /// Everything ever popped, in order.
    pub closed spec fn observed(self) -> Seq<PacketV> {
        self.observed@
    }

    /// What waits in the mailbox, oldest first.
    pub closed spec fn queued(self) -> Seq<PacketV> {
        self.items.deep_view()
    }

    /// The bound the mailbox was made with.
    pub closed spec fn spec_capacity(self) -> usize {
        self.capacity
    }

    /// The mailbox still accepts packets.
    pub closed spec fn spec_alive(self) -> bool {
        self.alive
    }

    /// The history is consistent: observed plus queued is published,
    /// and the queue respects the bound.
    pub open spec fn well_formed(self) -> bool {
        &&& self.published() == self.observed() + self.queued()
        &&& self.queued().len() <= self.spec_capacity()
    }

    /// An empty mailbox holding at most `capacity` packets.
    pub fn new(capacity: usize) -> (r: Mailbox)
        ensures
            r.well_formed(),
            r.spec_capacity() == capacity,
            r.spec_alive(),
            r.published() == Seq::<PacketV>::empty(),
            r.observed() == Seq::<PacketV>::empty(),
            r.queued() == Seq::<PacketV>::empty(),
    {
        let r = Mailbox {
            items: Vec::new(),
            capacity,
            alive: true,
            published: Ghost(Seq::empty()),
            observed: Ghost(Seq::empty()),
        };
        proof {
            assert(r.queued() =~= Seq::<PacketV>::empty());
            assert(r.published() =~= r.observed() + r.queued());
        }
        r
    }

    /// Append a packet. Returns false without blocking when the
    /// mailbox is full or has already failed; a full mailbox fails, so
    /// the subscriber loses packets only at the tail.
    pub fn push(&mut self, p: Packet) -> (r: bool)
        requires
            old(self).well_formed(),
        ensures
            final(self).well_formed(),
            final(self).spec_capacity() == old(self).spec_capacity(),
            final(self).observed() == old(self).observed(),
            r == (old(self).spec_alive() && old(self).queued().len()
                < old(self).spec_capacity()),
            r ==> final(self).spec_alive()
                && final(self).published() == old(self).published().push(p@)
                && final(self).queued() == old(self).queued().push(p@),
            !r ==> !final(self).spec_alive()
                && final(self).published() == old(self).published()
                && final(self).queued() == old(self).queued(),
    {
        if !self.alive || self.items.len() >= self.capacity {
            self.alive = false;
            return false;
        }
        let ghost pre = self.items.deep_view();
        self.items.push(p);
        proof {
            self.published = Ghost(self.published@.push(p@));
            assert(self.items.deep_view() =~= pre.push(p@));
            assert(self.published() =~= self.observed() + self.queued());
        }
        true
    }

    /// Take the oldest waiting packet, if any.
    pub fn pop(&mut self) -> (r: Option<Packet>)
        requires
            old(self).well_formed(),
        ensures
            final(self).well_formed(),
            final(self).spec_capacity() == old(self).spec_capacity(),
            final(self).spec_alive() == old(self).spec_alive(),
            final(self).published() == old(self).published(),
            r is Some <==> old(self).queued().len() > 0,
            r is Some ==> r.unwrap()@ == old(self).queued().first()
                && final(self).queued() == old(self).queued().drop_first()
                && final(self).observed()
                    == old(self).observed().push(old(self).queued().first()),
            r is None ==> final(self).queued() == old(self).queued()
                && final(self).observed() == old(self).observed(),
    {
        if self.items.len() == 0 {
            proof {
                assert(self.queued().len() == 0);
            }
            return None;
        }
        let ghost pre = self.items.deep_view();
        let p = self.items.remove(0);
        proof {
            self.observed = Ghost(self.observed@.push(p@));
            assert(p@ == pre.first());
            assert(self.items.deep_view() =~= pre.drop_first());
            assert(self.published() =~= self.observed() + self.queued());
        }
        Some(p)
    }

    /// Law: the packets a subscriber has observed are a prefix of the
    /// packets published, in publication order; what still waits
    /// follows them exactly. Losses happen only at the tail, by the
    /// mailbox failing on overflow.
    pub proof fn lemma_fifo(&self)
        requires
            self.well_formed(),
        ensures
            self.published() == self.observed() + self.queued(),
            self.published().take(self.observed().len() as int) == self.observed(),
    {
        assert(self.published().take(self.observed().len() as int) =~= self.observed());
    }
}

} // verus!
