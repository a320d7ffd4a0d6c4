//! The delta cache: a FIFO of single-endpoint updates, together with the set
//! of currently live addresses, kept in insertion order. Set-oriented
//! operations from the subscription are flattened into one queued update per
//! endpoint, and a no-endpoints signal is expanded into a checkpoint followed
//! by one explicit removal per live address.

use crate::indexed::{
    addr_set_drain, addr_set_elems, addr_set_insert, addr_set_new, addr_set_shift_remove,
    addr_set_to_vec,
};
use crate::net::SockAddr;
use std::collections::VecDeque;
use vstd::prelude::*;

verus! {

/// One keyed update addressed to a single endpoint, or the signal that no
/// endpoints exist at all.
#[derive(Clone, Debug)]
pub enum Update<T> {
    Add(SockAddr, T),
    Remove(SockAddr),
    NoEndpoints,
}

/// How one update changes the set of live addresses: an Add inserts its
/// address at the back unless it is already present, a Remove deletes it, and
/// NoEndpoints resets the set.
pub open spec fn live_step<T>(prev: Seq<SockAddr>, u: Update<T>) -> Seq<SockAddr> {
    match u {
        Update::Add(a, _) => if prev.contains(a) {
            prev
        } else {
            prev.push(a)
        },
        Update::Remove(a) => prev.remove_value(a),
        Update::NoEndpoints => Seq::empty(),
    }
}

/// The set of live addresses after a sequence of updates, starting from none,
/// in insertion order.
pub open spec fn live_set<T>(s: Seq<Update<T>>) -> Seq<SockAddr>
    decreases s.len(),
{
    if s.len() == 0 {
        Seq::empty()
    } else {
        live_step(live_set(s.drop_last()), s.last())
    }
}

pub proof fn lemma_live_set_push<T>(s: Seq<Update<T>>, u: Update<T>)
    ensures
        live_set(s.push(u)) == live_step(live_set(s), u),
{
    assert(s.push(u).drop_last() =~= s);
}

/// Buffers updates for the consumer and tracks the live address set so that a
/// no-endpoints signal can be expanded into explicit removals.
pub struct Cache<T> {
    /// Updates not yet handed to the consumer, in the order they were
    /// produced.
    pub queue: VecDeque<Update<T>>,
    /// Every address an Add has been produced for and no Remove since, in
    /// insertion order.
    pub addrs: indexmap::IndexSet<SockAddr>,
    /// The updates the consumer has observed so far.
    pub history: Ghost<Seq<Update<T>>>,
}

impl<T> Cache<T> {
    /// The live address set always equals the net effect of every update
    /// produced so far: those already observed followed by those still queued.
    pub open spec fn wf(self) -> bool {
        addr_set_elems(self.addrs) == live_set(self.history@ + self.queue@)
    }

    pub fn new() -> (c: Cache<T>)
        ensures
            c.wf(),
            c.queue@ == Seq::<Update<T>>::empty(),
            c.history@ == Seq::<Update<T>>::empty(),
            addr_set_elems(c.addrs) == Seq::<SockAddr>::empty(),
    {
        let c = Cache { queue: VecDeque::new(), addrs: addr_set_new(), history: Ghost(Seq::empty()) };
        proof {
            assert(c.history@ + c.queue@ =~= Seq::<Update<T>>::empty());
        }
        c
    }

    /// Appends one Add update per pair and inserts each address into the live
    /// set; inserting an address already live changes nothing.
    pub fn add(&mut self, entries: Vec<(SockAddr, T)>)
        requires
            old(self).wf(),
        ensures
            final(self).wf(),
            final(self).history@ == old(self).history@,
            final(self).queue@ == old(self).queue@ + entries@.map_values(
                (|p: (SockAddr, T)| Update::<T>::Add(p.0, p.1)),
            ),
    {
        let ghost orig = entries@;
        let ghost h = self.history@;
        let ghost q0 = self.queue@;
        let mut entries = entries;
        let total = entries.len();
        proof {
            assert(orig.len() == total as int);
        }
        let mut done: usize = 0;
        while entries.len() > 0
            invariant
                self.wf(),
                self.history@ == h,
                done == orig.len() - entries@.len(),
                0 <= done <= orig.len() <= usize::MAX,
                entries@ == orig.subrange(done as int, orig.len() as int),
                self.queue@ == q0 + orig.subrange(0, done as int).map_values(
                    (|p: (SockAddr, T)| Update::<T>::Add(p.0, p.1)),
                ),
            decreases entries.len(),
        {
            let ghost pre_q = self.queue@;
            let (a, m) = entries.remove(0);
            self.queue.push_back(Update::Add(a, m));
            let _ = addr_set_insert(&mut self.addrs, a);
            proof {
                assert(h + pre_q.push(Update::<T>::Add(a, m)) =~= (h + pre_q).push(
                    Update::<T>::Add(a, m),
                ));
                lemma_live_set_push(h + pre_q, Update::<T>::Add(a, m));
                assert(orig.subrange(0, done + 1).map_values(
                    (|p: (SockAddr, T)| Update::<T>::Add(p.0, p.1)),
                ) =~= orig.subrange(0, done as int).map_values(
                    (|p: (SockAddr, T)| Update::<T>::Add(p.0, p.1)),
                ).push(Update::<T>::Add(a, m)));
                assert(self.queue@ =~= q0 + orig.subrange(0, done + 1).map_values(
                    (|p: (SockAddr, T)| Update::<T>::Add(p.0, p.1)),
                ));
            }
            done = done + 1;
        }
        proof {
            assert(orig.subrange(0, done as int) =~= orig);
        }
    }

    /// Appends one Remove update per address and drops each from the live
    /// set; removing an address that is not live changes nothing there.
    pub fn remove(&mut self, addrs: Vec<SockAddr>)
        requires
            old(self).wf(),
        ensures
            final(self).wf(),
            final(self).history@ == old(self).history@,
            final(self).queue@ == old(self).queue@ + addrs@.map_values(
                (|a: SockAddr| Update::<T>::Remove(a)),
            ),
    {
        let ghost orig = addrs@;
        let ghost h = self.history@;
        let ghost q0 = self.queue@;
        let mut i: usize = 0;
        while i < addrs.len()
            invariant
                self.wf(),
                self.history@ == h,
                0 <= i <= addrs.len(),
                addrs@ == orig,
                self.queue@ == q0 + orig.subrange(0, i as int).map_values(
                    (|a: SockAddr| Update::<T>::Remove(a)),
                ),
            decreases addrs.len() - i,
        {
            let ghost pre_q = self.queue@;
            let a = addrs[i];
            self.queue.push_back(Update::Remove(a));
            let _ = addr_set_shift_remove(&mut self.addrs, &a);
            proof {
                assert(h + pre_q.push(Update::<T>::Remove(a)) =~= (h + pre_q).push(
                    Update::<T>::Remove(a),
                ));
                lemma_live_set_push(h + pre_q, Update::<T>::Remove(a));
                assert(orig.subrange(0, i + 1).map_values((|a: SockAddr| Update::<T>::Remove(a)))
                    =~= orig.subrange(0, i as int).map_values(
                    (|a: SockAddr| Update::<T>::Remove(a)),
                ).push(Update::<T>::Remove(a)));
                assert(self.queue@ =~= q0 + orig.subrange(0, i + 1).map_values(
                    (|a: SockAddr| Update::<T>::Remove(a)),
                ));
            }
            i = i + 1;
        }
        proof {
            assert(orig.subrange(0, i as int) =~= orig);
        }
    }

    /// Clears everything still queued, queues a single NoEndpoints checkpoint,
    /// then queues one Remove per live address, in insertion order, and drains
    /// the live set.
    pub fn no_endpoints(&mut self)
        requires
            old(self).wf(),
        ensures
            final(self).wf(),
            final(self).history@ == old(self).history@,
            final(self).queue@ == seq![Update::<T>::NoEndpoints] + addr_set_elems(
                old(self).addrs,
            ).map_values((|a: SockAddr| Update::<T>::Remove(a))),
            addr_set_elems(final(self).addrs) == Seq::<SockAddr>::empty(),
    {
        let ghost h = self.history@;
        self.queue.clear();
        self.queue.push_back(Update::NoEndpoints);
        proof {
            assert(h + seq![Update::<T>::NoEndpoints] =~= (h
                + Seq::<Update<T>>::empty()).push(Update::<T>::NoEndpoints));
            lemma_live_set_push(h + Seq::<Update<T>>::empty(), Update::<T>::NoEndpoints);
            assert(Seq::<Update<T>>::empty().push(Update::<T>::NoEndpoints)
                =~= seq![Update::<T>::NoEndpoints]);
            assert(self.queue@ =~= seq![Update::<T>::NoEndpoints]);
        }
        let drained = addr_set_drain(&mut self.addrs);
        let mut i: usize = 0;
        while i < drained.len()
            invariant
                0 <= i <= drained.len(),
                addr_set_elems(self.addrs) == Seq::<SockAddr>::empty(),
                self.history@ == h,
                self.queue@ == seq![Update::<T>::NoEndpoints] + drained@.subrange(
                    0,
                    i as int,
                ).map_values((|a: SockAddr| Update::<T>::Remove(a))),
                live_set(h + self.queue@) == Seq::<SockAddr>::empty(),
            decreases drained.len() - i,
        {
            let ghost pre_q = self.queue@;
            let a = drained[i];
            self.queue.push_back(Update::Remove(a));
            proof {
                assert(h + pre_q.push(Update::<T>::Remove(a)) =~= (h + pre_q).push(
                    Update::<T>::Remove(a),
                ));
                lemma_live_set_push(h + pre_q, Update::<T>::Remove(a));
                Seq::<SockAddr>::empty().index_of_first_ensures(a);
                assert(Seq::<SockAddr>::empty().remove_value(a) =~= Seq::<SockAddr>::empty());
                assert(drained@.subrange(0, i + 1).map_values(
                    (|a: SockAddr| Update::<T>::Remove(a)),
                ) =~= drained@.subrange(0, i as int).map_values(
                    (|a: SockAddr| Update::<T>::Remove(a)),
                ).push(Update::<T>::Remove(a)));
                assert(self.queue@ =~= seq![Update::<T>::NoEndpoints] + drained@.subrange(
                    0,
                    i + 1,
                ).map_values((|a: SockAddr| Update::<T>::Remove(a))));
            }
            i = i + 1;
        }
        proof {
            assert(drained@.subrange(0, i as int) =~= drained@);
        }
    }

    /// Hands the consumer the oldest queued update, in exactly the order the
    /// updates were appended.
    pub fn next_update(&mut self) -> (r: Option<Update<T>>)
        requires
            old(self).wf(),
        ensures
            final(self).wf(),
            match r {
                Some(u) => old(self).queue@.len() > 0 && u == old(self).queue@[0]
                    && final(self).queue@ == old(self).queue@.drop_first()
                    && final(self).history@ == old(self).history@.push(u),
                None => old(self).queue@.len() == 0 && final(self).queue@ == old(self).queue@
                    && final(self).history@ == old(self).history@,
            },
            addr_set_elems(final(self).addrs) == addr_set_elems(old(self).addrs),
    {
        let ghost h = self.history@;
        let ghost q = self.queue@;
        let r = self.queue.pop_front();
        match r {
            Some(u) => {
                self.history = Ghost(h.push(u));
                proof {
                    assert(h.push(u) + q.subrange(1, q.len() as int) =~= h + q);
                }
                Some(u)
            },
            None => None,
        }
    }
}

impl<T> Cache<T> {
    /// The currently live addresses, in insertion order.
    pub fn live_snapshot(&self) -> (r: Vec<SockAddr>)
        ensures
            r@ == addr_set_elems(self.addrs),
    {
        addr_set_to_vec(&self.addrs)
    }
}

impl<T> Default for Cache<T> {
    /// An empty cache: nothing queued, nothing live, nothing observed.
    fn default() -> (c: Cache<T>)
        ensures
            c.wf(),
            c.queue@ == Seq::<Update<T>>::empty(),
            c.history@ == Seq::<Update<T>>::empty(),
            addr_set_elems(c.addrs) == Seq::<SockAddr>::empty(),
    {
        Cache::new()
    }
}

/// Law: once the queue is drained, the live-address set equals the net effect
/// of the observed updates alone: the addresses whose Add was observed and
/// whose Remove was not observed since, with a NoEndpoints checkpoint
/// resetting the set.
pub proof fn lemma_cache_flatness<T>(c: Cache<T>)
    requires
        c.wf(),
        c.queue@.len() == 0,
    ensures
        addr_set_elems(c.addrs) == live_set(c.history@),
{
    assert(c.history@ + c.queue@ =~= c.history@);
}

/// Law: after a no-endpoints signal, the consumer observes the NoEndpoints
/// checkpoint first, then exactly one Remove per address that was live at the
/// time of the signal, in insertion order, and nothing queued from before.
pub proof fn lemma_no_endpoints_checkpoint<T>(live: Seq<SockAddr>, q: Seq<Update<T>>)
    requires
        q == seq![Update::<T>::NoEndpoints] + live.map_values(
            (|a: SockAddr| Update::<T>::Remove(a)),
        ),
    ensures
        q.len() == 1 + live.len(),
        q[0] == Update::<T>::NoEndpoints,
        forall|i: int| 0 <= i < live.len() ==> q[1 + i] == Update::<T>::Remove(live[i]),
{
}

} // verus!
