//! The discover adapter: endpoint updates plus asynchronously built child
//! services become a keyed change stream for a balancer. Each Add spawns a
//! build keyed by its address and registers a cancellation handle for it; a
//! Remove signals that handle and emits a removal at once; a build that
//! completes un-cancelled emits an insertion; a cancelled build is silent. A
//! shared is-empty flag tracks whether the last authoritative signal was
//! "no endpoints".

use crate::cache::Update;
use crate::indexed::{
    cancel_map_entries, cancel_map_insert, cancel_map_new, cancel_map_shift_remove, has_key,
};
use crate::net::SockAddr;
use std::sync::atomic::{AtomicBool, Ordering};
use std::sync::Arc;
use vstd::prelude::*;

verus! {

/// A keyed change handed to the balancer.
#[derive(Clone, Debug)]
pub enum Change<K, S> {
    Insert(K, S),
    Remove(K),
}

/// The two states of a poll that cannot fail.
#[derive(Clone, Copy, Debug, PartialEq, Eq, Structural)]
pub enum Async<T> {
    Ready(T),
    NotReady,
}

/// Resolves targets into resolution streams. Implemented by users of the
/// library.
pub trait Resolve<T> {
    type Endpoint;

    type Resolution;

    fn resolve(&self, target: &T) -> Self::Resolution;
}

/// An infinite stream of endpoint updates. Implemented by users of the
/// library.
pub trait Resolution {
    type Endpoint;

    type Error;

    fn poll(&mut self) -> Result<Async<Update<Self::Endpoint>>, Self::Error>;
}

/// Hands out a shared view onto the is-empty flag.
pub trait HasEndpointStatus {
    fn endpoint_status(&self) -> EndpointStatus;
}

/// Relies on <Arc<AtomicBool> as Deref>::deref: lends out the shared flag.
#[verifier::external_body]
fn flag_ref(f: &Arc<AtomicBool>) -> &AtomicBool {
    &**f
}

/// Relies on <Arc<AtomicBool> as Clone>::clone: the new handle shares the
/// same flag.
#[verifier::external_body]
fn clone_flag(f: &Arc<AtomicBool>) -> (r: Arc<AtomicBool>) {
    f.clone()
}

/// A cloneable view onto the shared is-empty flag of one discover adapter.
#[derive(Debug)]
pub struct EndpointStatus {
    flag: Arc<AtomicBool>,
}

impl EndpointStatus {
    /// Whether the last authoritative signal from the subscription was "no
    /// endpoints". The flag is shared: another context may store to it at any
    /// time, so nothing can be promised of the value read.
    pub fn is_empty(&self) -> bool {
        flag_ref(&self.flag).load(Ordering::Acquire)
    }
}

impl Clone for EndpointStatus {
    /// The clone shares the same flag.
    fn clone(&self) -> EndpointStatus {
        EndpointStatus { flag: clone_flag(&self.flag) }
    }
}

/// One in-flight child-service build: its token, the address it is keyed by,
/// and whether its cancellation handle has been signalled.
#[derive(Clone, Copy, Debug, PartialEq, Eq, Structural)]
pub struct BuildSlot {
    pub id: u64,
    pub addr: SockAddr,
    pub canceled: bool,
}

/// The slot with its cancellation signalled.
pub open spec fn slot_canceled(s: BuildSlot) -> BuildSlot {
    BuildSlot { id: s.id, addr: s.addr, canceled: true }
}

/// Every build whose token matches is marked cancelled.
pub open spec fn mark_canceled(builds: Seq<BuildSlot>, tok: u64) -> Seq<BuildSlot> {
    builds.map_values(
        |s: BuildSlot|
            if s.id == tok {
                slot_canceled(s)
            } else {
                s
            },
    )
}

/// No two in-flight builds share a token.
pub open spec fn ids_unique(builds: Seq<BuildSlot>) -> bool {
    forall|i: int, j: int|
        0 <= i < j < builds.len() ==> #[trigger] builds[i].id != #[trigger] builds[j].id
}

/// No two cancellation entries share an address.
pub open spec fn keys_unique(entries: Seq<(SockAddr, u64)>) -> bool {
    forall|i: int, j: int|
        0 <= i < j < entries.len() ==> (#[trigger] entries[i]).0 != (#[trigger] entries[j]).0
}

proof fn lemma_remove_keeps_unique_ids(s: Seq<BuildSlot>, i: int)
    requires
        ids_unique(s),
        0 <= i < s.len(),
    ensures
        ids_unique(s.remove(i)),
{
    s.remove_ensures(i);
    let r = s.remove(i);
    assert forall|a: int, b: int| 0 <= a < b < r.len() implies (#[trigger] r[a]).id != (
    #[trigger] r[b]).id by {
        let a0 = if a < i {
            a
        } else {
            a + 1
        };
        let b0 = if b < i {
            b
        } else {
            b + 1
        };
        assert(r[a] == s[a0] && r[b] == s[b0]);
        assert(s[a0].id != s[b0].id);
    }
}

proof fn lemma_remove_keeps_unique_keys(s: Seq<(SockAddr, u64)>, i: int)
    requires
        keys_unique(s),
        0 <= i < s.len(),
    ensures
        keys_unique(s.remove(i)),
{
    s.remove_ensures(i);
    let r = s.remove(i);
    assert forall|a: int, b: int| 0 <= a < b < r.len() implies (#[trigger] r[a]).0 != (
    #[trigger] r[b]).0 by {
        let a0 = if a < i {
            a
        } else {
            a + 1
        };
        let b0 = if b < i {
            b
        } else {
            b + 1
        };
        assert(r[a] == s[a0] && r[b] == s[b0]);
        assert(s[a0].0 != s[b0].0);
    }
}

/// How spawning a build for an address changes the bookkeeping: the build is
/// appended un-cancelled under a fresh token, and the address's cancellation
/// handle is registered — appended when the address had none, replaced in
/// place when it had one.
pub open spec fn spawn_step(pre: MakeStream, post: MakeStream, addr: SockAddr, id: u64) -> bool {
    &&& id == pre.next_id
    &&& post.next_id == pre.next_id + 1
    &&& post.builds@ == pre.builds@.push(BuildSlot { id, addr, canceled: false })
    &&& (!has_key(cancel_map_entries(pre.cancellations), addr) ==> cancel_map_entries(
        post.cancellations,
    ) == cancel_map_entries(pre.cancellations).push((addr, id)))
    &&& (has_key(cancel_map_entries(pre.cancellations), addr) ==> exists|j: int|
        0 <= j < cancel_map_entries(pre.cancellations).len() && (#[trigger] cancel_map_entries(
            pre.cancellations,
        )[j]).0 == addr && cancel_map_entries(post.cancellations) == cancel_map_entries(
            pre.cancellations,
        ).update(j, (addr, id)))
}

/// How removing an address changes the bookkeeping: when a handle was
/// registered (`signalled`), the handle's entry is dropped and the build it
/// points at is marked cancelled; otherwise nothing changes.
pub open spec fn cancel_step(pre: MakeStream, post: MakeStream, addr: SockAddr, signalled: bool) -> bool {
    &&& post.next_id == pre.next_id
    &&& (!signalled ==> post.builds@ == pre.builds@ && cancel_map_entries(post.cancellations)
        == cancel_map_entries(pre.cancellations))
    &&& (signalled ==> exists|j: int|
        0 <= j < cancel_map_entries(pre.cancellations).len() && (#[trigger] cancel_map_entries(
            pre.cancellations,
        )[j]).0 == addr && cancel_map_entries(post.cancellations) == cancel_map_entries(
            pre.cancellations,
        ).remove(j) && post.builds@ == mark_canceled(
            pre.builds@,
            cancel_map_entries(pre.cancellations)[j].1,
        ))
}

/// How settling the build with the given token changes the bookkeeping: an
/// unknown token changes nothing and is silent; a known build leaves the
/// in-flight set; a cancelled one is silent, a failed one fails, a successful
/// one unregisters the address's cancellation handle and emits its address.
pub open spec fn settle_step(
    pre: MakeStream,
    post: MakeStream,
    id: u64,
    failed: bool,
    r: BuildOutcome,
) -> bool {
    &&& ((forall|i: int| 0 <= i < pre.builds@.len() ==> (#[trigger] pre.builds@[i]).id != id) ==> r
        == BuildOutcome::Silent && post.builds@ == pre.builds@ && cancel_map_entries(
        post.cancellations,
    ) == cancel_map_entries(pre.cancellations))
    &&& (forall|i: int|
        0 <= i < pre.builds@.len() && (#[trigger] pre.builds@[i]).id == id ==> {
            let slot = pre.builds@[i];
            &&& post.builds@ == pre.builds@.remove(i)
            &&& (slot.canceled ==> r == BuildOutcome::Silent && cancel_map_entries(
                post.cancellations,
            ) == cancel_map_entries(pre.cancellations))
            &&& (!slot.canceled && failed ==> r == BuildOutcome::Fail && cancel_map_entries(
                post.cancellations,
            ) == cancel_map_entries(pre.cancellations))
            &&& (!slot.canceled && !failed ==> r == BuildOutcome::Emit(slot.addr) && (if has_key(
                cancel_map_entries(pre.cancellations),
                slot.addr,
            ) {
                exists|j: int|
                    0 <= j < cancel_map_entries(pre.cancellations).len()
                        && (#[trigger] cancel_map_entries(pre.cancellations)[j]).0 == slot.addr
                        && cancel_map_entries(post.cancellations) == cancel_map_entries(
                        pre.cancellations,
                    ).remove(j)
            } else {
                cancel_map_entries(post.cancellations) == cancel_map_entries(pre.cancellations)
            }))
        })
}

proof fn lemma_drop_slot_keeps_linked(pre: MakeStream, post: MakeStream, i: int)
    requires
        0 <= i < pre.builds@.len(),
        pre.builds@[i].canceled,
        post.builds@ == pre.builds@.remove(i),
        cancel_map_entries(post.cancellations) == cancel_map_entries(pre.cancellations),
    ensures
        pre.linked() ==> post.linked(),
{
    pre.builds@.remove_ensures(i);
    let ob = pre.builds@;
    let nb = post.builds@;
    let m = cancel_map_entries(pre.cancellations);
    if pre.linked() {
        assert forall|k: int| 0 <= k < nb.len() && !(#[trigger] nb[k]).canceled implies m.contains(
            (nb[k].addr, nb[k].id),
        ) by {
            let k0 = if k < i {
                k
            } else {
                k + 1
            };
            assert(nb[k] == ob[k0]);
        }
        assert forall|j: int| 0 <= j < m.len() implies exists|i2: int|
            0 <= i2 < nb.len() && (#[trigger] nb[i2]).id == (#[trigger] m[j]).1 && nb[i2].addr
                == m[j].0 && !nb[i2].canceled by {
            let i2 = choose|i2: int|
                0 <= i2 < ob.len() && (#[trigger] ob[i2]).id == m[j].1 && ob[i2].addr == m[j].0
                    && !ob[i2].canceled;
            assert(i2 != i);
            let i3 = if i2 < i {
                i2
            } else {
                i2 - 1
            };
            assert(nb[i3] == ob[i2]);
            assert(0 <= i3 < nb.len() && nb[i3].id == m[j].1 && nb[i3].addr == m[j].0
                && !nb[i3].canceled);
        }
    }
}

/// The bookkeeping of in-flight builds: the builds in spawn order, and the
/// cancellation handles, at most one per address, keyed by address.
pub struct MakeStream {
    pub builds: Vec<BuildSlot>,
    pub cancellations: indexmap::IndexMap<SockAddr, u64>,
    pub next_id: u64,
}

impl MakeStream {
    /// Tokens are unique and below the next to be handed out, and no address
    /// carries two cancellation handles.
    pub open spec fn wf(self) -> bool {
        &&& ids_unique(self.builds@)
        &&& keys_unique(cancel_map_entries(self.cancellations))
        &&& forall|i: int|
            0 <= i < self.builds@.len() ==> #[trigger] self.builds@[i].id < self.next_id
        &&& forall|j: int|
            0 <= j < cancel_map_entries(self.cancellations).len() ==> (#[trigger] cancel_map_entries(
                self.cancellations,
            )[j]).1 < self.next_id
    }

    /// Every cancellation handle points at an un-cancelled in-flight build for
    /// its address, and every un-cancelled build has its handle registered.
    /// This holds as long as no address is added twice while its first build
    /// is still in flight.
    pub open spec fn linked(self) -> bool {
        &&& forall|i: int|
            0 <= i < self.builds@.len() && !(#[trigger] self.builds@[i]).canceled
                ==> cancel_map_entries(self.cancellations).contains(
                (self.builds@[i].addr, self.builds@[i].id),
            )
        &&& forall|j: int|
            0 <= j < cancel_map_entries(self.cancellations).len() ==> exists|i: int|
                0 <= i < self.builds@.len() && (#[trigger] self.builds@[i]).id
                    == (#[trigger] cancel_map_entries(self.cancellations)[j]).1
                    && self.builds@[i].addr == cancel_map_entries(self.cancellations)[j].0
                    && !self.builds@[i].canceled
    }

    /// No cancellation handle and no un-cancelled in-flight build exists for
    /// the address.
    pub open spec fn no_pending_build(self, a: SockAddr) -> bool {
        &&& !has_key(cancel_map_entries(self.cancellations), a)
        &&& forall|i: int|
            0 <= i < self.builds@.len() && (#[trigger] self.builds@[i]).addr == a
                ==> self.builds@[i].canceled
    }

    pub fn new() -> (s: MakeStream)
        ensures
            s.wf(),
            s.linked(),
            s.builds@ == Seq::<BuildSlot>::empty(),
            cancel_map_entries(s.cancellations) == Seq::<(SockAddr, u64)>::empty(),
            s.next_id == 0,
    {
        MakeStream { builds: Vec::new(), cancellations: cancel_map_new(), next_id: 0 }
    }

    /// Registers a cancellation handle for the address, replacing any old one,
    /// and records a new in-flight build keyed by it. Returns the build's
    /// token.
    pub fn push(&mut self, addr: SockAddr) -> (id: u64)
        requires
            old(self).wf(),
            old(self).next_id < u64::MAX,
        ensures
            final(self).wf(),
            id == old(self).next_id,
            spawn_step(*old(self), *final(self), addr, id),
            old(self).linked() && !has_key(cancel_map_entries(old(self).cancellations), addr)
                ==> final(self).linked(),
            forall|a: SockAddr|
                a != addr && old(self).no_pending_build(a) ==> final(self).no_pending_build(a),
    {
        let id = self.next_id;
        let _ = cancel_map_insert(&mut self.cancellations, addr, id);
        self.builds.push(BuildSlot { id, addr, canceled: false });
        self.next_id = self.next_id + 1;
        proof {
            let ob = old(self).builds@;
            let nb = self.builds@;
            let oldm = cancel_map_entries(old(self).cancellations);
            let newm = cancel_map_entries(self.cancellations);
            if !has_key(oldm, addr) {
                if old(self).linked() {
                    assert forall|m: int|
                        0 <= m < nb.len() && !(#[trigger] nb[m]).canceled implies newm.contains(
                        (nb[m].addr, nb[m].id),
                    ) by {
                        if m < ob.len() {
                            assert(nb[m] == ob[m]);
                            assert(oldm.contains((ob[m].addr, ob[m].id)));
                            let k = choose|k: int|
                                0 <= k < oldm.len() && oldm[k] == (ob[m].addr, ob[m].id);
                            assert(newm[k] == oldm[k]);
                        } else {
                            assert(nb[m] == BuildSlot { id, addr, canceled: false });
                            assert(newm[newm.len() - 1] == (addr, id));
                        }
                    }
                    assert forall|k: int| 0 <= k < newm.len() implies exists|i2: int|
                        0 <= i2 < nb.len() && (#[trigger] nb[i2]).id == (#[trigger] newm[k]).1
                            && nb[i2].addr == newm[k].0 && !nb[i2].canceled by {
                        if k < oldm.len() {
                            assert(newm[k] == oldm[k]);
                            let i2 = choose|i2: int|
                                0 <= i2 < ob.len() && (#[trigger] ob[i2]).id == oldm[k].1
                                    && ob[i2].addr == oldm[k].0 && !ob[i2].canceled;
                            assert(nb[i2] == ob[i2]);
                            assert(0 <= i2 < nb.len() && nb[i2].id == newm[k].1 && nb[i2].addr
                                == newm[k].0 && !nb[i2].canceled);
                        } else {
                            let i2 = nb.len() - 1;
                            assert(nb[i2] == BuildSlot { id, addr, canceled: false });
                            assert(newm[k] == (addr, id));
                            assert(0 <= i2 < nb.len() && nb[i2].id == newm[k].1 && nb[i2].addr
                                == newm[k].0 && !nb[i2].canceled);
                        }
                    }
                    assert(self.linked());
                }
            }
            assert forall|a: SockAddr|
                a != addr && old(self).no_pending_build(a) implies self.no_pending_build(a) by {
                assert forall|k: int| 0 <= k < newm.len() implies (#[trigger] newm[k]).0 != a by {
                    if !has_key(oldm, a) {
                        if has_key(oldm, addr) {
                            let j = choose|j: int|
                                0 <= j < oldm.len() && (#[trigger] oldm[j]).0 == addr && newm
                                    == oldm.update(j, (addr, id));
                            assert(newm[k] == (if k == j {
                                (addr, id)
                            } else {
                                oldm[k]
                            }));
                        } else {
                            if k < oldm.len() {
                                assert(newm[k] == oldm[k]);
                            } else {
                                assert(newm[k] == (addr, id));
                            }
                        }
                    }
                }
                assert forall|m: int|
                    0 <= m < nb.len() && (#[trigger] nb[m]).addr == a implies nb[m].canceled by {
                    if m < ob.len() {
                        assert(nb[m] == ob[m]);
                    } else {
                        assert(nb[m] == BuildSlot { id, addr, canceled: false });
                    }
                }
            }
        }
        id
    }

    /// Signals the cancellation handle registered for the address, if one is:
    /// the handle is dropped and the build it points at is marked cancelled.
    /// Returns whether a handle was signalled.
    pub fn remove(&mut self, addr: &SockAddr) -> (r: bool)
        requires
            old(self).wf(),
        ensures
            final(self).wf(),
            r == has_key(cancel_map_entries(old(self).cancellations), *addr),
            cancel_step(*old(self), *final(self), *addr, r),
            old(self).linked() && r ==> final(self).no_pending_build(*addr),
            old(self).linked() ==> final(self).linked(),
            forall|a: SockAddr|
                old(self).no_pending_build(a) ==> final(self).no_pending_build(a),
    {
        let tok = cancel_map_shift_remove(&mut self.cancellations, addr);
        match tok {
            None => false,
            Some(t) => {
                let n = self.builds.len();
                let mut i: usize = 0;
                let ghost pre = self.builds@;
                let ghost entries_now = cancel_map_entries(self.cancellations);
                let ghost id_now = self.next_id;
                while i < n
                    invariant
                        0 <= i <= n,
                        n == self.builds@.len() == pre.len(),
                        cancel_map_entries(self.cancellations) == entries_now,
                        self.next_id == id_now,
                        forall|k: int| 0 <= k < i ==> self.builds@[k] == mark_canceled(pre, t)[k],
                        forall|k: int| i <= k < n ==> self.builds@[k] == pre[k],
                    decreases n - i,
                {
                    if self.builds[i].id == t {
                        self.builds[i].canceled = true;
                    }
                    i = i + 1;
                }
                proof {
                    assert(self.builds@ =~= mark_canceled(pre, t));
                    let oldm = cancel_map_entries(old(self).cancellations);
                    let newm = cancel_map_entries(self.cancellations);
                    let j = choose|j: int|
                        0 <= j < oldm.len() && (#[trigger] oldm[j]).0 == *addr && Some(oldm[j].1)
                            == Some(t) && newm == oldm.remove(j);
                    oldm.remove_ensures(j);
                    assert forall|k: int| 0 <= k < newm.len() implies (#[trigger] newm[k]).0
                        != *addr by {
                        let k0 = if k < j {
                            k
                        } else {
                            k + 1
                        };
                        assert(newm[k] == oldm[k0]);
                        if oldm[k0].0 == *addr {
                            if k0 < j {
                                assert(oldm[k0].0 != oldm[j].0);
                            } else {
                                assert(oldm[j].0 != oldm[k0].0);
                            }
                        }
                    }
                    assert(!has_key(newm, *addr));
                    if old(self).linked() {
                        assert forall|m: int|
                            0 <= m < self.builds@.len() && (#[trigger] self.builds@[m]).addr
                                == *addr implies self.builds@[m].canceled by {
                            assert(self.builds@[m] == mark_canceled(pre, t)[m]);
                            if !pre[m].canceled && pre[m].id != t {
                                assert(oldm.contains((pre[m].addr, pre[m].id)));
                                let k = choose|k: int|
                                    0 <= k < oldm.len() && oldm[k] == (pre[m].addr, pre[m].id);
                                if k < j {
                                    assert(oldm[k].0 != oldm[j].0);
                                } else if k > j {
                                    assert(oldm[j].0 != oldm[k].0);
                                }
                                assert(k == j);
                                assert(false);
                            }
                        }
                        assert(self.no_pending_build(*addr));
                        assert forall|m: int|
                            0 <= m < self.builds@.len() && !(#[trigger] self.builds@[m]).canceled implies newm.contains(
                            (self.builds@[m].addr, self.builds@[m].id),
                        ) by {
                            assert(self.builds@[m] == mark_canceled(pre, t)[m]);
                            assert(!pre[m].canceled && pre[m].id != t);
                            assert(oldm.contains((pre[m].addr, pre[m].id)));
                            let k = choose|k: int|
                                0 <= k < oldm.len() && oldm[k] == (pre[m].addr, pre[m].id);
                            assert(k != j);
                            let k1 = if k < j {
                                k
                            } else {
                                k - 1
                            };
                            assert(newm[k1] == oldm[k]);
                        }
                        assert forall|k: int| 0 <= k < newm.len() implies exists|i2: int|
                            0 <= i2 < self.builds@.len() && (#[trigger] self.builds@[i2]).id == (
                            #[trigger] newm[k]).1 && self.builds@[i2].addr == newm[k].0 && !self.builds@[i2].canceled by {
                            let k0 = if k < j {
                                k
                            } else {
                                k + 1
                            };
                            assert(newm[k] == oldm[k0]);
                            assert(k0 != j);
                            let i2 = choose|i2: int|
                                0 <= i2 < pre.len() && (#[trigger] pre[i2]).id == oldm[k0].1
                                    && pre[i2].addr == oldm[k0].0 && !pre[i2].canceled;
                            if pre[i2].id == t {
                                let i3 = choose|i3: int|
                                    0 <= i3 < pre.len() && (#[trigger] pre[i3]).id == oldm[j].1
                                        && pre[i3].addr == oldm[j].0 && !pre[i3].canceled;
                                if i2 < i3 {
                                    assert(pre[i2].id != pre[i3].id);
                                } else if i3 < i2 {
                                    assert(pre[i3].id != pre[i2].id);
                                }
                                assert(i2 == i3);
                                assert(oldm[k0].0 == *addr);
                                if k0 < j {
                                    assert(oldm[k0].0 != oldm[j].0);
                                } else {
                                    assert(oldm[j].0 != oldm[k0].0);
                                }
                                assert(false);
                            }
                            assert(self.builds@[i2] == mark_canceled(pre, t)[i2]);
                            assert(self.builds@[i2] == pre[i2]);
                        }
                        assert(self.linked());
                    }
                    assert forall|a: SockAddr| old(self).no_pending_build(a) implies self.no_pending_build(
                        a,
                    ) by {
                        assert forall|k: int| 0 <= k < newm.len() implies (#[trigger] newm[k]).0
                            != a by {
                            let k0 = if k < j {
                                k
                            } else {
                                k + 1
                            };
                            assert(newm[k] == oldm[k0]);
                        }
                        assert(!has_key(newm, a));
                        assert forall|m: int|
                            0 <= m < self.builds@.len() && (#[trigger] self.builds@[m]).addr
                                == a implies self.builds@[m].canceled by {
                            assert(self.builds@[m] == mark_canceled(pre, t)[m]);
                            assert(pre[m].addr == a ==> pre[m].canceled);
                        }
                    }
                }
                true
            },
        }
    }

    /// Settles the in-flight build with the given token, whose underlying
    /// future has finished: a cancelled build is silent; a failed one fails
    /// the stream; a successful one unregisters its cancellation handle and
    /// emits its address. A token with no build is silent and changes nothing.
    pub fn complete(&mut self, id: u64, failed: bool) -> (r: BuildOutcome)
        requires
            old(self).wf(),
        ensures
            final(self).wf(),
            final(self).next_id == old(self).next_id,
            settle_step(*old(self), *final(self), id, failed, r),
            old(self).linked() && r != BuildOutcome::Fail ==> final(self).linked(),
            forall|a: SockAddr|
                old(self).no_pending_build(a) ==> final(self).no_pending_build(a) && r
                    != BuildOutcome::Emit(a),
    {
        let n = self.builds.len();
        let mut i: usize = 0;
        while i < n
            invariant
                0 <= i <= n,
                n == self.builds@.len(),
                *self == *old(self),
                old(self).wf(),
                forall|k: int| 0 <= k < i ==> (#[trigger] self.builds@[k]).id != id,
            decreases n - i,
        {
            if self.builds[i].id == id {
                let slot = self.builds.remove(i);
                proof {
                    lemma_remove_keeps_unique_ids(old(self).builds@, i as int);
                    old(self).builds@.remove_ensures(i as int);
                    assert forall|m: int| 0 <= m < self.builds@.len() implies (
                    #[trigger] self.builds@[m]).id < self.next_id by {
                        let m0 = if m < i {
                            m
                        } else {
                            m + 1
                        };
                        assert(self.builds@[m] == old(self).builds@[m0]);
                    }
                    assert forall|a: SockAddr|
                        old(self).no_pending_build(a) implies forall|m: int|
                            0 <= m < self.builds@.len() && (#[trigger] self.builds@[m]).addr == a
                                ==> self.builds@[m].canceled by {
                        assert forall|m: int|
                            0 <= m < self.builds@.len() && (#[trigger] self.builds@[m]).addr
                                == a implies self.builds@[m].canceled by {
                            let m0 = if m < i {
                                m
                            } else {
                                m + 1
                            };
                            assert(self.builds@[m] == old(self).builds@[m0]);
                        }
                    }
                }
                if slot.canceled {
                    proof {
                        lemma_drop_slot_keeps_linked(*old(self), *self, i as int);
                    }
                    return BuildOutcome::Silent;
                }
                if failed {
                    return BuildOutcome::Fail;
                }
                let ghost pre_entries = cancel_map_entries(self.cancellations);
                let removed = cancel_map_shift_remove(&mut self.cancellations, &slot.addr);
                proof {
                    let ob = old(self).builds@;
                    let nb = self.builds@;
                    let newm = cancel_map_entries(self.cancellations);
                    if has_key(pre_entries, slot.addr) {
                        let j = choose|j: int|
                            0 <= j < pre_entries.len() && (#[trigger] pre_entries[j]).0 == slot.addr
                                && removed == Some(pre_entries[j].1) && newm == pre_entries.remove(
                                j,
                            );
                        lemma_remove_keeps_unique_keys(pre_entries, j);
                        pre_entries.remove_ensures(j);
                        if old(self).linked() {
                            assert forall|m: int|
                                0 <= m < nb.len() && !(#[trigger] nb[m]).canceled implies newm.contains(
                                (nb[m].addr, nb[m].id),
                            ) by {
                                let m0 = if m < i {
                                    m
                                } else {
                                    m + 1
                                };
                                assert(nb[m] == ob[m0]);
                                assert(pre_entries.contains((ob[m0].addr, ob[m0].id)));
                                let k = choose|k: int|
                                    0 <= k < pre_entries.len() && pre_entries[k] == (
                                    ob[m0].addr,
                                    ob[m0].id,
                                    );
                                if k == j {
                                    let i3 = choose|i3: int|
                                        0 <= i3 < ob.len() && (#[trigger] ob[i3]).id
                                            == pre_entries[j].1 && ob[i3].addr == pre_entries[j].0
                                            && !ob[i3].canceled;
                                    if i3 < i {
                                        assert(ob[i3].id != ob[i as int].id);
                                    } else if i < i3 {
                                        assert(ob[i as int].id != ob[i3].id);
                                    }
                                    assert(i3 == i);
                                    if m0 < i {
                                        assert(ob[m0].id != ob[i as int].id);
                                    } else {
                                        assert(ob[i as int].id != ob[m0].id);
                                    }
                                    assert(false);
                                }
                                let k1 = if k < j {
                                    k
                                } else {
                                    k - 1
                                };
                                assert(newm[k1] == pre_entries[k]);
                            }
                            assert forall|k: int| 0 <= k < newm.len() implies exists|i2: int|
                                0 <= i2 < nb.len() && (#[trigger] nb[i2]).id == (
                                #[trigger] newm[k]).1 && nb[i2].addr == newm[k].0
                                && !nb[i2].canceled by {
                                let k0 = if k < j {
                                    k
                                } else {
                                    k + 1
                                };
                                assert(newm[k] == pre_entries[k0]);
                                let i2 = choose|i2: int|
                                    0 <= i2 < ob.len() && (#[trigger] ob[i2]).id
                                        == pre_entries[k0].1 && ob[i2].addr == pre_entries[k0].0
                                        && !ob[i2].canceled;
                                if i2 == i {
                                    assert(pre_entries[k0].0 == slot.addr);
                                    if k0 < j {
                                        assert(pre_entries[k0].0 != pre_entries[j].0);
                                    } else {
                                        assert(pre_entries[j].0 != pre_entries[k0].0);
                                    }
                                    assert(false);
                                }
                                let i3 = if i2 < i {
                                    i2
                                } else {
                                    i2 - 1
                                };
                                assert(nb[i3] == ob[i2]);
                                assert(0 <= i3 < nb.len() && nb[i3].id == newm[k].1 && nb[i3].addr
                                    == newm[k].0 && !nb[i3].canceled);
                            }
                            assert(self.linked());
                        }
                        assert forall|a: SockAddr|
                            old(self).no_pending_build(a) implies !has_key(newm, a) by {
                            assert forall|k: int| 0 <= k < newm.len() implies (#[trigger] newm[k]).0
                                != a by {
                                let k0 = if k < j {
                                    k
                                } else {
                                    k + 1
                                };
                                assert(newm[k] == pre_entries[k0]);
                            }
                        }
                    } else {
                        if old(self).linked() {
                            assert(pre_entries.contains((slot.addr, slot.id)));
                            assert(has_key(pre_entries, slot.addr));
                            assert(false);
                        }
                    }
                    assert forall|a: SockAddr|
                        old(self).no_pending_build(a) implies slot.addr != a by {
                        assert(ob[i as int].addr == a ==> ob[i as int].canceled);
                    }
                }
                return BuildOutcome::Emit(slot.addr);
            }
            i = i + 1;
        }
        BuildOutcome::Silent
    }
}

/// How one finished build settles.
#[derive(Clone, Copy, Debug, PartialEq, Eq, Structural)]
pub enum BuildOutcome {
    /// The build completed: insert its service under this address.
    Emit(SockAddr),
    /// The build was cancelled, or the token is unknown: emit nothing,
    /// surface no error, keep polling.
    Silent,
    /// The build failed: the stream fails.
    Fail,
}

/// One recorded step of the adapter's bookkeeping: a build spawned for an
/// address under a token, an address cancelled (and whether a handle was
/// signalled), or a build settled with its outcome.
pub enum DiscoverStep {
    Spawned(SockAddr, u64),
    Cancelled(SockAddr, bool),
    Settled(u64, bool, BuildOutcome),
}

/// Each consecutive pair of states is related by its recorded step.
pub open spec fn steps_ok(states: Seq<MakeStream>, steps: Seq<DiscoverStep>) -> bool {
    &&& states.len() == steps.len() + 1
    &&& forall|i: int|
        0 <= i < steps.len() ==> match #[trigger] steps[i] {
            DiscoverStep::Spawned(ad, id) => spawn_step(states[i], states[i + 1], ad, id),
            DiscoverStep::Cancelled(ad, sig) => cancel_step(states[i], states[i + 1], ad, sig),
            DiscoverStep::Settled(id, failed, r) => settle_step(
                states[i],
                states[i + 1],
                id,
                failed,
                r,
            ),
        }
}

/// Whether the step spawns a build for the address.
pub open spec fn spawns_for(step: DiscoverStep, a: SockAddr) -> bool {
    step matches DiscoverStep::Spawned(ad, _) && ad == a
}

proof fn lemma_spawn_preserves_no_pending(
    pre: MakeStream,
    post: MakeStream,
    ad: SockAddr,
    id: u64,
    a: SockAddr,
)
    requires
        spawn_step(pre, post, ad, id),
        a != ad,
        pre.no_pending_build(a),
    ensures
        post.no_pending_build(a),
{
    let oldm = cancel_map_entries(pre.cancellations);
    let newm = cancel_map_entries(post.cancellations);
    assert forall|k: int| 0 <= k < newm.len() implies (#[trigger] newm[k]).0 != a by {
        if has_key(oldm, ad) {
            let j = choose|j: int|
                0 <= j < oldm.len() && (#[trigger] oldm[j]).0 == ad && newm == oldm.update(
                    j,
                    (ad, id),
                );
            assert(newm[k] == (if k == j {
                (ad, id)
            } else {
                oldm[k]
            }));
        } else {
            if k < oldm.len() {
                assert(newm[k] == oldm[k]);
            } else {
                assert(newm[k] == (ad, id));
            }
        }
    }
    assert forall|m: int|
        0 <= m < post.builds@.len() && (#[trigger] post.builds@[m]).addr == a implies post.builds@[m].canceled by {
        if m < pre.builds@.len() {
            assert(post.builds@[m] == pre.builds@[m]);
        } else {
            assert(post.builds@[m] == BuildSlot { id, addr: ad, canceled: false });
        }
    }
}

proof fn lemma_cancel_preserves_no_pending(
    pre: MakeStream,
    post: MakeStream,
    ad: SockAddr,
    sig: bool,
    a: SockAddr,
)
    requires
        cancel_step(pre, post, ad, sig),
        pre.no_pending_build(a),
    ensures
        post.no_pending_build(a),
{
    if sig {
        let oldm = cancel_map_entries(pre.cancellations);
        let newm = cancel_map_entries(post.cancellations);
        let j = choose|j: int|
            0 <= j < oldm.len() && (#[trigger] oldm[j]).0 == ad && newm == oldm.remove(j)
                && post.builds@ == mark_canceled(pre.builds@, oldm[j].1);
        oldm.remove_ensures(j);
        assert forall|k: int| 0 <= k < newm.len() implies (#[trigger] newm[k]).0 != a by {
            let k0 = if k < j {
                k
            } else {
                k + 1
            };
            assert(newm[k] == oldm[k0]);
        }
        assert forall|m: int|
            0 <= m < post.builds@.len() && (#[trigger] post.builds@[m]).addr == a implies post.builds@[m].canceled by {
            assert(post.builds@[m] == mark_canceled(pre.builds@, oldm[j].1)[m]);
            assert(pre.builds@[m].addr == a ==> pre.builds@[m].canceled);
        }
    }
}

proof fn lemma_settle_preserves_no_pending(
    pre: MakeStream,
    post: MakeStream,
    id: u64,
    failed: bool,
    r: BuildOutcome,
    a: SockAddr,
)
    requires
        settle_step(pre, post, id, failed, r),
        pre.no_pending_build(a),
    ensures
        post.no_pending_build(a),
        r != BuildOutcome::Emit(a),
{
    let oldm = cancel_map_entries(pre.cancellations);
    let newm = cancel_map_entries(post.cancellations);
    if exists|i: int| 0 <= i < pre.builds@.len() && (#[trigger] pre.builds@[i]).id == id {
        let i = choose|i: int| 0 <= i < pre.builds@.len() && (#[trigger] pre.builds@[i]).id == id;
        let slot = pre.builds@[i];
        pre.builds@.remove_ensures(i);
        assert forall|m: int|
            0 <= m < post.builds@.len() && (#[trigger] post.builds@[m]).addr == a implies post.builds@[m].canceled by {
            let m0 = if m < i {
                m
            } else {
                m + 1
            };
            assert(post.builds@[m] == pre.builds@[m0]);
        }
        if slot.canceled || failed {
            assert(newm == oldm);
        } else {
            assert(slot.addr == a ==> slot.canceled);
            assert(r == BuildOutcome::Emit(slot.addr) && slot.addr != a);
            if has_key(oldm, slot.addr) {
                let j = choose|j: int|
                    0 <= j < oldm.len() && (#[trigger] oldm[j]).0 == slot.addr && newm
                        == oldm.remove(j);
                oldm.remove_ensures(j);
                assert forall|k: int| 0 <= k < newm.len() implies (#[trigger] newm[k]).0 != a by {
                    let k0 = if k < j {
                        k
                    } else {
                        k + 1
                    };
                    assert(newm[k] == oldm[k0]);
                }
            }
        }
    }
}

/// Law: cancellation is silent. Once no cancellation handle and no
/// un-cancelled build exists for an address — as the Remove dispatch leaves it
/// — then along any sequence of further steps that never spawns a new build
/// for that address, the state keeps showing no pending build for it, and no
/// settled build ever emits an insertion for it.
pub proof fn lemma_cancellation_silence(
    states: Seq<MakeStream>,
    steps: Seq<DiscoverStep>,
    a: SockAddr,
)
    requires
        steps_ok(states, steps),
        states.len() > 0,
        states[0].no_pending_build(a),
        forall|i: int| 0 <= i < steps.len() ==> !spawns_for(#[trigger] steps[i], a),
    ensures
        forall|i: int| 0 <= i < states.len() ==> (#[trigger] states[i]).no_pending_build(a),
        forall|i: int|
            0 <= i < steps.len() ==> !(#[trigger] steps[i] matches DiscoverStep::Settled(
                _,
                _,
                BuildOutcome::Emit(ad),
            ) && ad == a),
    decreases steps.len(),
{
    if steps.len() > 0 {
        match steps[0] {
            DiscoverStep::Spawned(ad, id) => {
                lemma_spawn_preserves_no_pending(states[0], states[1], ad, id, a);
            },
            DiscoverStep::Cancelled(ad, sig) => {
                lemma_cancel_preserves_no_pending(states[0], states[1], ad, sig, a);
            },
            DiscoverStep::Settled(id, failed, r) => {
                lemma_settle_preserves_no_pending(states[0], states[1], id, failed, r, a);
            },
        }
        let states2 = states.drop_first();
        let steps2 = steps.drop_first();
        assert forall|i: int|
            0 <= i < steps2.len() implies match #[trigger] steps2[i] {
            DiscoverStep::Spawned(ad, id) => spawn_step(states2[i], states2[i + 1], ad, id),
            DiscoverStep::Cancelled(ad, sig) => cancel_step(states2[i], states2[i + 1], ad, sig),
            DiscoverStep::Settled(id, failed, r) => settle_step(
                states2[i],
                states2[i + 1],
                id,
                failed,
                r,
            ),
        } by {
            assert(steps2[i] == steps[i + 1]);
            assert(states2[i] == states[i + 1] && states2[i + 1] == states[i + 2]);
        }
        assert(steps_ok(states2, steps2));
        assert forall|i: int| 0 <= i < steps2.len() implies !spawns_for(
            #[trigger] steps2[i],
            a,
        ) by {
            assert(steps2[i] == steps[i + 1]);
        }
        lemma_cancellation_silence(states2, steps2, a);
        assert forall|i: int| 0 <= i < states.len() implies (
        #[trigger] states[i]).no_pending_build(a) by {
            if i > 0 {
                assert(states[i] == states2[i - 1]);
            }
        }
        assert forall|i: int|
            0 <= i < steps.len() implies !(#[trigger] steps[i] matches DiscoverStep::Settled(
            _,
            _,
            BuildOutcome::Emit(ad),
        ) && ad == a) by {
            if i > 0 {
                assert(steps[i] == steps2[i - 1]);
            }
        }
    }
}

/// Law: at every point, the cancellation bookkeeping holds at most one handle
/// per address.
pub proof fn lemma_at_most_one_handle(s: MakeStream)
    requires
        s.wf(),
    ensures
        forall|i: int, j: int|
            0 <= i < j < cancel_map_entries(s.cancellations).len() ==> (
            #[trigger] cancel_map_entries(s.cancellations)[i]).0 != (#[trigger] cancel_map_entries(
                s.cancellations,
            )[j]).0,
{
}

/// One step of dispatching an endpoint update.
pub enum UpdateStep<T> {
    /// An Add: a build was spawned for the address under the returned token.
    /// The caller drives the factory's future for the target and settles it
    /// with the token.
    StartBuild { id: u64, addr: SockAddr, target: T },
    /// A Remove: any in-flight build for the address was cancelled. Emit the
    /// removal at once.
    EmitRemove(SockAddr),
    /// A NoEndpoints signal: the is-empty flag was set; nothing to emit.
    Flagged,
}

/// Observes a resolution stream and, with a factory that builds one child
/// service per endpoint, yields a keyed change stream. The resolution and the
/// factory are driven by the caller; the adapter holds the decisions: what
/// each update does, what each finished build yields, and the is-empty flag.
pub struct Discover<R, M> {
    pub resolution: R,
    pub make: M,
    pub makes: MakeStream,
    pub flag: Arc<AtomicBool>,
    pub empty_view: Ghost<bool>,
}

impl<R, M> Discover<R, M> {
    pub fn new(resolution: R, make: M) -> (d: Discover<R, M>)
        ensures
            d.makes.wf(),
            d.makes.linked(),
            d.makes.builds@ == Seq::<BuildSlot>::empty(),
            cancel_map_entries(d.makes.cancellations) == Seq::<(SockAddr, u64)>::empty(),
            d.makes.next_id == 0,
            d.empty_view@ == false,
    {
        Discover {
            resolution,
            make,
            makes: MakeStream::new(),
            flag: Arc::new(AtomicBool::new(false)),
            empty_view: Ghost(false),
        }
    }

    /// Dispatches one update from the resolution: an Add spawns a build for
    /// its address, a Remove cancels any in-flight build for its address and
    /// is emitted eagerly, and a NoEndpoints signal only sets the shared
    /// is-empty flag.
    pub fn handle_update<T>(&mut self, up: Update<T>) -> (r: UpdateStep<T>)
        requires
            old(self).makes.wf(),
            up matches Update::Add(_, _) ==> old(self).makes.next_id < u64::MAX,
        ensures
            final(self).makes.wf(),
            match up {
                Update::Add(a, t) => r == (UpdateStep::StartBuild {
                    id: old(self).makes.next_id,
                    addr: a,
                    target: t,
                }) && spawn_step(old(self).makes, final(self).makes, a, old(self).makes.next_id)
                    && final(self).empty_view == old(self).empty_view
                    && (old(self).makes.linked() && !has_key(
                    cancel_map_entries(old(self).makes.cancellations),
                    a,
                ) ==> final(self).makes.linked()) && (forall|a2: SockAddr|
                    a2 != a && old(self).makes.no_pending_build(a2)
                        ==> final(self).makes.no_pending_build(a2)),
                Update::Remove(a) => r == UpdateStep::EmitRemove::<T>(a) && cancel_step(
                    old(self).makes,
                    final(self).makes,
                    a,
                    has_key(cancel_map_entries(old(self).makes.cancellations), a),
                ) && final(self).empty_view == old(self).empty_view && (old(self).makes.linked()
                    ==> final(self).makes.linked() && (has_key(
                    cancel_map_entries(old(self).makes.cancellations),
                    a,
                ) ==> final(self).makes.no_pending_build(a))) && (forall|a2: SockAddr|
                    old(self).makes.no_pending_build(a2)
                        ==> final(self).makes.no_pending_build(a2)),
                Update::NoEndpoints => r == UpdateStep::Flagged::<T>
                    && final(self).makes == old(self).makes && final(self).empty_view@ == true,
            },
    {
        match up {
            Update::Add(a, t) => {
                let id = self.makes.push(a);
                UpdateStep::StartBuild { id, addr: a, target: t }
            },
            Update::Remove(a) => {
                let _ = self.makes.remove(&a);
                UpdateStep::EmitRemove(a)
            },
            Update::NoEndpoints => {
                flag_ref(&self.flag).store(true, Ordering::Release);
                self.empty_view = Ghost(true);
                UpdateStep::Flagged
            },
        }
    }

    /// Settles the in-flight build with the given token: an emitted insertion
    /// clears the is-empty flag; a cancelled build stays silent; a failure
    /// fails the stream.
    pub fn complete_build(&mut self, id: u64, failed: bool) -> (r: BuildOutcome)
        requires
            old(self).makes.wf(),
        ensures
            final(self).makes.wf(),
            settle_step(old(self).makes, final(self).makes, id, failed, r),
            r matches BuildOutcome::Emit(_) ==> final(self).empty_view@ == false,
            !(r matches BuildOutcome::Emit(_)) ==> final(self).empty_view == old(self).empty_view,
            old(self).makes.linked() && r != BuildOutcome::Fail ==> final(self).makes.linked(),
            forall|a: SockAddr|
                old(self).makes.no_pending_build(a) ==> final(self).makes.no_pending_build(a) && r
                    != BuildOutcome::Emit(a),
    {
        let r = self.makes.complete(id, failed);
        match &r {
            BuildOutcome::Emit(_) => {
                flag_ref(&self.flag).store(false, Ordering::Release);
                self.empty_view = Ghost(false);
            },
            _ => (),
        }
        r
    }
}

impl<R, M> HasEndpointStatus for Discover<R, M> {
    /// A cloneable handle onto this adapter's shared is-empty flag.
    fn endpoint_status(&self) -> EndpointStatus {
        EndpointStatus { flag: clone_flag(&self.flag) }
    }
}

/// Builds per-target discover adapters around a resolver.
#[derive(Clone, Debug)]
pub struct Layer<R> {
    resolve: R,
}

/// Wraps a resolver into a layer.
pub fn layer<R: Clone>(resolve: R) -> Layer<R> {
    Layer { resolve }
}

impl<R: Clone> Layer<R> {
    /// Pairs the resolver with an endpoint-service factory.
    pub fn layer<M>(&self, inner: M) -> MakeSvc<R, M> {
        MakeSvc { resolve: self.resolve.clone(), inner }
    }
}

/// Makes one discover adapter per target: the target is resolved into a
/// resolution stream and paired with a clone of the factory.
#[derive(Clone, Debug)]
pub struct MakeSvc<R, M> {
    resolve: R,
    inner: M,
}

impl<R, M> MakeSvc<R, M> {
    /// Always ready to make another adapter.
    pub fn poll_ready(&mut self) -> (r: Async<()>)
        ensures
            r == Async::<()>::Ready(()),
    {
        Async::Ready(())
    }

    /// Resolves the target and wraps the resolution and a clone of the
    /// factory into a fresh discover adapter.
    pub fn call<T>(&mut self, target: T) -> (d: Discover<R::Resolution, M>) where
        R: Resolve<T>,
        M: Clone,

        ensures
            d.makes.wf(),
            d.makes.linked(),
            d.makes.builds@ == Seq::<BuildSlot>::empty(),
            cancel_map_entries(d.makes.cancellations) == Seq::<(SockAddr, u64)>::empty(),
            d.empty_view@ == false,
    {
        let resolution = self.resolve.resolve(&target);
        let inner = self.inner.clone();
        Discover::new(resolution, inner)
    }
}

} // verus!
