//! The state of one endpoint-set subscription: wire messages are decoded and
//! flattened into the delta cache, the stream is reopened on end-of-stream
//! and on transient errors, and an InvalidArgument status terminates the
//! subscription for good — the caller then behaves as if no endpoints
//! existed and never reopens it.

use crate::cache::{Cache, Update};
use crate::dns::Name;
use crate::indexed::addr_set_elems;
use crate::metadata::{endpoint_decodes, pb_to_addr_meta, wire_addr_dropped, Metadata, WeightedAddr};
use crate::net::{decoded_sock_addr, pb_to_sock_addr, SockAddr, TcpAddress};
use vstd::prelude::*;

verus! {

/// The discovery target: a logical name and a port.
#[derive(Clone, Debug)]
pub struct Authority {
    pub name: Name,
    pub port: u16,
}

/// One message of the discovery wire stream; the update field may be missing.
#[derive(Clone, Debug)]
pub enum WireUpdate {
    Add { addrs: Vec<WeightedAddr>, metric_labels: Vec<(Vec<u8>, Vec<u8>)> },
    Remove { addrs: Vec<TcpAddress> },
    NoEndpoints,
}

/// The status of a failed subscription poll; whether the code was
/// InvalidArgument is the one distinction the policy needs, the rest is
/// carried for the caller's logs.
#[derive(Clone, Debug)]
pub enum RxError {
    InvalidArgument,
    Other(String),
}

/// One observation from the remote stream.
#[derive(Clone, Debug)]
pub enum RxEvent {
    /// A message arrived, possibly with its update field missing.
    Message(Option<WireUpdate>),
    /// The stream ended without an error.
    StreamEnd,
    /// The stream failed with a status.
    Failed(RxError),
}

/// What the caller must do with the remote stream after one observation.
#[derive(Clone, Copy, Debug, PartialEq, Eq, Structural)]
pub enum RxAction {
    /// Keep the current stream (or, if it was terminated, stay terminated).
    Keep,
    /// Open the stream again.
    Reconnect,
}

/// The socket addresses a sequence of wire addresses decodes to, in order,
/// dropping those without an IP.
pub open spec fn decoded_addrs(s: Seq<TcpAddress>) -> Seq<SockAddr>
    decreases s.len(),
{
    if s.len() == 0 {
        Seq::empty()
    } else {
        let p = decoded_addrs(s.drop_last());
        match decoded_sock_addr(s.last()) {
            Some(a) => p.push(a),
            None => p,
        }
    }
}

/// The endpoints a sequence of weighted wire addresses decodes to, in order:
/// entries without a usable address are dropped, every other entry becomes
/// the matching endpoint.
pub open spec fn decodes_endpoints(
    addrs: Seq<WeightedAddr>,
    set_labels: Seq<(Vec<u8>, Vec<u8>)>,
    out: Seq<(SockAddr, Metadata)>,
) -> bool
    decreases addrs.len(),
{
    if addrs.len() == 0 {
        out.len() == 0
    } else if wire_addr_dropped(addrs.last()) {
        decodes_endpoints(addrs.drop_last(), set_labels, out)
    } else {
        out.len() > 0 && endpoint_decodes(addrs.last(), set_labels, out.last())
            && decodes_endpoints(addrs.drop_last(), set_labels, out.drop_last())
    }
}

/// Decodes a wire address list, dropping entries without an IP.
pub fn decode_addrs(addrs: &Vec<TcpAddress>) -> (r: Vec<SockAddr>)
    ensures
        r@ == decoded_addrs(addrs@),
{
    let mut r: Vec<SockAddr> = Vec::new();
    let mut i: usize = 0;
    while i < addrs.len()
        invariant
            0 <= i <= addrs@.len(),
            r@ == decoded_addrs(addrs@.subrange(0, i as int)),
        decreases addrs@.len() - i,
    {
        let ghost pre = addrs@.subrange(0, i as int);
        match pb_to_sock_addr(&addrs[i]) {
            Some(a) => r.push(a),
            None => (),
        }
        proof {
            assert(addrs@.subrange(0, i + 1).drop_last() =~= pre);
            assert(addrs@.subrange(0, i + 1).last() == addrs@[i as int]);
        }
        i = i + 1;
    }
    proof {
        assert(addrs@.subrange(0, addrs@.len() as int) =~= addrs@);
    }
    r
}

/// Decodes a weighted wire address list against the set-level labels,
/// dropping entries without a usable address.
pub fn decode_endpoints(addrs: Vec<WeightedAddr>, set_labels: &Vec<(Vec<u8>, Vec<u8>)>) -> (r: Vec<
    (SockAddr, Metadata),
>)
    ensures
        decodes_endpoints(addrs@, set_labels@, r@),
{
    let ghost all = addrs@;
    let mut addrs = addrs;
    let total = addrs.len();
    proof {
        assert(all.len() == total as int);
    }
    let mut r: Vec<(SockAddr, Metadata)> = Vec::new();
    let mut done: usize = 0;
    while addrs.len() > 0
        invariant
            done == all.len() - addrs@.len(),
            0 <= done <= all.len() <= usize::MAX,
            addrs@ == all.subrange(done as int, all.len() as int),
            decodes_endpoints(all.subrange(0, done as int), set_labels@, r@),
        decreases addrs@.len(),
    {
        let ghost pre = all.subrange(0, done as int);
        let pb = addrs.remove(0);
        let ghost out_pre = r@;
        match pb_to_addr_meta(pb, set_labels) {
            Some(pair) => r.push(pair),
            None => (),
        }
        proof {
            assert(all.subrange(0, done + 1).drop_last() =~= pre);
            assert(all.subrange(0, done + 1).last() == all[done as int]);
            if !wire_addr_dropped(all[done as int]) {
                assert(r@.drop_last() =~= out_pre);
            }
        }
        done = done + 1;
    }
    proof {
        assert(all.subrange(0, done as int) =~= all);
    }
    r
}

/// The state of one resolution: its authority, the delta cache, and whether
/// the subscription is still eligible to run.
pub struct Resolution {
    pub auth: Authority,
    pub cache: Cache<Metadata>,
    pub active: bool,
}

impl Resolution {
    /// A fresh resolution with an open subscription.
    pub fn new(auth: Authority) -> (r: Resolution)
        ensures
            r.auth == auth,
            r.cache.wf(),
            r.cache.queue@ == Seq::<Update<Metadata>>::empty(),
            r.cache.history@ == Seq::<Update<Metadata>>::empty(),
            r.active,
    {
        Resolution { auth, cache: Cache::new(), active: true }
    }

    /// A resolution for an authority that must not be queried: it reports no
    /// endpoints and never opens a subscription.
    pub fn none(auth: Authority) -> (r: Resolution)
        ensures
            r.auth == auth,
            r.cache.wf(),
            r.cache.queue@ == seq![Update::<Metadata>::NoEndpoints],
            r.cache.history@ == Seq::<Update<Metadata>>::empty(),
            !r.active,
    {
        let mut cache: Cache<Metadata> = Cache::new();
        cache.no_endpoints();
        proof {
            assert(cache.queue@ =~= seq![Update::<Metadata>::NoEndpoints]);
        }
        Resolution { auth, cache, active: false }
    }

    /// Digests one observation from the remote stream. A message is decoded
    /// and flattened into the cache; a bare end of stream asks for a
    /// reconnect; an InvalidArgument status terminates the subscription and
    /// expands to a no-endpoints signal; any other error asks for a
    /// reconnect.
    pub fn handle_event(&mut self, ev: RxEvent) -> (r: RxAction)
        requires
            old(self).cache.wf(),
            old(self).active,
        ensures
            final(self).cache.wf(),
            final(self).auth == old(self).auth,
            match ev {
                RxEvent::Message(Some(WireUpdate::Add { addrs, metric_labels })) => final(self).active && r == RxAction::Keep && exists|eps: Seq<(SockAddr, Metadata)>|
                    decodes_endpoints(addrs@, metric_labels@, eps) && final(self).cache.queue@
                        == old(self).cache.queue@ + eps.map_values(
                        (|p: (SockAddr, Metadata)| Update::<Metadata>::Add(p.0, p.1)),
                    ),
                RxEvent::Message(Some(WireUpdate::Remove { addrs })) => final(self).active && r
                    == RxAction::Keep && final(self).cache.queue@ == old(self).cache.queue@
                    + decoded_addrs(addrs@).map_values(
                    (|a: SockAddr| Update::<Metadata>::Remove(a)),
                ),
                RxEvent::Message(Some(WireUpdate::NoEndpoints)) => final(self).active && r
                    == RxAction::Keep && final(self).cache.queue@ == seq![
                    Update::<Metadata>::NoEndpoints,
                ] + addr_set_elems(old(self).cache.addrs).map_values(
                    (|a: SockAddr| Update::<Metadata>::Remove(a)),
                ),
                RxEvent::Message(None) => final(self).active && r == RxAction::Keep && final(self).cache.queue@ == old(self).cache.queue@,
                RxEvent::StreamEnd => final(self).active && r == RxAction::Reconnect && final(self).cache.queue@ == old(self).cache.queue@,
                RxEvent::Failed(RxError::InvalidArgument) => !final(self).active && r
                    == RxAction::Keep && final(self).cache.queue@ == seq![
                    Update::<Metadata>::NoEndpoints,
                ] + addr_set_elems(old(self).cache.addrs).map_values(
                    (|a: SockAddr| Update::<Metadata>::Remove(a)),
                ),
                RxEvent::Failed(RxError::Other(_)) => final(self).active && r
                    == RxAction::Reconnect && final(self).cache.queue@ == old(self).cache.queue@,
            },
    {
        match ev {
            RxEvent::Message(Some(WireUpdate::Add { addrs, metric_labels })) => {
                let ghost aseq = addrs@;
                let ghost mseq = metric_labels@;
                let eps = decode_endpoints(addrs, &metric_labels);
                let ghost eseq = eps@;
                self.cache.add(eps);
                proof {
                    assert(decodes_endpoints(aseq, mseq, eseq) && self.cache.queue@ == old(self).cache.queue@ + eseq.map_values(
                        (|p: (SockAddr, Metadata)| Update::<Metadata>::Add(p.0, p.1)),
                    ));
                }
                RxAction::Keep
            },
            RxEvent::Message(Some(WireUpdate::Remove { addrs })) => {
                let removed = decode_addrs(&addrs);
                self.cache.remove(removed);
                RxAction::Keep
            },
            RxEvent::Message(Some(WireUpdate::NoEndpoints)) => {
                self.cache.no_endpoints();
                RxAction::Keep
            },
            RxEvent::Message(None) => RxAction::Keep,
            RxEvent::StreamEnd => RxAction::Reconnect,
            RxEvent::Failed(RxError::InvalidArgument) => {
                self.cache.no_endpoints();
                self.active = false;
                RxAction::Keep
            },
            RxEvent::Failed(RxError::Other(_)) => RxAction::Reconnect,
        }
    }

    /// Hands the consumer the next update, in the order the updates were
    /// queued. An empty queue has nothing yet; in particular, a terminated
    /// subscription, once its no-endpoints expansion has drained, pends
    /// forever.
    pub fn next_update(&mut self) -> (r: Option<Update<Metadata>>)
        requires
            old(self).cache.wf(),
        ensures
            final(self).cache.wf(),
            final(self).active == old(self).active,
            final(self).auth == old(self).auth,
            old(self).cache.queue@.len() > 0 ==> r == Some(old(self).cache.queue@[0]) && final(self).cache.queue@ == old(self).cache.queue@.drop_first(),
            old(self).cache.queue@.len() == 0 ==> r == None::<Update<Metadata>>
                && final(self).cache.queue@ == old(self).cache.queue@,
    {
        self.cache.next_update()
    }
}

/// The decimal digits of a number, most significant first.
pub open spec fn dec_digits(n: nat) -> Seq<u8>
    decreases n,
{
    if n < 10 {
        seq![(0x30 + n) as u8]
    } else {
        dec_digits(n / 10).push((0x30 + n % 10) as u8)
    }
}

fn push_digits(out: &mut Vec<u8>, n: u16)
    ensures
        final(out)@ == old(out)@ + dec_digits(n as nat),
    decreases n,
{
    if n < 10 {
        out.push(0x30 + (n as u8));
        proof {
            assert(out@ =~= old(out)@ + dec_digits(n as nat));
        }
    } else {
        push_digits(out, n / 10);
        out.push(0x30 + ((n % 10) as u8));
        proof {
            assert(out@ =~= old(out)@ + dec_digits(n as nat));
        }
    }
}

/// One request to the discovery service: the fixed scheme, the authority as
/// "name:port", and the caller's opaque context token.
#[derive(Clone, Debug)]
pub struct DestinationRequest {
    pub scheme: Vec<u8>,
    pub path: Vec<u8>,
    pub context_token: Vec<u8>,
}

/// Builds the request that opens (or reopens) a subscription for the
/// authority: the scheme is "k8s" and the path is the authority written as
/// name, colon, port.
pub fn destination_request(auth: &Authority, context_token: &Vec<u8>) -> (r: DestinationRequest)
    ensures
        r.scheme@ == seq![0x6bu8, 0x38u8, 0x73u8],
        r.path@ == auth.name@ + seq![0x3au8] + dec_digits(auth.port as nat),
        r.context_token@ == context_token@,
{
    let mut path: Vec<u8> = Vec::new();
    let name_bytes = auth.name.as_bytes();
    let mut i: usize = 0;
    while i < name_bytes.len()
        invariant
            0 <= i <= name_bytes@.len(),
            name_bytes@ == auth.name@,
            path@ == auth.name@.subrange(0, i as int),
        decreases name_bytes@.len() - i,
    {
        path.push(name_bytes[i]);
        proof {
            assert(path@ =~= auth.name@.subrange(0, i + 1));
        }
        i = i + 1;
    }
    proof {
        assert(path@ =~= auth.name@);
    }
    path.push(0x3a);
    push_digits(&mut path, auth.port);
    proof {
        assert(path@ =~= auth.name@ + seq![0x3au8] + dec_digits(auth.port as nat));
    }
    let mut scheme: Vec<u8> = Vec::new();
    scheme.push(0x6b);
    scheme.push(0x38);
    scheme.push(0x73);
    proof {
        assert(scheme@ =~= seq![0x6bu8, 0x38u8, 0x73u8]);
    }
    let mut token: Vec<u8> = Vec::new();
    let mut j: usize = 0;
    while j < context_token.len()
        invariant
            0 <= j <= context_token@.len(),
            token@ == context_token@.subrange(0, j as int),
        decreases context_token@.len() - j,
    {
        token.push(context_token[j]);
        proof {
            assert(token@ =~= context_token@.subrange(0, j + 1));
        }
        j = j + 1;
    }
    proof {
        assert(token@ =~= context_token@);
    }
    DestinationRequest { scheme, path, context_token: token }
}

} // verus!
