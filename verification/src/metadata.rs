//! Endpoint metadata and the decoding of discovery wire messages: label maps
//! are merged (endpoint labels over set labels) and canonicalized by sorting
//! keys lexicographically, protocol hints and TLS identities are read from
//! their wire envelopes, and each weighted wire address becomes an endpoint.

use crate::dns::name::{to_lower, valid_name};
use crate::dns::Name;
use crate::net::{decoded_sock_addr, pb_to_sock_addr, SockAddr, TcpAddress};
use vstd::prelude::*;

verus! {

/// Strict lexicographic byte order, compared from position i on.
pub open spec fn bytes_lt_from(a: Seq<u8>, b: Seq<u8>, i: int) -> bool
    decreases b.len() - i,
{
    if i >= b.len() {
        false
    } else if i >= a.len() {
        true
    } else if a[i] < b[i] {
        true
    } else if a[i] > b[i] {
        false
    } else {
        bytes_lt_from(a, b, i + 1)
    }
}

/// Strict lexicographic byte order.
pub open spec fn bytes_lt(a: Seq<u8>, b: Seq<u8>) -> bool {
    bytes_lt_from(a, b, 0)
}

proof fn lemma_lt_from_irreflexive(a: Seq<u8>, i: int)
    ensures
        !bytes_lt_from(a, a, i),
    decreases a.len() - i,
{
    if i < a.len() {
        lemma_lt_from_irreflexive(a, i + 1);
    }
}

proof fn lemma_lt_from_trichotomy(a: Seq<u8>, b: Seq<u8>, i: int)
    requires
        0 <= i <= a.len(),
        0 <= i <= b.len(),
        forall|m: int| 0 <= m < i ==> a[m] == b[m],
    ensures
        bytes_lt_from(a, b, i) || bytes_lt_from(b, a, i) || a =~= b,
    decreases a.len() - i,
{
    if i < a.len() && i < b.len() && a[i] == b[i] {
        lemma_lt_from_trichotomy(a, b, i + 1);
    }
}

/// Exactly one of `a < b`, `b < a`, `a == b` holds.
pub proof fn lemma_bytes_lt_trichotomy(a: Seq<u8>, b: Seq<u8>)
    ensures
        bytes_lt(a, b) || bytes_lt(b, a) || a =~= b,
        !(bytes_lt(a, b) && bytes_lt(b, a)),
        bytes_lt(a, b) ==> a != b,
{
    lemma_lt_from_trichotomy(a, b, 0);
    lemma_lt_from_asymmetric(a, b, 0);
    if a == b {
        lemma_lt_from_irreflexive(a, 0);
    }
}

proof fn lemma_lt_from_asymmetric(a: Seq<u8>, b: Seq<u8>, i: int)
    ensures
        !(bytes_lt_from(a, b, i) && bytes_lt_from(b, a, i)),
    decreases a.len() + b.len() - i,
{
    if i < a.len() && i < b.len() && a[i] == b[i] {
        lemma_lt_from_asymmetric(a, b, i + 1);
    }
}

proof fn lemma_lt_from_transitive(a: Seq<u8>, b: Seq<u8>, c: Seq<u8>, i: int)
    requires
        bytes_lt_from(a, b, i),
        bytes_lt_from(b, c, i),
    ensures
        bytes_lt_from(a, c, i),
    decreases c.len() - i,
{
    if i < a.len() && i < b.len() && i < c.len() && a[i] == b[i] && b[i] == c[i] {
        lemma_lt_from_transitive(a, b, c, i + 1);
    }
}

/// The order is transitive.
pub proof fn lemma_bytes_lt_transitive(a: Seq<u8>, b: Seq<u8>, c: Seq<u8>)
    requires
        bytes_lt(a, b),
        bytes_lt(b, c),
    ensures
        bytes_lt(a, c),
{
    lemma_lt_from_transitive(a, b, c, 0);
}

/// Whether the byte key of `a` is strictly below that of `b`.
fn key_lt(a: &Vec<u8>, b: &Vec<u8>) -> (r: bool)
    ensures
        r == bytes_lt(a@, b@),
{
    let an = a.len();
    let bn = b.len();
    let mut i: usize = 0;
    loop
        invariant
            0 <= i <= an,
            0 <= i <= bn,
            an == a@.len(),
            bn == b@.len(),
            bytes_lt(a@, b@) == bytes_lt_from(a@, b@, i as int),
        decreases bn - i,
    {
        if i >= bn {
            return false;
        }
        if i >= an {
            return true;
        }
        if a[i] < b[i] {
            return true;
        }
        if a[i] > b[i] {
            return false;
        }
        i = i + 1;
    }
}

/// The view of a label list: each pair as its byte sequences.
pub open spec fn labels_view(l: Seq<(Vec<u8>, Vec<u8>)>) -> Seq<(Seq<u8>, Seq<u8>)> {
    l.map_values(|p: (Vec<u8>, Vec<u8>)| (p.0@, p.1@))
}

/// Keys strictly ascend, so every key occurs once.
pub open spec fn labels_sorted(lv: Seq<(Seq<u8>, Seq<u8>)>) -> bool {
    forall|i: int, j: int|
        0 <= i < j < lv.len() ==> bytes_lt((#[trigger] lv[i]).0, (#[trigger] lv[j]).0)
}

/// The value the latest entry with the given key carries, if any: a later
/// entry overrides an earlier one with the same key.
pub open spec fn lookup_last(lv: Seq<(Seq<u8>, Seq<u8>)>, k: Seq<u8>) -> Option<Seq<u8>>
    decreases lv.len(),
{
    if lv.len() == 0 {
        None
    } else if lv.last().0 == k {
        Some(lv.last().1)
    } else {
        lookup_last(lv.drop_last(), k)
    }
}

/// Looking a key up in a concatenation tries the right part first.
pub proof fn lemma_lookup_last_concat(a: Seq<(Seq<u8>, Seq<u8>)>, b: Seq<(Seq<u8>, Seq<u8>)>, k: Seq<u8>)
    ensures
        lookup_last(a + b, k) == (match lookup_last(b, k) {
            Some(v) => Some(v),
            None => lookup_last(a, k),
        }),
    decreases b.len(),
{
    if b.len() == 0 {
        assert(a + b =~= a);
    } else {
        assert((a + b).drop_last() =~= a + b.drop_last());
        assert((a + b).last() == b.last());
        lemma_lookup_last_concat(a, b.drop_last(), k);
    }
}

/// Appending one pair makes it the latest entry for its key.
pub proof fn lemma_lookup_last_push(lv: Seq<(Seq<u8>, Seq<u8>)>, p: (Seq<u8>, Seq<u8>), k: Seq<u8>)
    ensures
        lookup_last(lv.push(p), k) == (if p.0 == k {
            Some(p.1)
        } else {
            lookup_last(lv, k)
        }),
{
    assert(lv.push(p).drop_last() =~= lv);
}

/// Inserts the pair into a key-sorted label list, replacing the value when the
/// key is already present; every other key keeps its value, and the list stays
/// sorted.
fn upsert_label(out: &mut Vec<(Vec<u8>, Vec<u8>)>, key: Vec<u8>, val: Vec<u8>)
    requires
        labels_sorted(labels_view(old(out)@)),
    ensures
        labels_sorted(labels_view(final(out)@)),
        forall|k: Seq<u8>|
            lookup_last(labels_view(final(out)@), k) == (if k == key@ {
                Some(val@)
            } else {
                lookup_last(labels_view(old(out)@), k)
            }),
{
    let n = out.len();
    let mut p: usize = 0;
    loop
        invariant
            0 <= p <= n,
            n == out@.len(),
            *out == *old(out),
            labels_sorted(labels_view(out@)),
            forall|m: int| 0 <= m < p ==> bytes_lt((#[trigger] labels_view(out@)[m]).0, key@),
        ensures
            0 <= p <= n,
            n == out@.len(),
            *out == *old(out),
            labels_sorted(labels_view(out@)),
            forall|m: int| 0 <= m < p ==> bytes_lt((#[trigger] labels_view(out@)[m]).0, key@),
            p < n ==> !bytes_lt(labels_view(out@)[p as int].0, key@),
        decreases n - p,
    {
        if p >= n {
            break ;
        }
        if !key_lt(&out[p].0, &key) {
            proof {
                assert(labels_view(out@)[p as int].0 == out@[p as int].0@);
            }
            break ;
        }
        proof {
            assert(labels_view(out@)[p as int].0 == out@[p as int].0@);
        }
        p = p + 1;
    }
    let ghost ov = labels_view(out@);
    let ghost kv = key@;
    let ghost vv = val@;
    if p < n && !key_lt(&key, &out[p].0) {
        proof {
            lemma_bytes_lt_trichotomy(kv, ov[p as int].0);
            assert(ov[p as int].0 =~= kv);
        }
        out[p] = (key, val);
        proof {
            let nv = labels_view(out@);
            assert(nv =~= ov.update(p as int, (kv, vv)));
            lemma_upsert_views(ov, nv, p as int, kv, vv, ov[p as int].1);
        }
    } else {
        proof {
            if p < n {
                lemma_bytes_lt_trichotomy(kv, ov[p as int].0);
            }
        }
        out.insert(p, (key, val));
        proof {
            let nv = labels_view(out@);
            assert(nv =~= ov.subrange(0, p as int) + seq![(kv, vv)] + ov.subrange(
                p as int,
                ov.len() as int,
            ));
            lemma_insert_views(ov, nv, p as int, kv, vv);
        }
    }
}

proof fn lemma_sorted_suffix_above(ov: Seq<(Seq<u8>, Seq<u8>)>, p: int, k: Seq<u8>)
    requires
        labels_sorted(ov),
        0 <= p <= ov.len(),
        p < ov.len() ==> bytes_lt(k, ov[p].0) || k == ov[p].0,
    ensures
        forall|m: int| p < m < ov.len() ==> bytes_lt(k, (#[trigger] ov[m]).0),
{
    assert forall|m: int| p < m < ov.len() implies bytes_lt(k, (#[trigger] ov[m]).0) by {
        assert(bytes_lt(ov[p].0, ov[m].0));
        if bytes_lt(k, ov[p].0) {
            lemma_bytes_lt_transitive(k, ov[p].0, ov[m].0);
        }
    }
}

proof fn lemma_upsert_views(
    ov: Seq<(Seq<u8>, Seq<u8>)>,
    nv: Seq<(Seq<u8>, Seq<u8>)>,
    p: int,
    k: Seq<u8>,
    v: Seq<u8>,
    oldv: Seq<u8>,
)
    requires
        labels_sorted(ov),
        0 <= p < ov.len(),
        ov[p].0 == k,
        ov[p].1 == oldv,
        nv == ov.update(p, (k, v)),
    ensures
        labels_sorted(nv),
        forall|k2: Seq<u8>|
            lookup_last(nv, k2) == (if k2 == k {
                Some(v)
            } else {
                lookup_last(ov, k2)
            }),
{
    assert forall|i: int, j: int| 0 <= i < j < nv.len() implies bytes_lt(
        (#[trigger] nv[i]).0,
        (#[trigger] nv[j]).0,
    ) by {
        assert(nv[i].0 == ov[i].0 && nv[j].0 == ov[j].0);
    }
    let a = ov.subrange(0, p);
    let c = ov.subrange(p + 1, ov.len() as int);
    assert(ov =~= a + seq![(k, oldv)] + c);
    assert(nv =~= a + seq![(k, v)] + c);
    lemma_sorted_suffix_above(ov, p, k);
    assert forall|k2: Seq<u8>|
        lookup_last(nv, k2) == (if k2 == k {
            Some(v)
        } else {
            lookup_last(ov, k2)
        }) by {
        lemma_lookup_last_concat(a + seq![(k, v)], c, k2);
        lemma_lookup_last_concat(a + seq![(k, oldv)], c, k2);
        lemma_lookup_last_push(a, (k, v), k2);
        lemma_lookup_last_push(a, (k, oldv), k2);
        assert(a.push((k, v)) =~= a + seq![(k, v)]);
        assert(a.push((k, oldv)) =~= a + seq![(k, oldv)]);
        if lookup_last(c, k2) is Some {
            let m = choose|m: int| 0 <= m < c.len() && c[m].0 == k2;
            lemma_lookup_in_keys(c, k2);
            assert(bytes_lt(k, c[m].0));
            lemma_bytes_lt_trichotomy(k, k2);
        }
    }
}

proof fn lemma_insert_views(
    ov: Seq<(Seq<u8>, Seq<u8>)>,
    nv: Seq<(Seq<u8>, Seq<u8>)>,
    p: int,
    k: Seq<u8>,
    v: Seq<u8>,
)
    requires
        labels_sorted(ov),
        0 <= p <= ov.len(),
        nv == ov.subrange(0, p) + seq![(k, v)] + ov.subrange(p, ov.len() as int),
        forall|m: int| 0 <= m < p ==> bytes_lt((#[trigger] ov[m]).0, k),
        p < ov.len() ==> bytes_lt(k, ov[p].0),
    ensures
        labels_sorted(nv),
        forall|k2: Seq<u8>|
            lookup_last(nv, k2) == (if k2 == k {
                Some(v)
            } else {
                lookup_last(ov, k2)
            }),
{
    let a = ov.subrange(0, p);
    let c = ov.subrange(p, ov.len() as int);
    assert(ov =~= a + c);
    if p < ov.len() {
        lemma_sorted_suffix_above(ov, p, k);
        assert forall|m: int| 0 <= m < c.len() implies bytes_lt(k, (#[trigger] c[m]).0) by {
            assert(c[m] == ov[p + m]);
            if m > 0 {
                assert(bytes_lt(k, ov[p + m].0));
            }
        }
    }
    assert forall|i: int, j: int| 0 <= i < j < nv.len() implies bytes_lt(
        (#[trigger] nv[i]).0,
        (#[trigger] nv[j]).0,
    ) by {
        if i < p && j == p {
            assert(nv[i] == ov[i]);
        } else if i == p && j > p {
            assert(nv[j] == c[j - p - 1]);
        } else if i < p && j > p {
            assert(nv[i] == ov[i] && nv[j] == c[j - p - 1]);
            lemma_bytes_lt_transitive(nv[i].0, k, nv[j].0);
        } else if j < p {
            assert(nv[i] == ov[i] && nv[j] == ov[j]);
        } else if i > p {
            assert(nv[i] == c[i - p - 1] && nv[j] == c[j - p - 1]);
            assert(nv[i].0 == ov[i - 1].0 && nv[j].0 == ov[j - 1].0);
        }
    }
    assert forall|k2: Seq<u8>|
        lookup_last(nv, k2) == (if k2 == k {
            Some(v)
        } else {
            lookup_last(ov, k2)
        }) by {
        lemma_lookup_last_concat(a + seq![(k, v)], c, k2);
        lemma_lookup_last_concat(a, c, k2);
        lemma_lookup_last_push(a, (k, v), k2);
        assert(a.push((k, v)) =~= a + seq![(k, v)]);
        if lookup_last(c, k2) is Some {
            let m = choose|m: int| 0 <= m < c.len() && c[m].0 == k2;
            lemma_lookup_in_keys(c, k2);
            assert(bytes_lt(k, c[m].0));
            lemma_bytes_lt_trichotomy(k, k2);
        }
    }
}

/// A found key occurs in the list.
pub proof fn lemma_lookup_in_keys(lv: Seq<(Seq<u8>, Seq<u8>)>, k: Seq<u8>)
    requires
        lookup_last(lv, k) is Some,
    ensures
        exists|m: int| 0 <= m < lv.len() && (#[trigger] lv[m]).0 == k,
    decreases lv.len(),
{
    if lv.len() > 0 && lv.last().0 != k {
        lemma_lookup_in_keys(lv.drop_last(), k);
        let m = choose|m: int| 0 <= m < lv.drop_last().len() && (#[trigger] lv.drop_last()[m]).0 == k;
        assert(lv[m].0 == k);
    }
}

/// Merges endpoint labels over set labels and canonicalizes the result by
/// sorting keys lexicographically: the value for a key is the endpoint's when
/// it carries the key, else the set's; within one list a later entry wins.
pub fn merge_labels(set_labels: &Vec<(Vec<u8>, Vec<u8>)>, ep_labels: &Vec<(Vec<u8>, Vec<u8>)>) -> (r:
    Vec<(Vec<u8>, Vec<u8>)>)
    ensures
        labels_sorted(labels_view(r@)),
        forall|k: Seq<u8>|
            lookup_last(labels_view(r@), k) == lookup_last(
                labels_view(set_labels@) + labels_view(ep_labels@),
                k,
            ),
{
    let ghost all = labels_view(set_labels@) + labels_view(ep_labels@);
    let mut r: Vec<(Vec<u8>, Vec<u8>)> = Vec::new();
    proof {
        assert(labels_view(r@) =~= Seq::<(Seq<u8>, Seq<u8>)>::empty());
    }
    let mut i: usize = 0;
    while i < set_labels.len()
        invariant
            0 <= i <= set_labels@.len(),
            labels_sorted(labels_view(r@)),
            forall|k: Seq<u8>|
                lookup_last(labels_view(r@), k) == lookup_last(
                    labels_view(set_labels@).subrange(0, i as int),
                    k,
                ),
        decreases set_labels@.len() - i,
    {
        let key = set_labels[i].0.clone();
        let val = set_labels[i].1.clone();
        upsert_label(&mut r, key, val);
        proof {
            let sv = labels_view(set_labels@);
            assert(sv.subrange(0, i + 1) =~= sv.subrange(0, i as int).push(sv[i as int]));
            assert forall|k: Seq<u8>|
                lookup_last(labels_view(r@), k) == lookup_last(sv.subrange(0, i + 1), k) by {
                lemma_lookup_last_push(sv.subrange(0, i as int), sv[i as int], k);
            }
        }
        i = i + 1;
    }
    proof {
        assert(labels_view(set_labels@).subrange(0, set_labels@.len() as int) =~= labels_view(
            set_labels@,
        ));
    }
    let mut j: usize = 0;
    while j < ep_labels.len()
        invariant
            0 <= j <= ep_labels@.len(),
            labels_sorted(labels_view(r@)),
            forall|k: Seq<u8>|
                lookup_last(labels_view(r@), k) == lookup_last(
                    labels_view(set_labels@) + labels_view(ep_labels@).subrange(0, j as int),
                    k,
                ),
        decreases ep_labels@.len() - j,
    {
        let key = ep_labels[j].0.clone();
        let val = ep_labels[j].1.clone();
        upsert_label(&mut r, key, val);
        proof {
            let sv = labels_view(set_labels@);
            let ev = labels_view(ep_labels@);
            assert(sv + ev.subrange(0, j + 1) =~= (sv + ev.subrange(0, j as int)).push(
                ev[j as int],
            ));
            assert forall|k: Seq<u8>|
                lookup_last(labels_view(r@), k) == lookup_last(sv + ev.subrange(0, j + 1), k) by {
                lemma_lookup_last_push(sv + ev.subrange(0, j as int), ev[j as int], k);
            }
        }
        j = j + 1;
    }
    proof {
        assert(labels_view(ep_labels@).subrange(0, ep_labels@.len() as int) =~= labels_view(
            ep_labels@,
        ));
    }
    r
}

/// The protocol an endpoint hints it speaks.
#[derive(Clone, Copy, Debug, PartialEq, Eq, Structural)]
pub enum ProtocolHint {
    Unknown,
    Http2,
}

/// The wire envelope of a protocol hint; only an HTTP/2 hint is defined.
#[derive(Clone, Copy, Debug, PartialEq, Eq, Structural)]
pub struct WireProtocolHint {
    pub h2: bool,
}

/// How a TLS identity is stated on the wire.
#[derive(Clone, Debug)]
pub enum WireIdentityStrategy {
    DnsLikeIdentity(Vec<u8>),
}

/// The wire envelope of a TLS identity; the strategy may be missing.
#[derive(Clone, Debug)]
pub struct WireTlsIdentity {
    pub strategy: Option<WireIdentityStrategy>,
}

/// One weighted wire address with its per-endpoint labels, protocol hint and
/// TLS identity.
#[derive(Clone, Debug)]
pub struct WeightedAddr {
    pub addr: Option<TcpAddress>,
    pub weight: u32,
    pub metric_labels: Vec<(Vec<u8>, Vec<u8>)>,
    pub protocol_hint: Option<WireProtocolHint>,
    pub tls_identity: Option<WireTlsIdentity>,
}

/// What an endpoint carries besides its address: its canonicalized labels,
/// its protocol hint, its optional TLS peer identity, and its weight.
#[derive(Clone, Debug)]
pub struct Metadata {
    pub labels: Vec<(Vec<u8>, Vec<u8>)>,
    pub protocol_hint: ProtocolHint,
    pub identity: Option<Name>,
    pub weight: u32,
}

impl Metadata {
    /// Labels are canonical: keys strictly ascend.
    pub open spec fn wf(self) -> bool {
        labels_sorted(labels_view(self.labels@))
    }

    pub fn new(
        labels: Vec<(Vec<u8>, Vec<u8>)>,
        protocol_hint: ProtocolHint,
        identity: Option<Name>,
        weight: u32,
    ) -> (m: Metadata)
        requires
            labels_sorted(labels_view(labels@)),
        ensures
            m.wf(),
            m.labels == labels,
            m.protocol_hint == protocol_hint,
            m.identity == identity,
            m.weight == weight,
    {
        Metadata { labels, protocol_hint, identity, weight }
    }
}

/// The identity a wire TLS envelope denotes: present exactly when the
/// strategy is a DNS-like identity whose bytes validate as a name.
pub open spec fn decoded_identity(pb: WireTlsIdentity) -> Option<Seq<u8>> {
    match pb.strategy {
        Some(WireIdentityStrategy::DnsLikeIdentity(raw)) => if valid_name(to_lower(raw@)) {
            Some(to_lower(raw@))
        } else {
            None
        },
        None => None,
    }
}

/// Reads the TLS peer identity from its wire envelope; an invalid or missing
/// identity is ignored.
pub fn pb_to_id(pb: &WireTlsIdentity) -> (r: Option<Name>)
    ensures
        match r {
            Some(n) => decoded_identity(*pb) == Some(n@),
            None => decoded_identity(*pb) == None::<Seq<u8>>,
        },
{
    match &pb.strategy {
        Some(WireIdentityStrategy::DnsLikeIdentity(raw)) => match Name::try_from(raw.as_slice()) {
            Ok(n) => Some(n),
            Err(_) => None,
        },
        None => None,
    }
}

/// The wire entry carries no usable address and is dropped.
pub open spec fn wire_addr_dropped(pb: WeightedAddr) -> bool {
    pb.addr is None || decoded_sock_addr(pb.addr->Some_0) is None
}

/// The pair is the endpoint the wire entry decodes to against the given
/// set-level labels: the decoded address; canonical labels that merge the
/// endpoint's over the set's; the protocol hint; the TLS identity when valid;
/// the weight carried through.
pub open spec fn endpoint_decodes(
    pb: WeightedAddr,
    set_labels: Seq<(Vec<u8>, Vec<u8>)>,
    pair: (SockAddr, Metadata),
) -> bool {
    &&& pb.addr is Some
    &&& decoded_sock_addr(pb.addr->Some_0) == Some(pair.0)
    &&& pair.1.wf()
    &&& forall|k: Seq<u8>|
        lookup_last(labels_view(pair.1.labels@), k) == lookup_last(
            labels_view(set_labels) + labels_view(pb.metric_labels@),
            k,
        )
    &&& pair.1.protocol_hint == (match pb.protocol_hint {
        Some(h) => if h.h2 {
            ProtocolHint::Http2
        } else {
            ProtocolHint::Unknown
        },
        None => ProtocolHint::Unknown,
    })
    &&& (match pair.1.identity {
        Some(n) => pb.tls_identity is Some && decoded_identity(pb.tls_identity->Some_0) == Some(
            n@,
        ),
        None => pb.tls_identity is None || decoded_identity(pb.tls_identity->Some_0) is None,
    })
    &&& pair.1.weight == pb.weight
}

/// Builds one endpoint from a weighted wire address and the set-level labels:
/// the address decodes or the entry is dropped; labels are merged and
/// canonicalized; a protocol hint is HTTP/2 only when the wire says so; the
/// TLS identity is taken when valid. The weight is carried through.
pub fn pb_to_addr_meta(pb: WeightedAddr, set_labels: &Vec<(Vec<u8>, Vec<u8>)>) -> (r: Option<
    (SockAddr, Metadata),
>)
    ensures
        match r {
            None => wire_addr_dropped(pb),
            Some(pair) => endpoint_decodes(pb, set_labels@, pair),
        },
{
    let addr = match &pb.addr {
        Some(a) => match pb_to_sock_addr(a) {
            Some(sa) => sa,
            None => {
                return None;
            },
        },
        None => {
            return None;
        },
    };
    let labels = merge_labels(set_labels, &pb.metric_labels);
    let mut hint = ProtocolHint::Unknown;
    match &pb.protocol_hint {
        Some(h) => {
            if h.h2 {
                hint = ProtocolHint::Http2;
            }
        },
        None => (),
    }
    let identity = match &pb.tls_identity {
        Some(tls) => pb_to_id(tls),
        None => None,
    };
    let meta = Metadata::new(labels, hint, identity, pb.weight);
    Some((addr, meta))
}

} // verus!
