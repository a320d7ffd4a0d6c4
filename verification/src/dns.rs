//! DNS-side types: validated names, suffix containment, refined names bounded
//! by a validity deadline, and the pure decisions of the resolver: how a
//! lookup outcome is classified and how the first address is drawn from a
//! lookup. Instants are held as plain monotonic ticks; the caller maps them to
//! and from its clock.

pub mod name;

pub use name::{lower_byte, to_lower, valid_name, InvalidName, Name};

use crate::net::IpAddrRepr;
use vstd::prelude::*;
use vstd::string::StringSliceAdditionalSpecFns;

verus! {

/// A name suffix: either the root (`.`) or a name.
#[derive(Clone, Debug, PartialEq, Eq, Hash)]
pub enum Suffix {
    Root,
    Name(Name),
}

/// Whether the suffix contains the name: the root contains everything; a name
/// suffix matches when the name (trailing dot stripped) ends with the suffix
/// (trailing dot stripped) and the match starts at a label boundary, that is
/// either the two are equal or a dot immediately precedes the match.
pub open spec fn suffix_contains(sfx: Suffix, n: Seq<u8>) -> bool {
    match sfx {
        Suffix::Root => true,
        Suffix::Name(s) => {
            let nn = name::strip_dot(n);
            let ss = name::strip_dot(s@);
            &&& ss.len() <= nn.len()
            &&& nn.subrange(nn.len() - ss.len(), nn.len() as int) == ss
            &&& (nn.len() == ss.len() || name::is_dot(nn[nn.len() - ss.len() - 1]))
        },
    }
}

impl Suffix {
    /// Parses a suffix: the bare dot is the root, anything else must be a
    /// valid name.
    pub fn try_from(s: &str) -> (r: Result<Suffix, InvalidName>)
        ensures
            match r {
                Ok(Suffix::Root) => s.spec_bytes() == seq![0x2eu8],
                Ok(Suffix::Name(n)) => n@ == to_lower(s.spec_bytes()) && valid_name(n@),
                Err(_) => s.spec_bytes() != seq![0x2eu8] && !valid_name(to_lower(s.spec_bytes())),
            },
    {
        let b = s.as_bytes();
        if b.len() == 1 && b[0] == 0x2e {
            proof {
                assert(s.spec_bytes() =~= seq![0x2eu8]);
            }
            Ok(Suffix::Root)
        } else {
            match Name::try_from(b) {
                Ok(n) => Ok(Suffix::Name(n)),
                Err(e) => Err(e),
            }
        }
    }

    /// Whether this suffix contains the given name, label-aligned.
    pub fn contains(&self, n: &Name) -> (r: bool)
        ensures
            r == suffix_contains(*self, n@),
    {
        match self {
            Suffix::Root => true,
            Suffix::Name(sfx) => {
                let nb = n.as_bytes();
                let sb = sfx.as_bytes();
                let n_len: usize = if nb.len() > 0 && nb[nb.len() - 1] == 0x2e {
                    nb.len() - 1
                } else {
                    nb.len()
                };
                let s_len: usize = if sb.len() > 0 && sb[sb.len() - 1] == 0x2e {
                    sb.len() - 1
                } else {
                    sb.len()
                };
                let ghost nn = name::strip_dot(n@);
                let ghost ss = name::strip_dot(sfx@);
                proof {
                    assert(nn =~= nb@.subrange(0, n_len as int));
                    assert(ss =~= sb@.subrange(0, s_len as int));
                }
                if s_len > n_len {
                    return false;
                }
                let off: usize = n_len - s_len;
                let mut i: usize = 0;
                let mut all_eq = true;
                while i < s_len
                    invariant
                        0 <= i <= s_len <= n_len,
                        off == n_len - s_len,
                        n_len <= nb@.len(),
                        s_len <= sb@.len(),
                        nn == nb@.subrange(0, n_len as int),
                        ss == sb@.subrange(0, s_len as int),
                        all_eq ==> forall|k: int| 0 <= k < i ==> nn[off + k] == ss[k],
                        !all_eq ==> exists|k: int| 0 <= k < i && nn[off + k] != ss[k],
                    decreases s_len - i,
                {
                    if nb[off + i] != sb[i] {
                        proof {
                            assert(nn[off + i] == nb@[off + i] && ss[i as int] == sb@[i as int]);
                        }
                        all_eq = false;
                    }
                    i = i + 1;
                }
                if !all_eq {
                    proof {
                        let k = choose|k: int| 0 <= k < s_len && nn[off + k] != ss[k];
                        assert(nn.subrange(off as int, n_len as int)[k] != ss[k]);
                    }
                    return false;
                }
                proof {
                    assert(nn.subrange(off as int, n_len as int) =~= ss);
                }
                if n_len == s_len {
                    true
                } else {
                    nb[off - 1] == 0x2e
                }
            },
        }
    }
}

impl From<Name> for Suffix {
    /// Wraps a name as a non-root suffix.
    fn from(n: Name) -> (r: Suffix) {
        Suffix::Name(n)
    }
}

impl vstd::std_specs::convert::FromSpecImpl<Name> for Suffix {
    open spec fn obeys_from_spec() -> bool {
        true
    }

    open spec fn from_spec(n: Name) -> Suffix {
        Suffix::Name(n)
    }
}

/// Law: suffix containment is label-aligned: a non-root suffix that contains
/// a name either equals it (trailing dots stripped) or is immediately
/// preceded, inside the name, by a dot.
pub proof fn lemma_contains_label_aligned(sfx: Name, n: Seq<u8>)
    requires
        suffix_contains(Suffix::Name(sfx), n),
    ensures
        name::strip_dot(n).len() == name::strip_dot(sfx@).len() || name::is_dot(
            name::strip_dot(n)[name::strip_dot(n).len() - name::strip_dot(sfx@).len() - 1],
        ),
{
}

/// A name together with the absolute deadline, in monotonic ticks, after
/// which it must be resolved again.
#[derive(Clone, Debug)]
pub struct RefinedName {
    pub name: Name,
    pub valid_until: u64,
}

/// The errors the resolver surfaces to its callers.
#[derive(Clone, Debug)]
pub enum Error {
    /// The lookup answered, but with an empty address list.
    NoAddressesFound,
    /// The lookup itself failed; the reason is carried along.
    ResolutionFailed(String),
}

/// A positive answer or a negative one that may carry a retry deadline.
#[derive(Clone, Debug)]
pub enum Response<T> {
    Exists(T),
    DoesNotExist { retry_after: Option<u64> },
}

/// What a finished lookup reported: addresses with their validity deadline, a
/// negative answer with the deadline of its negative cache entry, or a
/// failure.
#[derive(Clone, Debug)]
pub enum LookupOutcome {
    Found { ips: Vec<IpAddrRepr>, valid_until: u64 },
    NoRecords { valid_until: Option<u64> },
    Failed(String),
}

/// An address list bounded by a validity deadline.
#[derive(Clone, Debug)]
pub struct IpList {
    pub ips: Vec<IpAddrRepr>,
    pub valid_until: u64,
}

/// Classifies a lookup outcome for the full-list resolution: addresses are a
/// positive response, a no-records answer is the negative response carrying
/// the negative-cache deadline as the retry hint, and any other failure
/// propagates.
pub fn classify_lookup(outcome: LookupOutcome) -> (r: Result<Response<IpList>, Error>)
    ensures
        match outcome {
            LookupOutcome::Found { ips, valid_until } => r matches Ok(Response::Exists(l))
                && l.ips@ == ips@ && l.valid_until == valid_until,
            LookupOutcome::NoRecords { valid_until } => r matches Ok(
                Response::DoesNotExist { retry_after },
            ) && retry_after == valid_until,
            LookupOutcome::Failed(reason) => r matches Err(Error::ResolutionFailed(why))
                && why == reason,
        },
{
    match outcome {
        LookupOutcome::Found { ips, valid_until } => Ok(
            Response::Exists(IpList { ips, valid_until }),
        ),
        LookupOutcome::NoRecords { valid_until } => Ok(
            Response::DoesNotExist { retry_after: valid_until },
        ),
        LookupOutcome::Failed(reason) => Err(Error::ResolutionFailed(reason)),
    }
}

/// Draws the single address for a one-address resolution: the first address
/// of a successful lookup; an empty list means no addresses were found; a
/// failed lookup propagates.
pub fn first_ip(outcome: LookupOutcome) -> (r: Result<IpAddrRepr, Error>)
    ensures
        match outcome {
            LookupOutcome::Found { ips, valid_until } => if ips@.len() > 0 {
                r == Ok::<IpAddrRepr, Error>(ips@[0])
            } else {
                r matches Err(Error::NoAddressesFound)
            },
            LookupOutcome::NoRecords { valid_until } => r matches Err(Error::NoAddressesFound),
            LookupOutcome::Failed(reason) => r matches Err(Error::ResolutionFailed(why)) && why
                == reason,
        },
{
    match outcome {
        LookupOutcome::Found { ips, valid_until } => {
            if ips.len() > 0 {
                Ok(ips[0])
            } else {
                Err(Error::NoAddressesFound)
            }
        },
        LookupOutcome::NoRecords { valid_until: _ } => Err(Error::NoAddressesFound),
        LookupOutcome::Failed(reason) => Err(Error::ResolutionFailed(reason)),
    }
}

/// Pairs the name a refining lookup canonicalized with the lookup's validity
/// deadline. The resolver only returns valid names, so the input is required
/// to validate.
pub fn refine_result(raw: &[u8], valid_until: u64) -> (r: RefinedName)
    requires
        valid_name(to_lower(raw@)),
    ensures
        r.name@ == to_lower(raw@),
        r.valid_until == valid_until,
{
    let name = match Name::try_from(raw) {
        Ok(n) => n,
        Err(_) => vstd::pervasive::unreached(),
    };
    RefinedName { name, valid_until }
}

} // verus!
