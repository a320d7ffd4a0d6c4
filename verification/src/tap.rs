//! The tap listener's authorization rule: with no expected identity
//! configured every session is served; with one configured, a session without
//! a peer identity is dropped silently, a session with the wrong peer
//! identity is answered by a stub that replies Unauthenticated to every call,
//! and only the matching identity is served the admin service.

use crate::dns::Name;
use vstd::prelude::*;

verus! {

/// What the tap listener does with one accepted session.
#[derive(Clone, Copy, Debug, PartialEq, Eq, Structural)]
pub enum TapAccess {
    /// Serve the admin service on this session.
    ServeAdmin,
    /// Keep the session, but answer every call with an Unauthenticated
    /// status, so the client sees a well-formed reply instead of a dropped
    /// connection.
    ServeUnauthenticated,
    /// Drop the session without serving anything.
    DropSilently,
}

/// Decides one accepted tap session from the configured expected identity and
/// the session's peer identity.
pub fn authorize_tap(expected: &Option<Name>, peer: &Option<Name>) -> (r: TapAccess)
    ensures
        match *expected {
            None => r == TapAccess::ServeAdmin,
            Some(want) => match *peer {
                None => r == TapAccess::DropSilently,
                Some(got) => r == (if got@ == want@ {
                    TapAccess::ServeAdmin
                } else {
                    TapAccess::ServeUnauthenticated
                }),
            },
        },
{
    match expected {
        None => TapAccess::ServeAdmin,
        Some(want) => match peer {
            None => TapAccess::DropSilently,
            Some(got) => {
                if got == want {
                    TapAccess::ServeAdmin
                } else {
                    TapAccess::ServeUnauthenticated
                }
            },
        },
    }
}

} // verus!
