//! The events of the poll instance, as mio hands them out.

use crate::command::Readiness;
use vstd::prelude::*;

verus! {

/// mio's `Event`: what the poll instance reports of one token. The reactor
/// reads it through the two functions below and sees nothing else of it.
#[verifier::external_type_specification]
#[verifier::external_body]
pub struct ExEvent(mio::Event);

/// The number of the token that `event` holds: what mio's `Event::token`
/// returns for it.
pub uninterp spec fn event_token_of(event: mio::Event) -> usize;

/// The readiness that `event` holds: what mio's `Event::readiness` returns
/// for it, as the four flags that the reactor tells apart.
pub uninterp spec fn event_readiness_of(event: mio::Event) -> Readiness;

/// The number of the token of `event`, as mio's `Event::token` gives it.
/// An event holds its token as a field, so the same event gives the same
/// number; no more is claimed of the number than that.
#[verifier::external_body]
pub(crate) fn event_token(event: &mio::Event) -> (token: usize)
    ensures
        token == event_token_of(*event),
{
    event.token().0
}

/// The readiness of `event`, as mio's `Event::readiness` gives it, with each
/// of the four conditions that the reactor tells apart read off by the
/// accessor that mio's `Ready` has for it. An event holds its readiness as
/// a field, so the same event gives the same flags; no more is claimed of
/// the flags than that.
#[allow(deprecated)]
#[verifier::external_body]
pub(crate) fn event_readiness(event: &mio::Event) -> (readiness: Readiness)
    ensures
        readiness == event_readiness_of(*event),
{
    let kind = event.readiness();
    Readiness {
        readable: kind.is_readable(),
        writable: kind.is_writable(),
        error: kind.is_error(),
        hup: kind.is_hup(),
    }
}

} // verus!
