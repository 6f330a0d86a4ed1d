use vstd::prelude::*;

verus! {

/// Per-object evacuation status for the current collection cycle.
#[derive(Clone, Copy, PartialEq, Eq, Structural, Debug)]
pub enum ForwardingState {
    NotForwarded,
    BeingForwarded,
    Forwarded(u64),
}

/// True when a forwarder has claimed the object, whether or not the copy is published yet.
pub fn state_is_forwarded_or_being_forwarded(state: ForwardingState) -> (r: bool)
    ensures
        r == !(state is NotForwarded),
{
    match state {
        ForwardingState::NotForwarded => false,
        _ => true,
    }
}

/// The compare-and-set that claims an object for forwarding: returns the state it found
/// and the state it leaves. Only an unforwarded object is claimed.
pub fn attempt_to_forward(state: ForwardingState) -> (r: (ForwardingState, ForwardingState))
    ensures
        r.0 == state,
        r.1 == if state is NotForwarded {
            ForwardingState::BeingForwarded
        } else {
            state
        },
{
    match state {
        ForwardingState::NotForwarded => (state, ForwardingState::BeingForwarded),
        _ => (state, state),
    }
}

/// The destination of an object whose forwarding address is published.
pub fn spin_and_get_forwarded_object(state: ForwardingState) -> (r: u64)
    requires
        state is Forwarded,
    ensures
        state == ForwardingState::Forwarded(r),
{
    match state {
        ForwardingState::Forwarded(t) => t,
        _ => 0,
    }
}

pub fn is_forwarded(state: ForwardingState) -> (r: bool)
    ensures
        r == state is Forwarded,
{
    match state {
        ForwardingState::Forwarded(_) => true,
        _ => false,
    }
}

} // verus!
