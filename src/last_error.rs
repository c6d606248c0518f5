//! The last-error buffer that the client interface reports failures through.

use vstd::prelude::*;

verus! {

/// The message of the last failure, until it is taken.
pub struct LastError {
    pub message: Option<String>,
}

pub open spec fn opt_view(o: Option<String>) -> Option<Seq<char>> {
    match o {
        Some(s) => Some(s@),
        None => None,
    }
}

/// The text of an error message.
pub fn to_string(e: &str) -> (r: String)
    ensures
        r@ == e@,
{
    e.to_string()
}

/// Records `err` as the last failure and gives the empty result of a failed call.
pub fn error_block<E>(slot: &mut LastError, err: String) -> (r: Option<E>)
    ensures
        r is None,
        opt_view(final(slot).message) == Some(err@),
{
    update_last_error(slot, err);
    None
}

/// Records `err` as the last failure.
pub fn update_last_error(slot: &mut LastError, err: String)
    ensures
        opt_view(final(slot).message) == Some(err@),
{
    slot.message = Some(err);
}

/// Takes the last failure, leaving the buffer empty.
pub fn take_last_error(slot: &mut LastError) -> (r: Option<String>)
    ensures
        opt_view(r) == opt_view(old(slot).message),
        final(slot).message is None,
{
    slot.message.take()
}

impl LastError {
    /// An empty buffer.
    pub fn new() -> (r: LastError)
        ensures
            r.message is None,
    {
        LastError { message: None }
    }
}

} // verus!
