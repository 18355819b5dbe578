//! Trusted declarations for the outside crates the core leans on:
//! randomness from `rand` and one-shot reply channels from `tokio`.

use vstd::prelude::*;

use crate::lobby_manager::LobbyManagerResponse;

verus! {

/// Declares tokio's one-shot sender so it can stand in fields and signatures.
/// A value of it is opaque to the verifier; it is only handed to
/// [`send_response`] or carried through.
#[verifier::external_type_specification]
#[verifier::external_body]
#[verifier::reject_recursive_types(T)]
pub struct ExOneshotSender<T>(tokio::sync::oneshot::Sender<T>);

/// Relies on tokio::sync::oneshot::Sender::send: delivers the response to the
/// paired receiver, or fails if the receiver was dropped. Which of the two
/// happens depends on the receiving side, so nothing is promised of the result.
#[verifier::external_body]
pub(crate) fn send_response(
    channel: tokio::sync::oneshot::Sender<LobbyManagerResponse>,
    response: LobbyManagerResponse,
) -> (delivered: bool) {
    channel.send(response).is_ok()
}

/// Relies on rand::Rng::next_u32 on the thread-local generator: a fresh
/// random draw, of which nothing can be promised.
#[verifier::external_body]
pub(crate) fn random_u32() -> u32 {
    rand::Rng::next_u32(&mut rand::rng())
}

/// Relies on rand::Rng::next_u64 on the thread-local generator: a fresh
/// random draw, of which nothing can be promised.
#[verifier::external_body]
pub(crate) fn random_u64() -> u64 {
    rand::Rng::next_u64(&mut rand::rng())
}

/// Relies on rand::seq::SliceRandom::shuffle: permutes the slice in place, so
/// every outcome holds exactly the elements that went in.
#[verifier::external_body]
pub(crate) fn shuffle_ids(items: &mut Vec<u64>)
    ensures
        final(items)@.to_multiset() == old(items)@.to_multiset(),
        final(items)@.len() == old(items)@.len(),
{
    rand::seq::SliceRandom::shuffle(items.as_mut_slice(), &mut rand::rng())
}

/// Relies on rand::seq::IndexedRandom::choose: returns a uniformly random
/// element of the slice, so every outcome is one of its elements.
#[verifier::external_body]
pub(crate) fn choose_from(items: &Vec<u64>) -> (r: u64)
    requires
        items@.len() > 0,
    ensures
        items@.contains(r),
{
    *rand::seq::IndexedRandom::choose(items.as_slice(), &mut rand::rng()).unwrap()
}

} // verus!
