//! The responder channel: the bounded conduit that carries response chunks
//! from the worker back to the ingress-side response body, together with the
//! declarations of the outside types a `Task` holds.

use vstd::prelude::*;

verus! {

/// The byte buffer an inbound request body arrives in and response chunks
/// travel in. The dispatcher moves such values; it never reads them.
#[verifier::external_type_specification]
#[verifier::external_body]
pub struct ExBytes(bytes::Bytes);

/// The producer half of the bounded responder channel, owned by the worker.
#[verifier::external_type_specification]
#[verifier::external_body]
#[verifier::reject_recursive_types(T)]
pub struct ExSender<T>(tokio::sync::mpsc::Sender<T>);

/// The consumer half of the bounded responder channel, owned by the
/// ingress-side response stream.
#[verifier::external_type_specification]
#[verifier::external_body]
#[verifier::reject_recursive_types(T)]
pub struct ExReceiver<T>(tokio::sync::mpsc::Receiver<T>);

/// One item on a responder channel: either a chunk of the upstream response
/// body, or a marker that the upstream call failed. Either way, receiving
/// `UpstreamError` (or seeing the channel close) ends the response body.
pub enum ChunkMsg {
    Data(bytes::Bytes),
    UpstreamError,
}

/// The number of chunks a responder channel buffers. A slow client therefore
/// holds back the worker (and, through it, the upstream read) rather than
/// forcing the proxy to buffer without bound.
pub const RESPONDER_CAPACITY: usize = 32;

/// What a byte buffer holds.
pub uninterp spec fn bytes_view(b: bytes::Bytes) -> Seq<u8>;

/// Relies on `bytes::Bytes::len`: the number of bytes the buffer holds.
#[verifier::external_body]
pub(crate) fn bytes_size(b: &bytes::Bytes) -> (r: usize)
    ensures
        r as nat == bytes_view(*b).len(),
{
    b.len()
}

/// The buffer bound a responder channel was created with.
pub uninterp spec fn responder_bound(s: tokio::sync::mpsc::Sender<ChunkMsg>) -> nat;

/// Relies on `tokio::sync::mpsc::channel`: it creates a bounded channel that
/// buffers at most the given number of messages; once full, sends wait until
/// the receiver drains an item.
#[verifier::external_body]
pub(crate) fn new_responder() -> (r: (
    tokio::sync::mpsc::Sender<ChunkMsg>,
    tokio::sync::mpsc::Receiver<ChunkMsg>,
))
    ensures
        responder_bound(r.0) == RESPONDER_CAPACITY,
{
    tokio::sync::mpsc::channel(RESPONDER_CAPACITY)
}

/// Relies on `tokio::sync::mpsc::Sender::is_closed`: true once the receiver
/// half has been dropped or closed. The answer depends on what the client
/// side has done meanwhile, so nothing is promised of it; callers state what
/// holds either way.
#[verifier::external_body]
pub(crate) fn responder_is_closed(s: &tokio::sync::mpsc::Sender<ChunkMsg>) -> bool {
    s.is_closed()
}

} // verus!
