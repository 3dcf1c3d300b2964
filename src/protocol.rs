//! Messages between peers, their framing, and the decisions on both ends.
//! A message travels as four length bytes (big-endian) and a payload that
//! encodes one request or response.
use vstd::prelude::*;
use crate::cas::ContentAddressedStore;
use crate::file::hashes_of;
use crate::object::Object;
use crate::resource::{Resource, ResourceModel};
use crate::store::LocalStore;

verus! {

/// A peer announces the address it listens on.
#[derive(Debug)]
pub struct ConnectRequest {
    pub addr: String,
}

/// Asks for the resource named by `hash`.
#[derive(Debug)]
pub struct ResourceRequest {
    pub hash: Object,
}

/// The resource asked for.
#[derive(Debug)]
pub struct ResourceResponse {
    pub resource: Resource,
}

/// Names another node that holds `hash`. Reserved: no node sends it yet.
#[derive(Debug)]
pub struct RedirectResponse {
    pub hash: Object,
    pub node: String,
}

/// Asks which of `hashes` the peer holds.
#[derive(Debug)]
pub struct AvailabilityCheckRequest {
    pub hashes: Vec<Object>,
}

/// The asked-for hashes the peer holds, in the order asked.
#[derive(Debug)]
pub struct AvailabilityCheckResponse {
    pub hashes: Vec<Object>,
}

#[derive(Debug)]
pub enum Request {
    Connect(ConnectRequest),
    Resource(ResourceRequest),
    AvailabilityCheck(AvailabilityCheckRequest),
}

#[derive(Debug)]
pub enum Response {
    Resource(ResourceResponse),
    Redirect(RedirectResponse),
    AvailabilityCheck(AvailabilityCheckResponse),
    Error,
}

/// What a server does with one request.
#[derive(Debug)]
pub enum ServerAction {
    /// Send this response on the connection the request came on.
    Reply(Response),
    /// Open a connection of its own to this address and register it as a peer.
    ConnectBack(String),
}

/// Why a peer's answer gives no result.
#[derive(Debug, Clone, Copy, PartialEq, Eq, Structural)]
pub enum ClientError {
    /// The peer does not have it, or failed.
    NotFound,
    /// The response is of another kind than the request asked for.
    UnexpectedResponse,
    /// A redirect, which this client does not follow.
    RedirectUnsupported,
}

/// Four bytes, most significant first.
pub open spec fn u32_be(n: u32) -> Seq<u8> {
    seq![(n >> 24u32) as u8, (n >> 16u32) as u8, (n >> 8u32) as u8, n as u8]
}

/// The largest payload a frame carries.
pub const MAX_PAYLOAD: usize = 4294967295;

/// The frame of `payload`: its length in four big-endian bytes, then the
/// payload. `None` when the payload is too long for four length bytes.
pub fn frame(payload: &[u8]) -> (r: Option<Vec<u8>>)
    ensures
        r is Some <==> payload@.len() <= MAX_PAYLOAD,
        r matches Some(b) ==> b@ == u32_be(payload@.len() as u32) + payload@,
{
    if payload.len() > MAX_PAYLOAD {
        return None;
    }
    let n = payload.len() as u32;
    let mut out: Vec<u8> = Vec::new();
    out.push((n >> 24u32) as u8);
    out.push((n >> 16u32) as u8);
    out.push((n >> 8u32) as u8);
    out.push(n as u8);
    crate::bytes::push_bytes(&mut out, payload);
    assert(out@ =~= u32_be(n) + payload@);
    Some(out)
}

/// The payload length that a frame's four header bytes give.
pub fn frame_length(header: &[u8; 4]) -> (n: u32)
    ensures
        u32_be(n) == header@,
{
    let n: u32 = ((header[0] as u32) << 24u32) | ((header[1] as u32) << 16u32) | ((header[2] as u32) << 8u32)
        | (header[3] as u32);
    let (b0, b1, b2, b3) = (header[0], header[1], header[2], header[3]);
    assert(((n >> 24u32) as u8) == b0 && ((n >> 16u32) as u8) == b1 && ((n >> 8u32) as u8) == b2 && (n as u8) == b3)
        by (bit_vector)
        requires
            n == ((b0 as u32) << 24u32) | ((b1 as u32) << 16u32) | ((b2 as u32) << 8u32) | (b3 as u32),
    ;
    assert(u32_be(n) =~= header@);
    n
}

/// The hashes of `hs` that `m` holds, in order.
pub open spec fn held_hashes(m: Map<Seq<u8>, ResourceModel>, hs: Seq<Seq<u8>>) -> Seq<Seq<u8>>
    decreases hs.len(),
{
    if hs.len() == 0 {
        Seq::empty()
    } else if m.contains_key(hs.last()) {
        held_hashes(m, hs.drop_last()).push(hs.last())
    } else {
        held_hashes(m, hs.drop_last())
    }
}

impl LocalStore {
    /// Which of `hashes` this store holds, in the order given.
    pub fn available(&self, hashes: &Vec<Object>) -> (r: Vec<Object>)
        ensures
            hashes_of(r@) == held_hashes(self@, hashes_of(hashes@)),
    {
        let ghost hs = hashes_of(hashes@);
        let mut r: Vec<Object> = Vec::new();
        let mut i: usize = 0;
        while i < hashes.len()
            invariant
                i <= hashes@.len(),
                hs == hashes_of(hashes@),
                hashes_of(r@) == held_hashes(self@, hs.subrange(0, i as int)),
            decreases hashes@.len() - i,
        {
            let ghost before = r@;
            if self.has(&hashes[i]) {
                r.push(hashes[i]);
                assert(hashes_of(r@) =~= hashes_of(before).push(hashes@[i as int]@));
            }
            assert(hs.subrange(0, i + 1).drop_last() =~= hs.subrange(0, i as int));
            i = i + 1;
        }
        assert(hs.subrange(0, i as int) =~= hs);
        r
    }

    /// How a server holding this store answers `req`: a resource or `Error`
    /// for a fetch, the held hashes for an availability check, and a
    /// connection of its own back to a peer that announces itself.
    pub fn answer(&self, req: &Request) -> (a: ServerAction)
        ensures
            req matches Request::Connect(c) ==> (a matches ServerAction::ConnectBack(addr) && addr@ == c.addr@),
            req matches Request::Resource(q) ==> (self@.contains_key(q.hash@) ==> (a matches ServerAction::Reply(
                Response::Resource(x)) && x.resource@ == self@[q.hash@])),
            req matches Request::Resource(q) ==> (!self@.contains_key(q.hash@) ==> (a matches ServerAction::Reply(
                Response::Error))),
            req matches Request::AvailabilityCheck(q) ==> (a matches ServerAction::Reply(
                Response::AvailabilityCheck(x)) && hashes_of(x.hashes@) == held_hashes(self@, hashes_of(q.hashes@))),
    {
        match req {
            Request::Connect(c) => ServerAction::ConnectBack(c.addr.clone()),
            Request::Resource(q) => match self.get_resource(&q.hash) {
                Some(resource) => ServerAction::Reply(Response::Resource(ResourceResponse { resource })),
                None => ServerAction::Reply(Response::Error),
            },
            Request::AvailabilityCheck(q) => ServerAction::Reply(
                Response::AvailabilityCheck(AvailabilityCheckResponse { hashes: self.available(&q.hashes) }),
            ),
        }
    }
}

/// The resource in a peer's answer to a resource request.
pub fn resource_from_response(resp: Response) -> (r: Result<Resource, ClientError>)
    ensures
        resp matches Response::Resource(x) ==> (r matches Ok(y) && y@ == x.resource@),
        resp is Error ==> r == Err::<Resource, ClientError>(ClientError::NotFound),
        resp is AvailabilityCheck ==> r == Err::<Resource, ClientError>(ClientError::UnexpectedResponse),
        resp is Redirect ==> r == Err::<Resource, ClientError>(ClientError::RedirectUnsupported),
{
    match resp {
        Response::Resource(x) => Ok(x.resource),
        Response::Redirect(_) => Err(ClientError::RedirectUnsupported),
        Response::AvailabilityCheck(_) => Err(ClientError::UnexpectedResponse),
        Response::Error => Err(ClientError::NotFound),
    }
}

/// The held hashes in a peer's answer to an availability check.
pub fn availability_from_response(resp: Response) -> (r: Result<Vec<Object>, ClientError>)
    ensures
        resp matches Response::AvailabilityCheck(x) ==> (r matches Ok(v) && v@ == x.hashes@),
        resp is Error ==> r == Err::<Vec<Object>, ClientError>(ClientError::NotFound),
        resp is Resource ==> r == Err::<Vec<Object>, ClientError>(ClientError::UnexpectedResponse),
        resp is Redirect ==> r == Err::<Vec<Object>, ClientError>(ClientError::RedirectUnsupported),
{
    match resp {
        Response::AvailabilityCheck(x) => Ok(x.hashes),
        Response::Redirect(_) => Err(ClientError::RedirectUnsupported),
        Response::Resource(_) => Err(ClientError::UnexpectedResponse),
        Response::Error => Err(ClientError::NotFound),
    }
}

} // verus!
