//! The remote-access protocol: a binary framing in which byte 0 is an
//! operation code and the remaining bytes are that operation's parameters.
//! The request and response codecs are verified against spec-level parsers,
//! and the server-side dispatcher applies a decoded request to a local cache
//! engine under the same contracts as the engine's own operations.

use vstd::bytes::*;
use vstd::prelude::*;
use vstd::slice::*;
use vstd::utf8::*;

use crate::codec::{
    encode_string_into, parse_string, spec_encode_string, spec_parse_string,
};
use crate::engine::{spec_expiry, spec_get, ThreadSafeCacheImpl, DEFAULT_TTL_MS};

verus! {

/// A failure to decode a wire message: it was undersized or malformed. It is
/// scoped to one connection; the cache itself is never affected.
#[derive(Clone, Copy, Debug, PartialEq, Eq, Structural)]
pub enum ProtocolError {
    Malformed,
}

/// The operations of the wire protocol, one per cache operation.
pub enum CacheOp {
    Put,
    PutExp,
    Get,
    Exists,
    Rm,
}

/// The op code carried in byte 0 of a request for each operation.
pub open spec fn spec_op_code(op: CacheOp) -> u8 {
    match op {
        CacheOp::Put => 1,
        CacheOp::PutExp => 2,
        CacheOp::Get => 3,
        CacheOp::Exists => 4,
        CacheOp::Rm => 5,
    }
}

impl CacheOp {
    /// The op code of this operation.
    pub fn op_code(&self) -> (c: u8)
        ensures
            c == spec_op_code(*self),
    {
        match self {
            CacheOp::Put => 1,
            CacheOp::PutExp => 2,
            CacheOp::Get => 3,
            CacheOp::Exists => 4,
            CacheOp::Rm => 5,
        }
    }
}

/// The parameters of a put request: the key and the value.
pub struct PutOpParams {
    pub key: String,
    pub val: i32,
}

/// The parameters of a request that names only a key.
pub struct GetOpParams {
    pub key: String,
}

/// The payload of a get response: the value, if the key was live.
pub struct GetRet {
    pub val: Option<i32>,
}

/// A decoded request.
pub enum Request {
    Put(PutOpParams),
    PutExp(PutOpParams, i32),
    Get(GetOpParams),
    Exists(GetOpParams),
    Rm(GetOpParams),
}

/// The abstract form of a request, over key views.
pub enum RequestView {
    Put { key: Seq<char>, val: i32 },
    PutExp { key: Seq<char>, val: i32, expiration: i32 },
    Get { key: Seq<char> },
    Exists { key: Seq<char> },
    Rm { key: Seq<char> },
}

impl View for Request {
    type V = RequestView;

    open spec fn view(&self) -> RequestView {
        match self {
            Request::Put(p) => RequestView::Put { key: p.key@, val: p.val },
            Request::PutExp(p, e) => RequestView::PutExp {
                key: p.key@,
                val: p.val,
                expiration: *e,
            },
            Request::Get(p) => RequestView::Get { key: p.key@ },
            Request::Exists(p) => RequestView::Exists { key: p.key@ },
            Request::Rm(p) => RequestView::Rm { key: p.key@ },
        }
    }
}

/// The encoding of a request: the op code, then the key, then any fixed-size
/// parameters.
pub open spec fn spec_encode_request(r: RequestView) -> Seq<u8> {
    match r {
        RequestView::Put { key, val } => seq![spec_op_code(CacheOp::Put)]
            + spec_encode_string(key) + spec_u32_to_le_bytes(val as u32),
        RequestView::PutExp { key, val, expiration } => seq![spec_op_code(CacheOp::PutExp)]
            + spec_encode_string(key) + spec_u32_to_le_bytes(val as u32)
            + spec_u32_to_le_bytes(expiration as u32),
        RequestView::Get { key } => seq![spec_op_code(CacheOp::Get)] + spec_encode_string(key),
        RequestView::Exists { key } => seq![spec_op_code(CacheOp::Exists)]
            + spec_encode_string(key),
        RequestView::Rm { key } => seq![spec_op_code(CacheOp::Rm)] + spec_encode_string(key),
    }
}

/// The spec-level request parser. A message is well-formed only when its
/// payload has exactly the operation's size and a put-with-expiry carries a
/// non-negative time-to-live.
pub open spec fn spec_parse_request(b: Seq<u8>) -> Option<RequestView> {
    if b.len() < 1 {
        None
    } else {
        let rest = b.skip(1);
        if b[0] == spec_op_code(CacheOp::Put) {
            match spec_parse_string(rest) {
                None => None,
                Some((k, r1)) => if r1.len() == 4 {
                    Some(RequestView::Put {
                        key: k,
                        val: spec_u32_from_le_bytes(r1.subrange(0, 4)) as i32,
                    })
                } else {
                    None
                },
            }
        } else if b[0] == spec_op_code(CacheOp::PutExp) {
            match spec_parse_string(rest) {
                None => None,
                Some((k, r1)) => if r1.len() == 8 {
                    let expiration = spec_u32_from_le_bytes(r1.subrange(4, 8)) as i32;
                    if expiration >= 0 {
                        Some(RequestView::PutExp {
                            key: k,
                            val: spec_u32_from_le_bytes(r1.subrange(0, 4)) as i32,
                            expiration,
                        })
                    } else {
                        None
                    }
                } else {
                    None
                },
            }
        } else if b[0] == spec_op_code(CacheOp::Get) {
            match spec_parse_string(rest) {
                None => None,
                Some((k, r1)) => if r1.len() == 0 {
                    Some(RequestView::Get { key: k })
                } else {
                    None
                },
            }
        } else if b[0] == spec_op_code(CacheOp::Exists) {
            match spec_parse_string(rest) {
                None => None,
                Some((k, r1)) => if r1.len() == 0 {
                    Some(RequestView::Exists { key: k })
                } else {
                    None
                },
            }
        } else if b[0] == spec_op_code(CacheOp::Rm) {
            match spec_parse_string(rest) {
                None => None,
                Some((k, r1)) => if r1.len() == 0 {
                    Some(RequestView::Rm { key: k })
                } else {
                    None
                },
            }
        } else {
            None
        }
    }
}

/// Encode a request for the wire.
pub fn encode_request(req: &Request) -> (out: Vec<u8>)
    ensures
        out@ == spec_encode_request(req@),
{
    let mut out: Vec<u8> = Vec::new();
    match req {
        Request::Put(p) => {
            out.push(1u8);
            encode_string_into(&mut out, &p.key);
            let uv: u32 = #[verifier::truncate] (p.val as u32);
            let mut vb = u32_to_le_bytes(uv);
            out.append(&mut vb);
            proof {
                assert(out@ =~= spec_encode_request(req@));
            }
        },
        Request::PutExp(p, expiration) => {
            out.push(2u8);
            encode_string_into(&mut out, &p.key);
            let uv: u32 = #[verifier::truncate] (p.val as u32);
            let mut vb = u32_to_le_bytes(uv);
            out.append(&mut vb);
            let ue: u32 = #[verifier::truncate] (*expiration as u32);
            let mut eb = u32_to_le_bytes(ue);
            out.append(&mut eb);
            proof {
                assert(out@ =~= spec_encode_request(req@));
            }
        },
        Request::Get(p) => {
            out.push(3u8);
            encode_string_into(&mut out, &p.key);
            proof {
                assert(out@ =~= spec_encode_request(req@));
            }
        },
        Request::Exists(p) => {
            out.push(4u8);
            encode_string_into(&mut out, &p.key);
            proof {
                assert(out@ =~= spec_encode_request(req@));
            }
        },
        Request::Rm(p) => {
            out.push(5u8);
            encode_string_into(&mut out, &p.key);
            proof {
                assert(out@ =~= spec_encode_request(req@));
            }
        },
    }
    out
}

/// Decode a request from one received message. An undersized or malformed
/// message is a protocol error and leaves no other trace.
#[verifier::loop_isolation(false)]
pub fn parse_request(buf: &[u8]) -> (r: Result<Request, ProtocolError>)
    ensures
        match spec_parse_request(buf@) {
            Some(rv) => r matches Ok(req) && req@ == rv
                && (rv matches RequestView::PutExp { expiration, .. } ==> expiration >= 0),
            None => r is Err,
        },
{
    if buf.len() < 1 {
        return Err(ProtocolError::Malformed);
    }
    let op = *slice_index_get(buf, 0);
    if op < 1 || op > 5 {
        return Err(ProtocolError::Malformed);
    }
    let ks = match parse_string(buf, 1) {
        None => {
            return Err(ProtocolError::Malformed);
        },
        Some(ks) => ks,
    };
    let (key, p1) = ks;
    proof {
        assert(buf@.skip(1).skip((p1 - 1) as int) =~= buf@.skip(p1 as int));
    }
    let remaining = buf.len() - p1;
    let ghost r1 = buf@.skip(1).skip((p1 - 1) as int);
    if op == 1 {
        if remaining != 4 {
            return Err(ProtocolError::Malformed);
        }
        let vb = slice_subrange(buf, p1, p1 + 4);
        proof {
            assert(vb@ =~= r1.subrange(0, 4));
        }
        let uv = u32_from_le_bytes(vb);
        let val: i32 = #[verifier::truncate] (uv as i32);
        Ok(Request::Put(PutOpParams { key, val }))
    } else if op == 2 {
        if remaining != 8 {
            return Err(ProtocolError::Malformed);
        }
        let vb = slice_subrange(buf, p1, p1 + 4);
        let eb = slice_subrange(buf, p1 + 4, p1 + 8);
        proof {
            assert(vb@ =~= r1.subrange(0, 4));
            assert(eb@ =~= r1.subrange(4, 8));
        }
        let uv = u32_from_le_bytes(vb);
        let val: i32 = #[verifier::truncate] (uv as i32);
        let ue = u32_from_le_bytes(eb);
        let expiration: i32 = #[verifier::truncate] (ue as i32);
        if expiration < 0 {
            return Err(ProtocolError::Malformed);
        }
        Ok(Request::PutExp(PutOpParams { key, val }, expiration))
    } else {
        if remaining != 0 {
            return Err(ProtocolError::Malformed);
        }
        if op == 3 {
            Ok(Request::Get(GetOpParams { key }))
        } else if op == 4 {
            Ok(Request::Exists(GetOpParams { key }))
        } else {
            Ok(Request::Rm(GetOpParams { key }))
        }
    }
}

/// The short acknowledgement sent for put and remove requests.
pub open spec fn spec_ack() -> Seq<u8> {
    seq![111u8, 107u8]
}

/// Encode the acknowledgement (the bytes of "ok").
pub fn encode_ack() -> (out: Vec<u8>)
    ensures
        out@ == spec_ack(),
{
    let mut out: Vec<u8> = Vec::new();
    out.push(111u8);
    out.push(107u8);
    proof {
        assert(out@ =~= spec_ack());
    }
    out
}

/// Whether a received message is the acknowledgement.
pub fn is_ack(buf: &[u8]) -> (r: bool)
    ensures
        r <==> buf@ == spec_ack(),
{
    if buf.len() != 2 {
        proof {
            assert(buf@ != spec_ack());
        }
        return false;
    }
    let b0 = *slice_index_get(buf, 0);
    let b1 = *slice_index_get(buf, 1);
    if b0 == 111 && b1 == 107 {
        proof {
            assert(buf@ =~= spec_ack());
        }
        true
    } else {
        proof {
            assert(buf@ != spec_ack());
        }
        false
    }
}

/// The encoding of a get response: a presence tag, then the value if present.
pub open spec fn spec_encode_get_response(v: Option<i32>) -> Seq<u8> {
    match v {
        None => seq![0u8],
        Some(x) => seq![1u8] + spec_u32_to_le_bytes(x as u32),
    }
}

/// The spec-level get-response parser.
pub open spec fn spec_parse_get_response(b: Seq<u8>) -> Option<Option<i32>> {
    if b.len() == 1 && b[0] == 0 {
        Some(None)
    } else if b.len() == 5 && b[0] == 1 {
        Some(Some(spec_u32_from_le_bytes(b.subrange(1, 5)) as i32))
    } else {
        None
    }
}

/// Encode a get response.
pub fn encode_get_response(ret: &GetRet) -> (out: Vec<u8>)
    ensures
        out@ == spec_encode_get_response(ret.val),
{
    let mut out: Vec<u8> = Vec::new();
    match ret.val {
        None => {
            out.push(0u8);
            proof {
                assert(out@ =~= spec_encode_get_response(ret.val));
            }
        },
        Some(x) => {
            out.push(1u8);
            let ux: u32 = #[verifier::truncate] (x as u32);
            let mut xb = u32_to_le_bytes(ux);
            out.append(&mut xb);
            proof {
                assert(out@ =~= spec_encode_get_response(ret.val));
            }
        },
    }
    out
}

/// Decode a get response.
pub fn decode_get_response(buf: &[u8]) -> (r: Result<GetRet, ProtocolError>)
    ensures
        match spec_parse_get_response(buf@) {
            Some(v) => r matches Ok(ret) && ret.val == v,
            None => r is Err,
        },
{
    if buf.len() == 1 {
        let b0 = *slice_index_get(buf, 0);
        if b0 == 0 {
            return Ok(GetRet { val: None });
        }
        return Err(ProtocolError::Malformed);
    }
    if buf.len() == 5 {
        let b0 = *slice_index_get(buf, 0);
        if b0 == 1 {
            let xb = slice_subrange(buf, 1, 5);
            proof {
                assert(xb@ =~= buf@.subrange(1, 5));
            }
            let ux = u32_from_le_bytes(xb);
            let x: i32 = #[verifier::truncate] (ux as i32);
            return Ok(GetRet { val: Some(x) });
        }
        return Err(ProtocolError::Malformed);
    }
    Err(ProtocolError::Malformed)
}

/// The encoding of an exists response: one boolean byte.
pub open spec fn spec_encode_bool_response(b: bool) -> Seq<u8> {
    seq![if b { 1u8 } else { 0u8 }]
}

/// Encode an exists response.
pub fn encode_bool_response(b: bool) -> (out: Vec<u8>)
    ensures
        out@ == spec_encode_bool_response(b),
{
    let mut out: Vec<u8> = Vec::new();
    if b {
        out.push(1u8);
    } else {
        out.push(0u8);
    }
    proof {
        assert(out@ =~= spec_encode_bool_response(b));
    }
    out
}

/// Decode an exists response.
pub fn decode_bool_response(buf: &[u8]) -> (r: Result<bool, ProtocolError>)
    ensures
        match r {
            Ok(b) => buf@ == spec_encode_bool_response(b),
            Err(_) => buf@ != spec_encode_bool_response(true)
                && buf@ != spec_encode_bool_response(false),
        },
{
    if buf.len() != 1 {
        proof {
            assert(buf@ != spec_encode_bool_response(true));
            assert(buf@ != spec_encode_bool_response(false));
        }
        return Err(ProtocolError::Malformed);
    }
    let b0 = *slice_index_get(buf, 0);
    if b0 == 1 {
        proof {
            assert(buf@ =~= spec_encode_bool_response(true));
        }
        Ok(true)
    } else if b0 == 0 {
        proof {
            assert(buf@ =~= spec_encode_bool_response(false));
        }
        Ok(false)
    } else {
        proof {
            assert(buf@ != spec_encode_bool_response(true));
            assert(buf@ != spec_encode_bool_response(false));
        }
        Err(ProtocolError::Malformed)
    }
}

/// Server-side dispatch of one received message at time `now`: decode the
/// request, apply it to the local engine, and encode the response. A message
/// that does not decode leaves the cache untouched and yields a protocol
/// error for this connection alone.
pub fn handle_request(cache: &mut ThreadSafeCacheImpl, buf: &[u8], now: u64) -> (r: Result<
    Vec<u8>,
    ProtocolError,
>)
    requires
        old(cache).inv(),
    ensures
        final(cache).inv(),
        final(cache).max_size == old(cache).max_size,
        match spec_parse_request(buf@) {
            Some(req) => r matches Ok(out) && match req {
                RequestView::Put { key, val } => out@ == spec_ack()
                    && final(cache).store() == old(cache).pre_insert_store().insert(
                        key,
                        (val, spec_expiry(now, DEFAULT_TTL_MS)),
                    ),
                RequestView::PutExp { key, val, expiration } => out@ == spec_ack()
                    && final(cache).store() == old(cache).pre_insert_store().insert(
                        key,
                        (val, spec_expiry(now, expiration as u64)),
                    ),
                RequestView::Get { key } => out@ == spec_encode_get_response(
                    spec_get(old(cache).store(), key, now),
                ) && *final(cache) == *old(cache),
                RequestView::Exists { key } => out@ == spec_encode_bool_response(
                    old(cache).store().dom().contains(key),
                ) && *final(cache) == *old(cache),
                RequestView::Rm { key } => out@ == spec_ack()
                    && final(cache).store() == old(cache).store().remove(key),
            },
            None => r is Err && *final(cache) == *old(cache),
        },
{
    match parse_request(buf) {
        Err(e) => Err(e),
        Ok(req) => match req {
            Request::Put(p) => {
                cache.put_at(p.key, p.val, now);
                Ok(encode_ack())
            },
            Request::PutExp(p, expiration) => {
                cache.put_exp_at(p.key, p.val, expiration, now);
                Ok(encode_ack())
            },
            Request::Get(p) => {
                let v = cache.get_at(&p.key, now);
                Ok(encode_get_response(&GetRet { val: v }))
            },
            Request::Exists(p) => {
                let b = cache.has_key(&p.key);
                Ok(encode_bool_response(b))
            },
            Request::Rm(p) => {
                cache.remove_key(&p.key);
                Ok(encode_ack())
            },
        },
    }
}

/// Wire request round-trip law: every encoded request parses back to itself.
pub proof fn lemma_request_round_trip(r: RequestView)
    requires
        match r {
            RequestView::Put { key, .. } => encode_utf8(key).len() <= u64::MAX,
            RequestView::PutExp { key, expiration, .. } => encode_utf8(key).len() <= u64::MAX
                && expiration >= 0,
            RequestView::Get { key } => encode_utf8(key).len() <= u64::MAX,
            RequestView::Exists { key } => encode_utf8(key).len() <= u64::MAX,
            RequestView::Rm { key } => encode_utf8(key).len() <= u64::MAX,
        },
    ensures
        spec_parse_request(spec_encode_request(r)) == Some(r),
{
    lemma_auto_spec_u32_to_from_le_bytes();
    let b = spec_encode_request(r);
    match r {
        RequestView::Put { key, val } => {
            let vb = spec_u32_to_le_bytes(val as u32);
            assert(b.skip(1) =~= spec_encode_string(key) + vb);
            crate::codec::lemma_parse_string_encode(key, vb);
            assert(vb.subrange(0, 4) =~= vb);
            assert(((val as u32) as i32) == val) by (bit_vector);
        },
        RequestView::PutExp { key, val, expiration } => {
            let vb = spec_u32_to_le_bytes(val as u32);
            let eb = spec_u32_to_le_bytes(expiration as u32);
            assert(b.skip(1) =~= spec_encode_string(key) + (vb + eb));
            crate::codec::lemma_parse_string_encode(key, vb + eb);
            assert((vb + eb).subrange(0, 4) =~= vb);
            assert((vb + eb).subrange(4, 8) =~= eb);
            assert(((val as u32) as i32) == val) by (bit_vector);
            assert(((expiration as u32) as i32) == expiration) by (bit_vector);
        },
        RequestView::Get { key } => {
            assert(b.skip(1) =~= spec_encode_string(key) + Seq::<u8>::empty());
            crate::codec::lemma_parse_string_encode(key, Seq::<u8>::empty());
        },
        RequestView::Exists { key } => {
            assert(b.skip(1) =~= spec_encode_string(key) + Seq::<u8>::empty());
            crate::codec::lemma_parse_string_encode(key, Seq::<u8>::empty());
        },
        RequestView::Rm { key } => {
            assert(b.skip(1) =~= spec_encode_string(key) + Seq::<u8>::empty());
            crate::codec::lemma_parse_string_encode(key, Seq::<u8>::empty());
        },
    }
}

/// Get-response round-trip law: every encoded response parses back to itself.
pub proof fn lemma_get_response_round_trip(v: Option<i32>)
    ensures
        spec_parse_get_response(spec_encode_get_response(v)) == Some(v),
{
    lemma_auto_spec_u32_to_from_le_bytes();
    match v {
        None => {},
        Some(x) => {
            let b = spec_encode_get_response(v);
            assert(b.subrange(1, 5) =~= spec_u32_to_le_bytes(x as u32));
            assert(((x as u32) as i32) == x) by (bit_vector);
        },
    }
}

/// Remote round-trip law: the put and get messages a client sends both parse
/// back to themselves on the server, dispatching the put makes the store hold
/// `(val, now + default time-to-live)` under `key`, and the server's reply to
/// the following get, decoded by the client, is `Some(val)` at any time
/// before that expiry — matching the local engine on the same sequence.
pub proof fn lemma_remote_round_trip(
    pre: ThreadSafeCacheImpl,
    key: Seq<char>,
    val: i32,
    now_put: u64,
    now_get: u64,
)
    requires
        encode_utf8(key).len() <= u64::MAX,
        now_get < spec_expiry(now_put, DEFAULT_TTL_MS),
    ensures
        spec_parse_request(spec_encode_request(RequestView::Put { key, val }))
            == Some(RequestView::Put { key, val }),
        spec_parse_request(spec_encode_request(RequestView::Get { key }))
            == Some(RequestView::Get { key }),
        spec_get(
            pre.pre_insert_store().insert(key, (val, spec_expiry(now_put, DEFAULT_TTL_MS))),
            key,
            now_get,
        ) == Some(val),
        spec_parse_get_response(spec_encode_get_response(Some(val))) == Some(Some(val)),
{
    lemma_request_round_trip(RequestView::Put { key, val });
    lemma_request_round_trip(RequestView::Get { key });
    crate::engine::lemma_default_ttl(pre.pre_insert_store(), key, val, now_put, now_get);
    lemma_get_response_round_trip(Some(val));
}

} // verus!
