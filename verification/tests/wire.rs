use thread_safe_cache::codec::PersistenceError;
use thread_safe_cache::engine::ThreadSafeCacheImpl;
use thread_safe_cache::network::{
    decode_bool_response, decode_get_response, encode_request, handle_request, is_ack, CacheOp,
    GetOpParams, ProtocolError, PutOpParams, Request,
};
use thread_safe_cache::BuilderEmbedded;

fn build_cache(max_size: i32) -> ThreadSafeCacheImpl {
    let mut builder: BuilderEmbedded = BuilderEmbedded::init();
    builder.max_size(max_size);
    builder.build()
}

#[test]
fn op_codes() {
    assert_eq!(CacheOp::Put.op_code(), 1);
    assert_eq!(CacheOp::PutExp.op_code(), 2);
    assert_eq!(CacheOp::Get.op_code(), 3);
    assert_eq!(CacheOp::Exists.op_code(), 4);
    assert_eq!(CacheOp::Rm.op_code(), 5);
}

#[test]
fn remote_round_trip() {
    let mut cache = build_cache(100);
    let t0: u64 = 1_000_000;

    let put = Request::Put(PutOpParams { key: "hello world".to_string(), val: 7 });
    let msg = encode_request(&put);
    let resp = handle_request(&mut cache, msg.as_slice(), t0).unwrap();
    assert!(is_ack(resp.as_slice()));

    let get = Request::Get(GetOpParams { key: "hello world".to_string() });
    let msg2 = encode_request(&get);
    let resp2 = handle_request(&mut cache, msg2.as_slice(), t0 + 50).unwrap();
    let ret = decode_get_response(resp2.as_slice()).unwrap();
    assert_eq!(ret.val, Some(7));

    // the same sequence against the local engine gives the same answer
    let mut local = build_cache(100);
    local.put_at("hello world".to_string(), 7, t0);
    assert_eq!(local.get_at(&"hello world".to_string(), t0 + 50), ret.val);
}

#[test]
fn remote_all_ops() {
    let mut cache = build_cache(100);
    let t0: u64 = 1_000_000;

    let put_exp = Request::PutExp(PutOpParams { key: "b".to_string(), val: 2 }, 1000);
    let msg = encode_request(&put_exp);
    let resp = handle_request(&mut cache, msg.as_slice(), t0).unwrap();
    assert!(is_ack(resp.as_slice()));

    let exists = Request::Exists(GetOpParams { key: "b".to_string() });
    let msg2 = encode_request(&exists);
    let resp2 = handle_request(&mut cache, msg2.as_slice(), t0 + 10).unwrap();
    assert_eq!(decode_bool_response(resp2.as_slice()).unwrap(), true);

    let get = Request::Get(GetOpParams { key: "b".to_string() });
    let msg3 = encode_request(&get);
    let resp3 = handle_request(&mut cache, msg3.as_slice(), t0 + 2000).unwrap();
    assert_eq!(decode_get_response(resp3.as_slice()).unwrap().val, None);

    let rm = Request::Rm(GetOpParams { key: "b".to_string() });
    let msg4 = encode_request(&rm);
    let resp4 = handle_request(&mut cache, msg4.as_slice(), t0 + 2000).unwrap();
    assert!(is_ack(resp4.as_slice()));

    let msg5 = encode_request(&exists);
    let resp5 = handle_request(&mut cache, msg5.as_slice(), t0 + 2000).unwrap();
    assert_eq!(decode_bool_response(resp5.as_slice()).unwrap(), false);
}

#[test]
fn malformed_messages() {
    let mut cache = build_cache(100);
    let t0: u64 = 1_000_000;
    // empty message
    assert_eq!(handle_request(&mut cache, &[], t0), Err(ProtocolError::Malformed));
    // unknown op code
    assert_eq!(handle_request(&mut cache, &[9, 0, 0], t0), Err(ProtocolError::Malformed));
    // undersized payload for a put
    assert_eq!(handle_request(&mut cache, &[1, 3, 0], t0), Err(ProtocolError::Malformed));
    // the cache is unaffected
    assert_eq!(cache.current_size, 0);
}

#[test]
fn snapshot_rejects_corrupt_blob() {
    let mut cache = build_cache(100);
    // truncated blob
    assert_eq!(cache.load_bytes(&[1, 2, 3]), Err(PersistenceError::Corrupt));
    // wrong version byte
    let t0: u64 = 1_000_000;
    cache.put_at("a".to_string(), 1, t0);
    let mut blob = cache.save_bytes();
    blob[0] = 0;
    let mut fresh = build_cache(100);
    assert_eq!(fresh.load_bytes(blob.as_slice()), Err(PersistenceError::Corrupt));
    assert_eq!(fresh.current_size, 0);
}

#[test]
fn snapshot_unicode_key() {
    let mut cache = build_cache(100);
    let t0: u64 = 1_000_000;
    cache.put_at("clé düne".to_string(), 42, t0);
    let blob = cache.save_bytes();
    let mut fresh = build_cache(100);
    fresh.load_bytes(blob.as_slice()).unwrap();
    assert_eq!(fresh.get_at(&"clé düne".to_string(), t0 + 5), Some(42));
}

#[test]
fn snapshot_rebuilds_expiration_index() {
    let mut cache = build_cache(100);
    let t0: u64 = 1_000_000;
    cache.put_exp_at("soon".to_string(), 1, 100, t0);
    cache.put_exp_at("later".to_string(), 2, 10_000, t0);
    let blob = cache.save_bytes();
    let mut fresh = build_cache(100);
    fresh.load_bytes(blob.as_slice()).unwrap();
    assert_eq!(fresh.current_size, 2);
    // the sweeper still works after a load: the due entry is reclaimed
    fresh.clean_at(t0 + 5_000);
    assert!(!fresh.has_key(&"soon".to_string()));
    assert!(fresh.has_key(&"later".to_string()));
}
