//! Byte codecs shared by the snapshot format and the wire protocol: strings
//! are framed by a little-endian length, values and timestamps are fixed-size
//! little-endian integers. Every encoder has a spec-level counterpart, every
//! decoder is proved to agree with a spec-level parser, and decoding an
//! encoding is proved to give back what was encoded.

use vstd::bytes::*;
use vstd::prelude::*;
use vstd::slice::*;
use vstd::utf8::*;

use crate::engine::{distinct_entry_keys, entries_map, lemma_entries_map_contains, CacheEntry};

verus! {

/// A failure of a snapshot save or load: the source was missing, or its
/// bytes do not decode as a snapshot.
#[derive(Clone, Copy, Debug, PartialEq, Eq, Structural)]
pub enum PersistenceError {
    NotFound,
    Corrupt,
}

/// The leading byte of every snapshot blob, so that later revisions of the
/// format can be told apart.
pub const SNAPSHOT_VERSION: u8 = 1;

/// Relies on `String::from_utf8`: returns the string whose UTF-8 encoding is
/// exactly the given bytes, and nothing when they are not valid UTF-8.
#[verifier::external_body]
pub(crate) fn string_from_utf8(bytes: Vec<u8>) -> (r: Option<String>)
    ensures
        match r {
            Some(s) => valid_utf8(bytes@) && s@ == decode_utf8(bytes@),
            None => !valid_utf8(bytes@),
        },
{
    match String::from_utf8(bytes) {
        Ok(s) => Some(s),
        Err(_) => None,
    }
}

/// The encoding of one string: its UTF-8 bytes, preceded by their count as a
/// little-endian 64-bit length.
pub open spec fn spec_encode_string(k: Seq<char>) -> Seq<u8> {
    spec_u64_to_le_bytes(encode_utf8(k).len() as u64) + encode_utf8(k)
}

/// The spec-level string parser: reads the length, takes that many bytes,
/// and decodes them as UTF-8, handing back the remainder of the input.
pub open spec fn spec_parse_string(b: Seq<u8>) -> Option<(Seq<char>, Seq<u8>)> {
    if b.len() < 8 {
        None
    } else {
        let n = spec_u64_from_le_bytes(b.subrange(0, 8)) as int;
        if b.len() < 8 + n {
            None
        } else {
            let kb = b.subrange(8, 8 + n);
            if valid_utf8(kb) {
                Some((decode_utf8(kb), b.skip(8 + n)))
            } else {
                None
            }
        }
    }
}

/// Parsing an encoded string gives back the string and the bytes after it.
pub proof fn lemma_parse_string_encode(k: Seq<char>, rest: Seq<u8>)
    requires
        encode_utf8(k).len() <= u64::MAX,
    ensures
        spec_parse_string(spec_encode_string(k) + rest) == Some((k, rest)),
{
    lemma_auto_spec_u64_to_from_le_bytes();
    let kb = encode_utf8(k);
    let b = spec_encode_string(k) + rest;
    assert(b.subrange(0, 8) =~= spec_u64_to_le_bytes(kb.len() as u64));
    assert(spec_u64_from_le_bytes(b.subrange(0, 8)) == kb.len() as u64);
    assert(b.len() >= 8 + kb.len());
    assert(b.subrange(8, 8 + kb.len() as int) =~= kb);
    encode_utf8_valid_utf8(k);
    encode_utf8_decode_utf8(k);
    assert(b.skip(8 + kb.len() as int) =~= rest);
}

/// Append the encoding of `key` to `out`.
pub(crate) fn encode_string_into(out: &mut Vec<u8>, key: &String)
    ensures
        final(out)@ == old(out)@ + spec_encode_string(key@),
{
    let kb = key.as_str().as_bytes_vec();
    let mut lenb = u64_to_le_bytes(kb.len() as u64);
    out.append(&mut lenb);
    let mut kbm = kb;
    out.append(&mut kbm);
    proof {
        assert(final(out)@ =~= old(out)@ + spec_encode_string(key@));
    }
}

/// Parse a length-framed string from `buf` starting at `pos`; on success the
/// returned position is just past the string.
pub(crate) fn parse_string(buf: &[u8], pos: usize) -> (r: Option<(String, usize)>)
    requires
        pos <= buf@.len(),
    ensures
        match r {
            Some(v) => pos <= v.1 <= buf@.len()
                && spec_parse_string(buf@.skip(pos as int))
                    == Some((v.0@, buf@.skip(v.1 as int))),
            None => spec_parse_string(buf@.skip(pos as int)) is None,
        },
{
    let ghost tail = buf@.skip(pos as int);
    if buf.len() - pos < 8 {
        return None;
    }
    let lenb = slice_subrange(buf, pos, pos + 8);
    proof {
        assert(lenb@ =~= tail.subrange(0, 8));
    }
    let n64 = u64_from_le_bytes(lenb);
    if n64 > (buf.len() - (pos + 8)) as u64 {
        return None;
    }
    let n = n64 as usize;
    let kb = slice_subrange(buf, pos + 8, pos + 8 + n);
    proof {
        assert(kb@ =~= tail.subrange(8, 8 + n64 as int));
    }
    let kv = slice_to_vec(kb);
    match string_from_utf8(kv) {
        Some(s) => {
            proof {
                assert(buf@.skip((pos + 8 + n) as int) =~= tail.skip(8 + n64 as int));
            }
            Some((s, pos + 8 + n))
        },
        None => None,
    }
}

/// The encoding of one entry: the key string, the value as 4 little-endian
/// bytes, and the expiry as 8 little-endian bytes.
pub open spec fn spec_encode_entry(k: Seq<char>, v: i32, e: u64) -> Seq<u8> {
    spec_encode_string(k) + spec_u32_to_le_bytes(v as u32) + spec_u64_to_le_bytes(e)
}

/// The spec-level entry parser.
pub open spec fn spec_parse_entry(b: Seq<u8>) -> Option<((Seq<char>, i32, u64), Seq<u8>)> {
    match spec_parse_string(b) {
        None => None,
        Some((k, r1)) => {
            if r1.len() < 12 {
                None
            } else {
                let v = spec_u32_from_le_bytes(r1.subrange(0, 4)) as i32;
                let e = spec_u64_from_le_bytes(r1.subrange(4, 12));
                Some(((k, v, e), r1.skip(12)))
            }
        },
    }
}

/// Parsing an encoded entry gives back the entry and the bytes after it.
pub proof fn lemma_parse_entry_encode(k: Seq<char>, v: i32, e: u64, rest: Seq<u8>)
    requires
        encode_utf8(k).len() <= u64::MAX,
    ensures
        spec_parse_entry(spec_encode_entry(k, v, e) + rest) == Some(((k, v, e), rest)),
{
    let vb = spec_u32_to_le_bytes(v as u32);
    let eb = spec_u64_to_le_bytes(e);
    lemma_auto_spec_u32_to_from_le_bytes();
    lemma_auto_spec_u64_to_from_le_bytes();
    assert(spec_encode_entry(k, v, e) + rest =~= spec_encode_string(k) + (vb + eb + rest));
    lemma_parse_string_encode(k, vb + eb + rest);
    let r1 = vb + eb + rest;
    assert(r1.subrange(0, 4) =~= vb);
    assert(r1.subrange(4, 12) =~= eb);
    assert(((v as u32) as i32) == v) by (bit_vector);
    assert(r1.skip(12) =~= rest);
}

/// Append the encoding of one entry to `out`.
fn encode_entry_into(out: &mut Vec<u8>, key: &String, val: i32, expires_at: u64)
    ensures
        final(out)@ == old(out)@ + spec_encode_entry(key@, val, expires_at),
{
    encode_string_into(out, key);
    let uv: u32 = #[verifier::truncate] (val as u32);
    let mut vb = u32_to_le_bytes(uv);
    out.append(&mut vb);
    let mut eb = u64_to_le_bytes(expires_at);
    out.append(&mut eb);
    proof {
        assert(final(out)@ =~= old(out)@ + spec_encode_entry(key@, val, expires_at));
    }
}

/// Parse one entry from `buf` starting at `pos`.
fn parse_entry(buf: &[u8], pos: usize) -> (r: Option<(CacheEntry, usize)>)
    requires
        pos <= buf@.len(),
    ensures
        match r {
            Some(v) => pos <= v.1 <= buf@.len()
                && spec_parse_entry(buf@.skip(pos as int))
                    == Some(((v.0.key@, v.0.val, v.0.expires_at), buf@.skip(v.1 as int))),
            None => spec_parse_entry(buf@.skip(pos as int)) is None,
        },
{
    let ghost tail = buf@.skip(pos as int);
    match parse_string(buf, pos) {
        None => None,
        Some((key, p1)) => {
            let ghost r1 = buf@.skip(p1 as int);
            if buf.len() - p1 < 12 {
                return None;
            }
            let vb = slice_subrange(buf, p1, p1 + 4);
            let eb = slice_subrange(buf, p1 + 4, p1 + 12);
            proof {
                assert(vb@ =~= r1.subrange(0, 4));
                assert(eb@ =~= r1.subrange(4, 12));
            }
            let uv = u32_from_le_bytes(vb);
            let val: i32 = #[verifier::truncate] (uv as i32);
            let expires_at = u64_from_le_bytes(eb);
            proof {
                assert(buf@.skip((p1 + 12) as int) =~= r1.skip(12));
                assert((spec_u32_from_le_bytes(r1.subrange(0, 4)) as i32) == val);
            }
            Some((CacheEntry { key, val, expires_at }, p1 + 12))
        },
    }
}

/// The entry triples carried by a sequence of entries.
pub open spec fn triples_of(s: Seq<CacheEntry>) -> Seq<(Seq<char>, i32, u64)> {
    Seq::new(s.len(), |i: int| (s[i].key@, s[i].val, s[i].expires_at))
}

/// The encoding of a sequence of entries, one after the other.
pub open spec fn spec_encode_entries(s: Seq<CacheEntry>) -> Seq<u8>
    decreases s.len(),
{
    if s.len() == 0 {
        Seq::empty()
    } else {
        spec_encode_entry(s[0].key@, s[0].val, s[0].expires_at) + spec_encode_entries(s.drop_first())
    }
}

/// The spec-level parser for exactly `n` entries.
pub open spec fn spec_parse_entries(b: Seq<u8>, n: nat) -> Option<(Seq<(Seq<char>, i32, u64)>, Seq<u8>)>
    decreases n,
{
    if n == 0 {
        Some((Seq::empty(), b))
    } else {
        match spec_parse_entry(b) {
            None => None,
            Some((t, rest)) => match spec_parse_entries(rest, (n - 1) as nat) {
                None => None,
                Some((ts, rest2)) => Some((seq![t] + ts, rest2)),
            },
        }
    }
}

/// Parsing the encoding of `n` entries gives back exactly those entries.
pub proof fn lemma_parse_entries_encode(s: Seq<CacheEntry>, rest: Seq<u8>)
    requires
        forall|i: int| 0 <= i < s.len() ==> encode_utf8((#[trigger] s[i]).key@).len() <= u64::MAX,
    ensures
        spec_parse_entries(spec_encode_entries(s) + rest, s.len() as nat)
            == Some((triples_of(s), rest)),
    decreases s.len(),
{
    if s.len() == 0 {
        assert(spec_encode_entries(s) + rest =~= rest);
        assert(triples_of(s) =~= Seq::<(Seq<char>, i32, u64)>::empty());
    } else {
        let t0 = (s[0].key@, s[0].val, s[0].expires_at);
        let e0 = spec_encode_entry(s[0].key@, s[0].val, s[0].expires_at);
        let tailenc = spec_encode_entries(s.drop_first());
        assert(spec_encode_entries(s) + rest =~= e0 + (tailenc + rest));
        lemma_parse_entry_encode(s[0].key@, s[0].val, s[0].expires_at, tailenc + rest);
        assert(forall|i: int| 0 <= i < s.drop_first().len()
            ==> encode_utf8((#[trigger] s.drop_first()[i]).key@).len() <= u64::MAX);
        lemma_parse_entries_encode(s.drop_first(), rest);
        assert(triples_of(s) =~= seq![t0] + triples_of(s.drop_first()));
    }
}

/// No two parsed triples share a key.
pub open spec fn distinct_triple_keys(ts: Seq<(Seq<char>, i32, u64)>) -> bool {
    forall|i: int, j: int| 0 <= i < j < ts.len() ==> ts[i].0 != ts[j].0
}

/// The map a sequence of parsed triples describes.
pub open spec fn triples_map(ts: Seq<(Seq<char>, i32, u64)>) -> Map<Seq<char>, (i32, u64)>
    decreases ts.len(),
{
    if ts.len() == 0 {
        Map::empty()
    } else {
        triples_map(ts.drop_last()).insert(ts.last().0, (ts.last().1, ts.last().2))
    }
}

/// The map of a sequence of entries is the map of its triples.
pub proof fn lemma_entries_map_is_triples_map(s: Seq<CacheEntry>)
    ensures
        entries_map(s) == triples_map(triples_of(s)),
    decreases s.len(),
{
    if s.len() > 0 {
        lemma_entries_map_is_triples_map(s.drop_last());
        assert(triples_of(s.drop_last()) =~= triples_of(s).drop_last());
    } else {
        assert(triples_of(s) =~= Seq::<(Seq<char>, i32, u64)>::empty());
    }
}

/// The full snapshot encoding: a version byte, the entry count as 8
/// little-endian bytes, then every entry in sequence.
pub open spec fn spec_encode_snapshot(s: Seq<CacheEntry>) -> Seq<u8> {
    seq![SNAPSHOT_VERSION] + spec_u64_to_le_bytes(s.len() as u64) + spec_encode_entries(s)
}

/// The spec-level snapshot parser: the version must match, the declared
/// number of entries must consume the whole blob, and keys must be unique.
pub open spec fn spec_parse_snapshot(b: Seq<u8>) -> Option<Seq<(Seq<char>, i32, u64)>> {
    if b.len() < 9 || b[0] != SNAPSHOT_VERSION {
        None
    } else {
        let n = spec_u64_from_le_bytes(b.subrange(1, 9));
        match spec_parse_entries(b.skip(9), n as nat) {
            None => None,
            Some((ts, rest)) => {
                if rest.len() == 0 && distinct_triple_keys(ts) {
                    Some(ts)
                } else {
                    None
                }
            },
        }
    }
}

/// Extending the encoded prefix by one entry appends that entry's encoding.
pub proof fn lemma_encode_entries_snoc(s: Seq<CacheEntry>, i: int)
    requires
        0 <= i < s.len(),
    ensures
        spec_encode_entries(s.take(i + 1))
            == spec_encode_entries(s.take(i))
                + spec_encode_entry(s[i].key@, s[i].val, s[i].expires_at),
    decreases i,
{
    let e = spec_encode_entry(s[i].key@, s[i].val, s[i].expires_at);
    if i == 0 {
        reveal_with_fuel(spec_encode_entries, 2);
        assert(s.take(1).drop_first() =~= Seq::<CacheEntry>::empty());
        assert(s.take(0) =~= Seq::<CacheEntry>::empty());
        assert(spec_encode_entries(s.take(1)) =~= Seq::<u8>::empty() + e);
        assert(Seq::<u8>::empty() + e =~= e);
        assert(spec_encode_entries(s.take(0)) + e =~= e);
    } else {
        lemma_encode_entries_snoc(s.drop_first(), i - 1);
        assert(s.take(i + 1).drop_first() =~= s.drop_first().take(i));
        assert(s.take(i).drop_first() =~= s.drop_first().take(i - 1));
        let e0 = spec_encode_entry(s[0].key@, s[0].val, s[0].expires_at);
        assert(s.drop_first()[i - 1] == s[i]);
        assert(spec_encode_entries(s.take(i + 1))
            =~= e0 + (spec_encode_entries(s.drop_first().take(i - 1)) + e));
        assert(spec_encode_entries(s.take(i))
            =~= e0 + spec_encode_entries(s.drop_first().take(i - 1)));
        assert(e0 + (spec_encode_entries(s.drop_first().take(i - 1)) + e)
            =~= (e0 + spec_encode_entries(s.drop_first().take(i - 1))) + e);
    }
}

impl crate::engine::ThreadSafeCacheImpl {
    /// Serialize the current entry store into one snapshot blob.
    pub fn save_bytes(&self) -> (out: Vec<u8>)
        ensures
            out@ == spec_encode_snapshot(self.cache@),
    {
        let mut out: Vec<u8> = Vec::new();
        out.push(SNAPSHOT_VERSION);
        let mut cnt = u64_to_le_bytes(self.cache.len() as u64);
        out.append(&mut cnt);
        proof {
            assert(self.cache@.take(0) =~= Seq::<CacheEntry>::empty());
            assert(out@ =~= seq![SNAPSHOT_VERSION]
                + spec_u64_to_le_bytes(self.cache@.len() as u64)
                + spec_encode_entries(self.cache@.take(0)));
        }
        let mut i: usize = 0;
        while i < self.cache.len()
            invariant
                i <= self.cache@.len(),
                out@ == seq![SNAPSHOT_VERSION]
                    + spec_u64_to_le_bytes(self.cache@.len() as u64)
                    + spec_encode_entries(self.cache@.take(i as int)),
            decreases self.cache@.len() - i,
        {
            let val = self.cache[i].val;
            let expires_at = self.cache[i].expires_at;
            encode_entry_into(&mut out, &self.cache[i].key, val, expires_at);
            proof {
                lemma_encode_entries_snoc(self.cache@, i as int);
                assert(out@ =~= seq![SNAPSHOT_VERSION]
                    + spec_u64_to_le_bytes(self.cache@.len() as u64)
                    + spec_encode_entries(self.cache@.take(i as int + 1)));
            }
            i = i + 1;
        }
        proof {
            assert(self.cache@.take(self.cache@.len() as int) =~= self.cache@);
        }
        out
    }

    /// Decode a snapshot blob and replace the cache contents with it: the
    /// occupancy count is recomputed as the decoded entry count and the
    /// expiration index is rebuilt from the decoded expiry timestamps, so
    /// eviction and sweeping keep working after a load. A blob that does not
    /// parse, leaves bytes over, or holds a key twice is rejected and the
    /// state is left unchanged.
    #[verifier::loop_isolation(false)]
    pub fn load_bytes(&mut self, buf: &[u8]) -> (r: Result<(), PersistenceError>)
        requires
            old(self).inv(),
        ensures
            final(self).inv(),
            final(self).max_size == old(self).max_size,
            match spec_parse_snapshot(buf@) {
                Some(ts) => r is Ok
                    && final(self).store() == triples_map(ts)
                    && final(self).current_size == ts.len(),
                None => r is Err && *final(self) == *old(self),
            },
    {
        let ghost pre = *old(self);
        if buf.len() < 9 {
            return Err(PersistenceError::Corrupt);
        }
        let v0 = *slice_index_get(buf, 0);
        if v0 != SNAPSHOT_VERSION {
            return Err(PersistenceError::Corrupt);
        }
        let cb = slice_subrange(buf, 1, 9);
        proof {
            assert(cb@ =~= buf@.subrange(1, 9));
        }
        let count = u64_from_le_bytes(cb);
        let mut entries: Vec<CacheEntry> = Vec::new();
        let mut pos: usize = 9;
        let mut i: u64 = 0;
        while i < count
            invariant
                9 <= pos <= buf@.len(),
                i <= count,
                entries@.len() == i,
                match spec_parse_entries(buf@.skip(pos as int), (count - i) as nat) {
                    None => spec_parse_entries(buf@.skip(9), count as nat) is None,
                    Some(pr) => spec_parse_entries(buf@.skip(9), count as nat)
                        == Some((triples_of(entries@) + pr.0, pr.1)),
                },
            decreases count - i,
        {
            let ghost epre = entries@;
            match parse_entry(buf, pos) {
                None => {
                    return Err(PersistenceError::Corrupt);
                },
                Some((e, newpos)) => {
                    proof {
                        let t = (e.key@, e.val, e.expires_at);
                        match spec_parse_entries(buf@.skip(newpos as int), (count - i - 1) as nat) {
                            None => {},
                            Some(pr) => {
                                assert(triples_of(epre.push(e)) + pr.0
                                    =~= triples_of(epre) + (seq![t] + pr.0));
                            },
                        }
                    }
                    entries.push(e);
                    pos = newpos;
                    i = i + 1;
                },
            }
        }
        proof {
            assert(triples_of(entries@) + Seq::<(Seq<char>, i32, u64)>::empty()
                =~= triples_of(entries@));
            assert(spec_parse_entries(buf@.skip(9), count as nat)
                == Some((triples_of(entries@), buf@.skip(pos as int))));
        }
        if pos != buf.len() {
            return Err(PersistenceError::Corrupt);
        }
        let mut a: usize = 1;
        while a < entries.len()
            invariant
                1 <= a,
                forall|x: int, y: int| 0 <= x < y < a && y < entries@.len()
                    ==> entries@[x].key@ != entries@[y].key@,
            decreases entries@.len() - a,
        {
            let mut b: usize = 0;
            while b < a
                invariant
                    b <= a < entries@.len(),
                    forall|x: int| 0 <= x < b ==> entries@[x].key@ != entries@[a as int].key@,
                decreases a - b,
            {
                if entries[b].key == entries[a].key {
                    proof {
                        assert(triples_of(entries@)[b as int].0 == triples_of(entries@)[a as int].0);
                        assert(!distinct_triple_keys(triples_of(entries@)));
                    }
                    return Err(PersistenceError::Corrupt);
                }
                b = b + 1;
            }
            a = a + 1;
        }
        proof {
            assert forall|x: int, y: int| 0 <= x < y < entries@.len()
                implies entries@[x].key@ != entries@[y].key@ by {}
            assert(distinct_entry_keys(entries@));
            assert forall|x: int, y: int| 0 <= x < y < triples_of(entries@).len()
                implies triples_of(entries@)[x].0 != triples_of(entries@)[y].0 by {}
            assert(spec_parse_snapshot(buf@) == Some(triples_of(entries@)));
        }
        self.cache = Vec::new();
        self.expiration_set = Vec::new();
        self.current_size = 0;
        proof {
            assert(self.inv());
            assert(entries@.take(0) =~= Seq::<CacheEntry>::empty());
        }
        let mut idx: usize = 0;
        while idx < entries.len()
            invariant
                self.inv(),
                self.max_size == pre.max_size,
                idx <= entries@.len(),
                distinct_entry_keys(entries@),
                self.store() == entries_map(entries@.take(idx as int)),
                self.current_size == idx,
            decreases entries@.len() - idx,
        {
            proof {
                lemma_entries_map_contains(entries@.take(idx as int), entries@[idx as int].key@);
                assert(entries@.take(idx as int + 1).drop_last() =~= entries@.take(idx as int));
            }
            let e = &entries[idx];
            self.insert_fresh(e.key.clone(), e.val, e.expires_at);
            idx = idx + 1;
        }
        proof {
            assert(entries@.take(entries@.len() as int) =~= entries@);
            lemma_entries_map_is_triples_map(entries@);
        }
        Ok(())
    }
}

/// Snapshot round-trip law: decoding the encoding of any duplicate-free
/// entry sequence yields exactly its entries.
pub proof fn lemma_snapshot_round_trip(s: Seq<CacheEntry>)
    requires
        distinct_entry_keys(s),
        s.len() <= u64::MAX,
        forall|i: int| 0 <= i < s.len() ==> encode_utf8((#[trigger] s[i]).key@).len() <= u64::MAX,
    ensures
        spec_parse_snapshot(spec_encode_snapshot(s)) == Some(triples_of(s)),
{
    lemma_auto_spec_u64_to_from_le_bytes();
    let b = spec_encode_snapshot(s);
    assert(b[0] == SNAPSHOT_VERSION);
    assert(b.subrange(1, 9) =~= spec_u64_to_le_bytes(s.len() as u64));
    assert(b.skip(9) =~= spec_encode_entries(s) + Seq::<u8>::empty());
    lemma_parse_entries_encode(s, Seq::<u8>::empty());
}

} // verus!
