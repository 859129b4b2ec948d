//! The on-disk record format: `key_len key value_len value`, both lengths
//! as 4-byte little-endian unsigned integers.
use vstd::prelude::*;

verus! {

/// The largest key or value length that a record can carry.
pub const MAX_FIELD_LEN: u32 = 0xffff_ffff;

/// The little-endian `u32` that starts at byte `i` of `s`.
pub open spec fn le32_at(s: Seq<u8>, i: int) -> u32 {
    (s[i] as u32) | ((s[i + 1] as u32) << 8) | ((s[i + 2] as u32) << 16) | ((s[i + 3] as u32)
        << 24)
}

/// The four little-endian bytes of `n`.
pub open spec fn le32_bytes(n: u32) -> Seq<u8> {
    seq![
        (n & 0xff) as u8,
        ((n >> 8) & 0xff) as u8,
        ((n >> 16) & 0xff) as u8,
        ((n >> 24) & 0xff) as u8,
    ]
}

/// Decoding the encoding of `n`, followed by anything, gives `n` back.
pub proof fn lemma_le32_round_trip(n: u32, rest: Seq<u8>)
    ensures
        le32_at(le32_bytes(n) + rest, 0) == n,
{
    let s = le32_bytes(n) + rest;
    assert(s[0] == (n & 0xff) as u8);
    assert(s[1] == ((n >> 8) & 0xff) as u8);
    assert(s[2] == ((n >> 16) & 0xff) as u8);
    assert(s[3] == ((n >> 24) & 0xff) as u8);
    assert({
        &&& n & 0xff < 256
        &&& (n >> 8) & 0xff < 256
        &&& (n >> 16) & 0xff < 256
        &&& (n >> 24) & 0xff < 256
    }) by (bit_vector);
    assert(n == ((n & 0xff) | (((n >> 8) & 0xff) << 8) | (((n >> 16) & 0xff) << 16) | (((n
        >> 24) & 0xff) << 24))) by (bit_vector);
}

/// Writes the four little-endian bytes of `n` at the end of `out`.
pub fn push_le32(out: &mut Vec<u8>, n: u32)
    ensures
        final(out)@ == old(out)@ + le32_bytes(n),
{
    out.push((n & 0xff) as u8);
    out.push(((n >> 8) & 0xff) as u8);
    out.push(((n >> 16) & 0xff) as u8);
    out.push(((n >> 24) & 0xff) as u8);
    assert(out@ =~= old(out)@ + le32_bytes(n));
}

/// Reads the little-endian `u32` at byte `i` of `s`.
pub fn read_le32(s: &[u8], i: usize) -> (r: u32)
    requires
        i + 4 <= s@.len(),
    ensures
        r == le32_at(s@, i as int),
{
    (s[i] as u32) | ((s[i + 1] as u32) << 8) | ((s[i + 2] as u32) << 16) | ((s[i + 3] as u32)
        << 24)
}

/// The bytes of one record holding `key` and `value`.
pub open spec fn record_bytes(key: Seq<u8>, value: Seq<u8>) -> Seq<u8> {
    le32_bytes(key.len() as u32) + key + le32_bytes(value.len() as u32) + value
}

/// A key or value that fits in a record's length field.
pub open spec fn fits_field(s: Seq<u8>) -> bool {
    s.len() <= MAX_FIELD_LEN
}

/// The log holding `records` one after the other, first to last.
pub open spec fn log_of(records: Seq<(Seq<u8>, Seq<u8>)>) -> Seq<u8>
    decreases records.len(),
{
    if records.len() == 0 {
        Seq::empty()
    } else {
        log_of(records.drop_last()) + record_bytes(records.last().0, records.last().1)
    }
}

/// The key length written at the start of `log`.
pub open spec fn key_len_of(log: Seq<u8>) -> nat {
    le32_at(log, 0) as nat
}

/// The value length written after the key of the record at the start of `log`.
pub open spec fn value_len_of(log: Seq<u8>) -> nat {
    le32_at(log, 4 + key_len_of(log) as int) as nat
}

/// The length of the record at the start of `log`, as its length fields give it.
pub open spec fn record_len_of(log: Seq<u8>) -> nat {
    8 + key_len_of(log) + value_len_of(log)
}

/// `log` starts with a whole record: both length fields and all the bytes
/// that they announce are there.
pub open spec fn starts_with_record(log: Seq<u8>) -> bool {
    &&& 4 <= log.len()
    &&& 8 + key_len_of(log) <= log.len()
    &&& record_len_of(log) <= log.len()
}

/// The key of the record at the start of `log`.
pub open spec fn first_key(log: Seq<u8>) -> Seq<u8> {
    log.subrange(4, 4 + key_len_of(log) as int)
}

/// The value of the record at the start of `log`.
pub open spec fn first_value(log: Seq<u8>) -> Seq<u8> {
    log.subrange(8 + key_len_of(log) as int, record_len_of(log) as int)
}

/// What a forward scan of a log for a key comes to.
pub enum Lookup {
    /// The first record with the key holds this value.
    Found(Seq<u8>),
    /// The log is a run of whole records, none with the key.
    Absent,
    /// The log ends inside a record before any record with the key.
    Corrupt,
}

/// The result of scanning `log` from its first byte for `key`: the first
/// record whose key equals `key` wins, and a log that ends inside a record
/// before such a match is corrupt.
pub open spec fn lookup(log: Seq<u8>, key: Seq<u8>) -> Lookup
    decreases log.len(),
{
    if log.len() == 0 {
        Lookup::Absent
    } else if !starts_with_record(log) {
        Lookup::Corrupt
    } else if first_key(log) == key {
        Lookup::Found(first_value(log))
    } else {
        lookup(log.skip(record_len_of(log) as int), key)
    }
}

/// The record of `key` and `value`, followed by anything, is read back as
/// that key and that value.
pub proof fn lemma_record_fields(key: Seq<u8>, value: Seq<u8>, rest: Seq<u8>)
    requires
        fits_field(key),
        fits_field(value),
    ensures
        starts_with_record(record_bytes(key, value) + rest),
        key_len_of(record_bytes(key, value) + rest) == key.len(),
        value_len_of(record_bytes(key, value) + rest) == value.len(),
        record_len_of(record_bytes(key, value) + rest) == record_bytes(key, value).len(),
        first_key(record_bytes(key, value) + rest) == key,
        first_value(record_bytes(key, value) + rest) == value,
        (record_bytes(key, value) + rest).skip(record_bytes(key, value).len() as int) == rest,
{
    let kl = key.len() as u32;
    let vl = value.len() as u32;
    let log = record_bytes(key, value) + rest;
    let tail = key + le32_bytes(vl) + value + rest;
    lemma_le32_round_trip(kl, tail);
    assert(log =~= le32_bytes(kl) + tail);
    let tail2 = value + rest;
    lemma_le32_round_trip(vl, tail2);
    assert(log.skip(4 + key.len() as int) =~= le32_bytes(vl) + tail2);
    assert(le32_at(log, 4 + key.len() as int) == le32_at(log.skip(4 + key.len() as int), 0));
    assert(first_key(log) =~= key);
    assert(first_value(log) =~= value);
    assert(log.skip(record_bytes(key, value).len() as int) =~= rest);
}

/// Whether the `len` bytes of `s` from `start` on are those of `t`.
pub(crate) fn range_equals(s: &[u8], start: usize, len: usize, t: &[u8]) -> (r: bool)
    requires
        start + len <= s@.len(),
    ensures
        r == (s@.subrange(start as int, start + len) == t@),
{
    if len != t.len() {
        proof {
            assert(s@.subrange(start as int, start + len).len() != t@.len());
        }
        return false;
    }
    let s_len = s.len();
    let mut i: usize = 0;
    while i < len
        invariant
            i <= len,
            len == t@.len(),
            s_len == s@.len(),
            start + len <= s@.len(),
            s@.subrange(start as int, start + i) == t@.take(i as int),
        decreases len - i,
    {
        if s[start + i] != t[i] {
            proof {
                assert(s@.subrange(start as int, start + len)[i as int] != t@[i as int]);
            }
            return false;
        }
        i = i + 1;
        proof {
            assert(s@.subrange(start as int, start + i) =~= t@.take(i as int));
        }
    }
    proof {
        assert(t@.take(len as int) =~= t@);
    }
    true
}

/// A copy of the bytes of `s` from `start` up to `end`.
pub(crate) fn copy_range(s: &[u8], start: usize, end: usize) -> (r: Vec<u8>)
    requires
        start <= end <= s@.len(),
    ensures
        r@ == s@.subrange(start as int, end as int),
{
    let mut out: Vec<u8> = Vec::new();
    let mut i: usize = start;
    while i < end
        invariant
            start <= i <= end <= s@.len(),
            out@ == s@.subrange(start as int, i as int),
        decreases end - i,
    {
        out.push(s[i]);
        i = i + 1;
        proof {
            assert(out@ =~= s@.subrange(start as int, i as int));
        }
    }
    out
}

/// Scanning a record that holds `key` finds its value.
pub proof fn lemma_lookup_match(key: Seq<u8>, value: Seq<u8>, rest: Seq<u8>)
    requires
        fits_field(key),
        fits_field(value),
    ensures
        lookup(record_bytes(key, value) + rest, key) == Lookup::Found(value),
{
    lemma_record_fields(key, value, rest);
}

/// A record whose key differs from the one sought is passed over whole,
/// whatever the length of its value.
pub proof fn lemma_lookup_skip(other: Seq<u8>, value: Seq<u8>, rest: Seq<u8>, key: Seq<u8>)
    requires
        fits_field(other),
        fits_field(value),
        other != key,
    ensures
        lookup(record_bytes(other, value) + rest, key) == lookup(rest, key),
{
    lemma_record_fields(other, value, rest);
}

/// The little-endian `u32` at byte `i` depends on those four bytes alone.
pub proof fn lemma_le32_prefix(s: Seq<u8>, t: Seq<u8>, i: int)
    requires
        0 <= i,
        i + 4 <= s.len(),
        i + 4 <= t.len(),
        s.subrange(i, i + 4) == t.subrange(i, i + 4),
    ensures
        le32_at(s, i) == le32_at(t, i),
{
    assert(s[i] == s.subrange(i, i + 4)[0]);
    assert(s[i + 1] == s.subrange(i, i + 4)[1]);
    assert(s[i + 2] == s.subrange(i, i + 4)[2]);
    assert(s[i + 3] == s.subrange(i, i + 4)[3]);
    assert(t[i] == t.subrange(i, i + 4)[0]);
    assert(t[i + 1] == t.subrange(i, i + 4)[1]);
    assert(t[i + 2] == t.subrange(i, i + 4)[2]);
    assert(t[i + 3] == t.subrange(i, i + 4)[3]);
}

/// A whole record at the start of `log` reads the same with anything after it.
pub proof fn lemma_record_extend(log: Seq<u8>, x: Seq<u8>)
    requires
        starts_with_record(log),
    ensures
        starts_with_record(log + x),
        key_len_of(log + x) == key_len_of(log),
        record_len_of(log + x) == record_len_of(log),
        first_key(log + x) == first_key(log),
        first_value(log + x) == first_value(log),
        (log + x).skip(record_len_of(log) as int) == log.skip(record_len_of(log) as int) + x,
{
    let lx = log + x;
    assert(log.subrange(0, 4) =~= lx.subrange(0, 4));
    lemma_le32_prefix(log, lx, 0);
    let k = 4 + key_len_of(log) as int;
    assert(log.subrange(k, k + 4) =~= lx.subrange(k, k + 4));
    lemma_le32_prefix(log, lx, k);
    assert(first_key(lx) =~= first_key(log));
    assert(first_value(lx) =~= first_value(log));
    assert(lx.skip(record_len_of(log) as int) =~= log.skip(record_len_of(log) as int) + x);
}

/// After a run of whole records none of which holds `key`, the scan goes on
/// as if the run were not there.
pub proof fn lemma_lookup_after_absent(log: Seq<u8>, x: Seq<u8>, key: Seq<u8>)
    requires
        lookup(log, key) == Lookup::Absent,
    ensures
        lookup(log + x, key) == lookup(x, key),
    decreases log.len(),
{
    if log.len() == 0 {
        assert(log + x =~= x);
    } else {
        lemma_record_extend(log, x);
        let n = record_len_of(log) as int;
        lemma_lookup_after_absent(log.skip(n), x, key);
    }
}

/// Once a scan has found `key`, the bytes that follow do not matter.
pub proof fn lemma_lookup_after_found(log: Seq<u8>, x: Seq<u8>, key: Seq<u8>, value: Seq<u8>)
    requires
        lookup(log, key) == Lookup::Found(value),
    ensures
        lookup(log + x, key) == Lookup::Found(value),
    decreases log.len(),
{
    lemma_record_extend(log, x);
    if first_key(log) != key {
        let n = record_len_of(log) as int;
        lemma_lookup_after_found(log.skip(n), x, key, value);
    }
}

/// A log cut inside a record does not start with a whole record.
proof fn lemma_cut_record(key: Seq<u8>, value: Seq<u8>, cut: int)
    requires
        fits_field(key),
        fits_field(value),
        0 < cut < record_bytes(key, value).len(),
    ensures
        !starts_with_record(record_bytes(key, value).take(cut)),
{
    let full = record_bytes(key, value);
    let p = full.take(cut);
    lemma_record_fields(key, value, Seq::empty());
    assert(full + Seq::<u8>::empty() =~= full);
    if 4 <= p.len() {
        assert(p.subrange(0, 4) =~= full.subrange(0, 4));
        lemma_le32_prefix(p, full, 0);
        let k = 4 + key.len() as int;
        if k + 4 <= p.len() {
            assert(p.subrange(k, k + 4) =~= full.subrange(k, k + 4));
            lemma_le32_prefix(p, full, k);
        }
    }
}

/// Cutting the record of `key` and `value` anywhere inside leaves a log
/// that scans as corrupt, whatever key is sought.
pub proof fn lemma_lookup_cut(key: Seq<u8>, value: Seq<u8>, cut: int, sought: Seq<u8>)
    requires
        fits_field(key),
        fits_field(value),
        0 < cut < record_bytes(key, value).len(),
    ensures
        lookup(record_bytes(key, value).take(cut), sought) == Lookup::Corrupt,
{
    lemma_cut_record(key, value, cut);
}

} // verus!
