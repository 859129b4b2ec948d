//! Keys, values and the store: encoding a record for the write path and
//! scanning a log for the read path.
use vstd::prelude::*;

use crate::codec::{
    fits_field, lemma_lookup_after_found, lookup, push_le32, record_bytes, Lookup, MAX_FIELD_LEN,
};
use crate::scan::{
    first_value_of_done, lemma_outcome_is_lookup, lemma_scan_feed, lemma_scan_skip,
    lemma_scan_start, scan_state, Scanner, Step,
};

verus! {

/// `std::io::Error`, carried unopened inside `KvError::Io`.
#[verifier::external_type_specification]
#[verifier::external_body]
pub struct ExIoError(std::io::Error);

/// What can go wrong while reading or writing the log.
#[derive(Debug)]
pub enum KvError {
    /// The file system refused a read or a write.
    Io(std::io::Error),
    /// The key is not in the log.
    NotFound,
    /// The log's bytes do not form whole records.
    Serialization(String),
    /// A value that cannot be stored, such as a key too long for its length field.
    Other(String),
}

/// A key: bytes compared by exact equality.
#[derive(Debug, Clone, PartialEq, Eq, Hash)]
pub struct KvKey(Vec<u8>);

/// A value: bytes that the store does not interpret.
#[derive(Debug, Clone, PartialEq, Eq)]
pub struct KvValue(Vec<u8>);

impl View for KvKey {
    type V = Seq<u8>;

    closed spec fn view(&self) -> Seq<u8> {
        self.0@
    }
}

impl View for KvValue {
    type V = Seq<u8>;

    closed spec fn view(&self) -> Seq<u8> {
        self.0@
    }
}

impl KvKey {
    /// The key made of the bytes `data`.
    pub fn new(data: Vec<u8>) -> (r: Self)
        ensures
            r@ == data@,
    {
        KvKey(data)
    }

    /// The bytes.
    pub fn as_slice(&self) -> (r: &[u8])
        ensures
            r@ == self@,
    {
        self.0.as_slice()
    }
}

impl KvValue {
    /// The value made of the bytes `data`.
    pub fn new(data: Vec<u8>) -> (r: Self)
        ensures
            r@ == data@,
    {
        KvValue(data)
    }

    /// The bytes.
    pub fn as_slice(&self) -> (r: &[u8])
        ensures
            r@ == self@,
    {
        self.0.as_slice()
    }
}

/// A key and its value, as a lookup returns them.
pub struct Pair {
    pub key: KvKey,
    pub value: KvValue,
}

impl Pair {
    /// The pair of the key bytes `key` and the value bytes `value`.
    pub fn new(key: Vec<u8>, value: Vec<u8>) -> (r: Self)
        ensures
            r.key@ == key@,
            r.value@ == value@,
    {
        Self { key: KvKey(key), value: KvValue(value) }
    }
}

/// A store bound to the path of its log file. It keeps no other state: each
/// write appends one record and each lookup scans the log from its start.
pub struct KvStore {
    path: String,
}

impl View for KvStore {
    type V = Seq<char>;

    closed spec fn view(&self) -> Seq<char> {
        self.path@
    }
}

impl KvStore {
    /// A store whose log lives at `path_str`.
    pub fn new(path_str: String) -> (r: Self)
        ensures
            r@ == path_str@,
    {
        Self { path: path_str }
    }

    /// The path of the log file.
    pub fn path(&self) -> (r: &str)
        ensures
            r@ == self@,
    {
        self.path.as_str()
    }
}

/// The bytes of the record for `key` and `value`, as the write path appends
/// them; a key or value longer than a length field can say is refused.
pub fn encode_record(key: &KvKey, value: &KvValue) -> (r: Result<Vec<u8>, KvError>)
    ensures
        (fits_field(key@) && fits_field(value@)) <==> r is Ok,
        r is Ok ==> r->Ok_0@ == record_bytes(key@, value@),
        r is Err ==> r->Err_0 is Other,
{
    let k = key.as_slice();
    let v = value.as_slice();
    if k.len() > MAX_FIELD_LEN as usize || v.len() > MAX_FIELD_LEN as usize {
        return Err(KvError::Other("field too long for its length prefix".to_owned()));
    }
    let mut out: Vec<u8> = Vec::new();
    push_le32(&mut out, k.len() as u32);
    out.extend_from_slice(k);
    push_le32(&mut out, v.len() as u32);
    out.extend_from_slice(v);
    assert(out@ =~= record_bytes(key@, value@));
    Ok(out)
}

/// `r` is what a lookup of `key` returns when the scan comes to `l`.
pub open spec fn reports(r: Result<Option<Pair>, KvError>, key: Seq<u8>, l: Lookup) -> bool {
    match l {
        Lookup::Found(v) => {
            &&& r is Ok
            &&& r->Ok_0 is Some
            &&& r->Ok_0->Some_0.key@ == key
            &&& r->Ok_0->Some_0.value@ == v
        },
        Lookup::Absent => r is Ok && r->Ok_0 is None,
        Lookup::Corrupt => r is Err && r->Err_0 is Serialization,
    }
}

/// The error for a log that does not end on a record boundary.
pub(crate) fn corrupt() -> (r: KvError)
    ensures
        r is Serialization,
{
    KvError::Serialization("log ends inside a record".to_owned())
}

/// Scans `log` from its first byte for `key` and returns the first record
/// with that key. The value of every other record is passed over by its
/// length, never copied. A log that ends inside a record before a match is
/// reported as a serialization error.
pub fn process_buffer(log: &[u8], key: &KvKey) -> (r: Result<Option<Pair>, KvError>)
    ensures
        reports(r, key@, lookup(log@, key@)),
{
    let mut scanner = Scanner::new(key);
    let mut pos: usize = 0;
    proof {
        lemma_scan_start(key@);
        assert(log@.take(0) =~= Seq::<u8>::empty());
    }
    while pos < log.len()
        invariant
            pos <= log@.len(),
            scanner.wf(),
            scanner.key() == key@,
            scanner.state() == scan_state(log@.take(pos as int), key@),
            pos < log@.len() ==> scanner.state() is Reading,
        decreases log@.len() - pos,
    {
        let ghost seen = log@.take(pos as int);
        proof {
            lemma_scan_feed(seen, key@, log@[pos as int]);
            assert(log@.take(pos + 1) =~= seen.push(log@[pos as int]));
        }
        let step = scanner.feed(log[pos]);
        pos = pos + 1;
        match step {
            Step::Found => {
                proof {
                    lemma_outcome_is_lookup(log@.take(pos as int), key@);
                    lemma_lookup_after_found(
                        log@.take(pos as int),
                        log@.skip(pos as int),
                        key@,
                        first_value_of_done(scanner.state()),
                    );
                    assert(log@.take(pos as int) + log@.skip(pos as int) =~= log@);
                }
                return scanner.finish();
            },
            Step::Skip(n) => {
                let left = log.len() - pos;
                let k = if n <= left {
                    n
                } else {
                    left
                };
                if k > 0 {
                    proof {
                        let x = log@.subrange(pos as int, pos + k);
                        lemma_scan_skip(log@.take(pos as int), key@, x);
                        assert(log@.take(pos as int) + x =~= log@.take(pos + k));
                    }
                    scanner.skipped(k);
                    pos = pos + k;
                }
            },
            Step::Next => {},
        }
    }
    proof {
        lemma_outcome_is_lookup(log@.take(pos as int), key@);
        assert(log@.take(pos as int) =~= log@);
    }
    scanner.finish()
}

} // verus!
