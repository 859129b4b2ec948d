//! The read path as a state machine over a forward-only byte source: it is
//! fed one byte at a time, and asks its driver to skip the value of each
//! record whose key does not match rather than hand it over.
use vstd::prelude::*;

use crate::codec::{
    copy_range, first_key, first_value, key_len_of, lemma_le32_prefix, lemma_record_extend,
    lookup, range_equals, read_le32, record_len_of, starts_with_record, value_len_of, Lookup,
};
use crate::key_value::{corrupt, reports, KvError, KvKey, Pair};

verus! {

/// Where a scan stands after some prefix of a log.
pub enum ScanState {
    /// Inside a record that may still match; these are its bytes so far.
    Reading(Seq<u8>),
    /// Inside the value of a record whose key does not match; this many
    /// bytes of it are left.
    Skipping(nat),
    /// A record with the key has been read whole; this is its value.
    Done(Seq<u8>),
}

/// Both length fields and the key of the record at the start of `s` are there.
pub open spec fn header_done(s: Seq<u8>) -> bool {
    &&& 4 <= s.len()
    &&& 8 + key_len_of(s) <= s.len()
}

/// The state of a scan for `key` whose current record holds the bytes `q`.
pub open spec fn classify(q: Seq<u8>, key: Seq<u8>) -> ScanState {
    if starts_with_record(q) {
        if first_key(q) == key {
            ScanState::Done(first_value(q))
        } else {
            ScanState::Reading(Seq::empty())
        }
    } else if header_done(q) && first_key(q) != key {
        ScanState::Skipping((record_len_of(q) - q.len()) as nat)
    } else {
        ScanState::Reading(q)
    }
}

/// The state of a scan for `key` after it has consumed `seen`.
pub open spec fn scan_state(seen: Seq<u8>, key: Seq<u8>) -> ScanState
    decreases seen.len(),
{
    if starts_with_record(seen) {
        if first_key(seen) == key {
            ScanState::Done(first_value(seen))
        } else {
            scan_state(seen.skip(record_len_of(seen) as int), key)
        }
    } else {
        classify(seen, key)
    }
}

/// What a scan that stops in state `st` reports.
pub open spec fn outcome(st: ScanState) -> Lookup {
    match st {
        ScanState::Reading(p) => if p.len() == 0 {
            Lookup::Absent
        } else {
            Lookup::Corrupt
        },
        ScanState::Skipping(_) => Lookup::Corrupt,
        ScanState::Done(v) => Lookup::Found(v),
    }
}

/// A scan that stops after `seen` reports what a lookup in `seen` gives.
pub proof fn lemma_outcome_is_lookup(seen: Seq<u8>, key: Seq<u8>)
    ensures
        outcome(scan_state(seen, key)) == lookup(seen, key),
    decreases seen.len(),
{
    if starts_with_record(seen) && first_key(seen) != key {
        lemma_outcome_is_lookup(seen.skip(record_len_of(seen) as int), key);
    }
}

/// A scan that has consumed nothing is reading an empty record.
pub proof fn lemma_scan_start(key: Seq<u8>)
    ensures
        scan_state(Seq::empty(), key) == ScanState::Reading(Seq::empty()),
{
    assert(!starts_with_record(Seq::<u8>::empty()));
    assert(!header_done(Seq::<u8>::empty()));
}

/// With its length fields and key there, a record's fields read the same
/// whatever follows.
proof fn lemma_header_extend(s: Seq<u8>, x: Seq<u8>)
    requires
        header_done(s),
    ensures
        header_done(s + x),
        key_len_of(s + x) == key_len_of(s),
        value_len_of(s + x) == value_len_of(s),
        record_len_of(s + x) == record_len_of(s),
        first_key(s + x) == first_key(s),
{
    let t = s + x;
    assert(s.subrange(0, 4) =~= t.subrange(0, 4));
    lemma_le32_prefix(s, t, 0);
    let k = 4 + key_len_of(s) as int;
    assert(s.subrange(k, k + 4) =~= t.subrange(k, k + 4));
    lemma_le32_prefix(s, t, k);
    assert(first_key(t) =~= first_key(s));
}

/// A byte that completes a record ends it exactly.
proof fn lemma_completes_exactly(s: Seq<u8>, b: u8)
    requires
        !starts_with_record(s),
        starts_with_record(s.push(b)),
    ensures
        record_len_of(s.push(b)) == s.len() + 1,
{
    let q = s.push(b);
    assert(q =~= s + seq![b]);
    if header_done(s) {
        lemma_header_extend(s, seq![b]);
    } else if 4 <= s.len() {
        assert(s.subrange(0, 4) =~= q.subrange(0, 4));
        lemma_le32_prefix(s, q, 0);
    }
}

/// Feeding one byte to a scan that is reading a record moves it as
/// `classify` says of the record's bytes with that byte added.
pub proof fn lemma_scan_feed(seen: Seq<u8>, key: Seq<u8>, b: u8)
    requires
        scan_state(seen, key) is Reading,
    ensures
        scan_state(seen.push(b), key) == classify(scan_state(seen, key)->Reading_0.push(b), key),
    decreases seen.len(),
{
    let q = seen.push(b);
    if starts_with_record(seen) {
        let n = record_len_of(seen) as int;
        lemma_record_extend(seen, seq![b]);
        assert(seen + seq![b] =~= q);
        assert(seen.skip(n) + seq![b] =~= seen.skip(n).push(b));
        lemma_scan_feed(seen.skip(n), key, b);
        assert(scan_state(q, key) == scan_state(q.skip(n), key));
    } else if starts_with_record(q) {
        lemma_completes_exactly(seen, b);
        assert(q.skip(q.len() as int) =~= Seq::<u8>::empty());
        lemma_scan_start(key);
    }
}

/// Passing over `x`, no more than the bytes left of a skipped value, leaves
/// the rest of that value to skip, or the scan at the next record.
pub proof fn lemma_scan_skip(seen: Seq<u8>, key: Seq<u8>, x: Seq<u8>)
    requires
        scan_state(seen, key) is Skipping,
        0 < x.len() <= scan_state(seen, key)->Skipping_0,
    ensures
        scan_state(seen + x, key) == (if x.len() == scan_state(seen, key)->Skipping_0 {
            ScanState::Reading(Seq::empty())
        } else {
            ScanState::Skipping((scan_state(seen, key)->Skipping_0 - x.len()) as nat)
        }),
    decreases seen.len(),
{
    if starts_with_record(seen) {
        let n = record_len_of(seen) as int;
        lemma_record_extend(seen, x);
        lemma_scan_skip(seen.skip(n), key, x);
    } else {
        lemma_header_extend(seen, x);
        let t = seen + x;
        if x.len() == scan_state(seen, key)->Skipping_0 {
            assert(t.skip(t.len() as int) =~= Seq::<u8>::empty());
            lemma_scan_start(key);
        }
    }
}

/// The value that a finished scan found.
pub open spec fn first_value_of_done(st: ScanState) -> Seq<u8> {
    match st {
        ScanState::Done(v) => v,
        _ => Seq::empty(),
    }
}

/// What the driver of a scan does after feeding it a byte.
pub enum Step {
    /// Feed the next byte.
    Next,
    /// Pass over this many bytes without reading them, then report how many
    /// were passed over.
    Skip(usize),
    /// The record sought is complete: stop reading and finish.
    Found,
}

/// A scan of a log for one key, fed the log's bytes in order.
pub struct Scanner {
    key: Vec<u8>,
    /// The bytes of the current record so far; for a record whose key does
    /// not match, only its length fields and key.
    cur: Vec<u8>,
    /// The bytes left of a value being skipped.
    to_skip: usize,
    found: bool,
}

impl Scanner {
    /// The key sought.
    pub closed spec fn key(&self) -> Seq<u8> {
        self.key@
    }

    /// Where the scan stands.
    pub closed spec fn state(&self) -> ScanState {
        if self.found {
            ScanState::Done(first_value(self.cur@))
        } else if self.to_skip > 0 {
            ScanState::Skipping(self.to_skip as nat)
        } else {
            ScanState::Reading(self.cur@)
        }
    }

    /// The fields agree with each other.
    pub closed spec fn wf(&self) -> bool {
        &&& self.found ==> {
            &&& starts_with_record(self.cur@)
            &&& first_key(self.cur@) == self.key@
            &&& record_len_of(self.cur@) == self.cur@.len()
            &&& self.to_skip == 0
        }
        &&& self.to_skip > 0 ==> self.cur@.len() == 0
        &&& (!self.found && self.to_skip == 0) ==> classify(self.cur@, self.key@)
            == ScanState::Reading(self.cur@)
    }

    /// A scan for `key` that has consumed nothing yet.
    pub fn new(key: &KvKey) -> (r: Self)
        ensures
            r.wf(),
            r.key() == key@,
            r.state() == ScanState::Reading(Seq::empty()),
    {
        let k = key.as_slice();
        let s = Scanner { key: copy_range(k, 0, k.len()), cur: Vec::new(), to_skip: 0, found: false };
        proof {
            assert(k@.subrange(0, k@.len() as int) =~= k@);
            assert(!starts_with_record(s.cur@));
        }
        s
    }

    /// Consumes the next byte of the log.
    pub fn feed(&mut self, byte: u8) -> (r: Step)
        requires
            old(self).wf(),
            old(self).state() is Reading,
        ensures
            final(self).wf(),
            final(self).key() == old(self).key(),
            final(self).state() == classify(old(self).state()->Reading_0.push(byte), old(self).key()),
            r is Found <==> final(self).state() is Done,
            r is Next <==> final(self).state() is Reading,
            r is Skip <==> final(self).state() is Skipping,
            r is Skip ==> final(self).state()->Skipping_0 == r->Skip_0,
    {
        let ghost p = self.cur@;
        self.cur.push(byte);
        let ghost q = self.cur@;
        let n = self.cur.len();
        if n < 8 {
            return Step::Next;
        }
        let key_len = read_le32(self.cur.as_slice(), 0) as usize;
        assert(key_len == key_len_of(q));
        if n - 8 < key_len {
            return Step::Next;
        }
        let value_len = read_le32(self.cur.as_slice(), 4 + key_len) as usize;
        assert(value_len == value_len_of(q));
        if n - 8 == key_len {
            if !range_equals(self.cur.as_slice(), 4, key_len, self.key.as_slice()) {
                self.cur.clear();
                assert(!starts_with_record(self.cur@));
                if value_len == 0 {
                    return Step::Next;
                }
                self.to_skip = value_len;
                return Step::Skip(value_len);
            }
        } else {
            proof {
                assert(q =~= p + seq![byte]);
                lemma_header_extend(p, seq![byte]);
            }
        }
        if n - 8 - key_len == value_len {
            self.found = true;
            return Step::Found;
        }
        Step::Next
    }

    /// Records that the driver passed over `n` bytes of a skipped value.
    pub fn skipped(&mut self, n: usize)
        requires
            old(self).wf(),
            old(self).state() is Skipping,
            0 < n <= old(self).state()->Skipping_0,
        ensures
            final(self).wf(),
            final(self).key() == old(self).key(),
            final(self).state() == (if n == old(self).state()->Skipping_0 {
                ScanState::Reading(Seq::empty())
            } else {
                ScanState::Skipping((old(self).state()->Skipping_0 - n) as nat)
            }),
    {
        self.to_skip = self.to_skip - n;
        proof {
            if self.to_skip == 0 {
                assert(self.cur@ =~= Seq::<u8>::empty());
            }
        }
    }

    /// The bytes left to pass over, or zero where the scan is not skipping.
    pub fn pending_skip(&self) -> (r: usize)
        requires
            self.wf(),
        ensures
            r == (match self.state() {
                ScanState::Skipping(m) => m,
                _ => 0,
            }),
    {
        self.to_skip
    }

    /// The result of the lookup, once the log has ended or the record sought
    /// is complete.
    pub fn finish(&self) -> (r: Result<Option<Pair>, KvError>)
        requires
            self.wf(),
        ensures
            reports(r, self.key(), outcome(self.state())),
    {
        if self.found {
            let n = self.cur.len();
            let key_len = read_le32(self.cur.as_slice(), 0) as usize;
            let found_key = copy_range(self.cur.as_slice(), 4, 4 + key_len);
            let found_value = copy_range(self.cur.as_slice(), 8 + key_len, n);
            Ok(Some(Pair::new(found_key, found_value)))
        } else if self.to_skip > 0 || self.cur.len() > 0 {
            Err(corrupt())
        } else {
            Ok(None)
        }
    }
}

} // verus!
