//! Laws of the log: what a scan returns after a sequence of appends.
use vstd::prelude::*;

use crate::codec::{
    fits_field, lemma_lookup_after_absent, lemma_lookup_after_found, lemma_lookup_cut,
    lemma_lookup_match, lemma_lookup_skip, log_of, lookup, record_bytes, Lookup,
};

verus! {

/// Every key and value of `records` fits in a length field.
pub open spec fn all_fit(records: Seq<(Seq<u8>, Seq<u8>)>) -> bool {
    forall|i: int| 0 <= i < records.len() ==> fits_field(#[trigger] records[i].0) && fits_field(
        records[i].1,
    )
}

/// No two records of `records` share a key.
pub open spec fn keys_distinct(records: Seq<(Seq<u8>, Seq<u8>)>) -> bool {
    forall|i: int, j: int|
        0 <= i < j < records.len() ==> #[trigger] records[i].0 != #[trigger] records[j].0
}

/// Writing the records of `a` and then those of `b` gives the two logs one
/// after the other.
pub proof fn lemma_log_of_concat(a: Seq<(Seq<u8>, Seq<u8>)>, b: Seq<(Seq<u8>, Seq<u8>)>)
    ensures
        log_of(a + b) == log_of(a) + log_of(b),
    decreases b.len(),
{
    if b.len() == 0 {
        assert(a + b =~= a);
        assert(log_of(a) + log_of(b) =~= log_of(a));
    } else {
        assert((a + b).drop_last() =~= a + b.drop_last());
        lemma_log_of_concat(a, b.drop_last());
        assert((a + b).last() == b.last());
        assert(log_of(a + b) =~= log_of(a) + log_of(b));
    }
}

/// Round trip: after `set(key, value)` on a log that holds no record of
/// `key`, a lookup of `key` returns `value`, whatever is appended later.
pub proof fn lemma_set_then_get(log: Seq<u8>, key: Seq<u8>, value: Seq<u8>, later: Seq<u8>)
    requires
        fits_field(key),
        fits_field(value),
        lookup(log, key) == Lookup::Absent,
    ensures
        lookup(log + record_bytes(key, value) + later, key) == Lookup::Found(value),
{
    lemma_lookup_match(key, value, later);
    assert(log + record_bytes(key, value) + later =~= log + (record_bytes(key, value) + later));
    lemma_lookup_after_absent(log, record_bytes(key, value) + later, key);
}

/// The first record of a key wins: once a lookup finds a value, appending
/// anything, another record of the same key included, leaves it found.
pub proof fn lemma_first_write_wins(log: Seq<u8>, key: Seq<u8>, value: Seq<u8>, later: Seq<u8>)
    requires
        lookup(log, key) == Lookup::Found(value),
    ensures
        lookup(log + later, key) == Lookup::Found(value),
{
    lemma_lookup_after_found(log, later, key, value);
}

/// Absence: a lookup of a key that no record was written with finds nothing.
pub proof fn lemma_never_written(records: Seq<(Seq<u8>, Seq<u8>)>, key: Seq<u8>)
    requires
        all_fit(records),
        forall|i: int| 0 <= i < records.len() ==> #[trigger] records[i].0 != key,
    ensures
        lookup(log_of(records), key) == Lookup::Absent,
    decreases records.len(),
{
    if records.len() > 0 {
        let init = records.drop_last();
        let (k, v) = records.last();
        assert(fits_field(records[records.len() - 1].0));
        assert(records[records.len() - 1].0 != key);
        assert forall|i: int| 0 <= i < init.len() implies #[trigger] init[i].0 != key
            && fits_field(init[i].0) && fits_field(init[i].1) by {
            assert(init[i] == records[i]);
        }
        lemma_never_written(init, key);
        lemma_lookup_skip(k, v, Seq::empty(), key);
        assert(record_bytes(k, v) + Seq::<u8>::empty() =~= record_bytes(k, v));
        lemma_lookup_after_absent(log_of(init), record_bytes(k, v), key);
    }
}

/// The log of `records` split around its record `i`.
proof fn lemma_log_of_split(records: Seq<(Seq<u8>, Seq<u8>)>, i: int)
    requires
        0 <= i < records.len(),
    ensures
        log_of(records) == log_of(records.take(i)) + record_bytes(records[i].0, records[i].1)
            + log_of(records.skip(i + 1)),
{
    let one = seq![records[i]];
    assert(records =~= records.take(i) + one + records.skip(i + 1));
    lemma_log_of_concat(records.take(i) + one, records.skip(i + 1));
    lemma_log_of_concat(records.take(i), one);
    assert(one.drop_last() =~= Seq::<(Seq<u8>, Seq<u8>)>::empty());
    let rec = record_bytes(records[i].0, records[i].1);
    assert(log_of(one.drop_last()) == Seq::<u8>::empty());
    assert(one.last() == records[i]);
    assert(Seq::<u8>::empty() + rec =~= rec);
}

/// Many records: in a log of records with distinct keys, a lookup of the
/// key of any one of them, first, middle or last, returns its value; every
/// record before it is passed over.
pub proof fn lemma_distinct_keys_found(records: Seq<(Seq<u8>, Seq<u8>)>, i: int)
    requires
        all_fit(records),
        keys_distinct(records),
        0 <= i < records.len(),
    ensures
        lookup(log_of(records), records[i].0) == Lookup::Found(records[i].1),
{
    let (k, v) = records[i];
    let before = records.take(i);
    assert(fits_field(records[i].0));
    assert forall|j: int| 0 <= j < before.len() implies #[trigger] before[j].0 != k && fits_field(
        before[j].0,
    ) && fits_field(before[j].1) by {
        assert(before[j] == records[j]);
        assert(records[j].0 != records[i].0);
    }
    lemma_never_written(before, k);
    lemma_log_of_split(records, i);
    lemma_set_then_get(log_of(before), k, v, log_of(records.skip(i + 1)));
}

/// Corruption: a log cut inside record `i`, with no record of `key` before
/// it, makes a lookup of `key` report corruption, never absence.
pub proof fn lemma_cut_log_corrupt(
    records: Seq<(Seq<u8>, Seq<u8>)>,
    i: int,
    cut: int,
    key: Seq<u8>,
)
    requires
        all_fit(records),
        0 <= i < records.len(),
        0 < cut < record_bytes(records[i].0, records[i].1).len(),
        forall|j: int| 0 <= j < i ==> #[trigger] records[j].0 != key,
    ensures
        lookup(
            log_of(records.take(i)) + record_bytes(records[i].0, records[i].1).take(cut),
            key,
        ) == Lookup::Corrupt,
{
    let before = records.take(i);
    assert(fits_field(records[i].0));
    assert forall|j: int| 0 <= j < before.len() implies #[trigger] before[j].0 != key
        && fits_field(before[j].0) && fits_field(before[j].1) by {
        assert(before[j] == records[j]);
    }
    lemma_never_written(before, key);
    lemma_lookup_cut(records[i].0, records[i].1, cut, key);
    lemma_lookup_after_absent(
        log_of(before),
        record_bytes(records[i].0, records[i].1).take(cut),
        key,
    );
}

} // verus!
