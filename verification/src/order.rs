//! The order of the index's ordered scan: by identifier, then by path, a
//! path being ordered by the bytes of its UTF-8 encoding.

use vstd::prelude::*;
use vstd::relations::{sorted_by, total_ordering};
use vstd::seq_lib::{lemma_multiset_commutative, lemma_sorted_unique, to_multiset_build};
use vstd::utf8::{encode_utf8, encode_utf8_decode_utf8};

verus! {

/// A path record as a mathematical value: a digest's identifier and a path.
pub type Entry = (u32, Seq<char>);

/// The mathematical value of one record.
pub open spec fn entry(record: (u32, String)) -> Entry {
    (record.0, record.1@)
}

/// The mathematical value of a sequence of records.
pub open spec fn entries(records: Seq<(u32, String)>) -> Seq<Entry> {
    records.map_values(|record: (u32, String)| entry(record))
}

/// The mathematical value of a sequence of strings.
pub open spec fn texts(strings: Seq<String>) -> Seq<Seq<char>> {
    strings.map_values(|s: String| s@)
}

/// The paths of records, in the order of the records.
pub open spec fn paths_of(records: Seq<Entry>) -> Seq<Seq<char>> {
    records.map_values(|e: Entry| e.1)
}

/// Lexicographic order on byte strings: the first byte that differs decides,
/// and a proper prefix comes first.
pub open spec fn bytes_le(a: Seq<u8>, b: Seq<u8>) -> bool
    decreases a.len(),
{
    if a.len() == 0 {
        true
    } else if b.len() == 0 {
        false
    } else if a[0] == b[0] {
        bytes_le(a.drop_first(), b.drop_first())
    } else {
        a[0] < b[0]
    }
}

/// The order of paths: that of their UTF-8 encodings.
pub open spec fn path_le(a: Seq<char>, b: Seq<char>) -> bool {
    bytes_le(encode_utf8(a), encode_utf8(b))
}

/// `path_le` as a relation.
pub open spec fn path_order() -> spec_fn(Seq<char>, Seq<char>) -> bool {
    |a: Seq<char>, b: Seq<char>| path_le(a, b)
}

/// The order of records: by identifier, and by path among equal identifiers.
pub open spec fn record_le(a: Entry, b: Entry) -> bool {
    a.0 < b.0 || (a.0 == b.0 && path_le(a.1, b.1))
}

/// `record_le` as a relation.
pub open spec fn record_order() -> spec_fn(Entry, Entry) -> bool {
    |a: Entry, b: Entry| record_le(a, b)
}

/// Whether path `a` comes no later than path `b`.
pub fn path_precedes(a: &str, b: &str) -> (r: bool)
    ensures
        r == path_le(a@, b@),
{
    let x = a.as_bytes();
    let y = b.as_bytes();
    let mut i: usize = 0;
    assert(x@.skip(0) =~= x@ && y@.skip(0) =~= y@);
    while i < x.len() && i < y.len()
        invariant
            i <= x.len(),
            i <= y.len(),
            x@ == encode_utf8(a@),
            y@ == encode_utf8(b@),
            bytes_le(x@, y@) == bytes_le(x@.skip(i as int), y@.skip(i as int)),
        decreases x.len() - i,
    {
        assert(x@.skip(i as int)[0] == x@[i as int] && y@.skip(i as int)[0] == y@[i as int]);
        if x[i] != y[i] {
            return x[i] < y[i];
        }
        assert(x@.skip(i as int).drop_first() =~= x@.skip(i + 1));
        assert(y@.skip(i as int).drop_first() =~= y@.skip(i + 1));
        i += 1;
    }
    i == x.len()
}

/// Whether record `a` comes no later than record `b`.
pub fn record_precedes(a: &(u32, String), b: &(u32, String)) -> (r: bool)
    ensures
        r == record_le(entry(*a), entry(*b)),
{
    a.0 < b.0 || (a.0 == b.0 && path_precedes(a.1.as_str(), b.1.as_str()))
}

/// The records at given places of a sequence, in the order of the places.
pub open spec fn picked(records: Seq<Entry>, places: Seq<usize>) -> Seq<Entry> {
    places.map_values(|place: usize| records[place as int])
}

/// Whether every place lies within a sequence of `len` records.
pub open spec fn within(places: Seq<usize>, len: nat) -> bool {
    forall|k: int| 0 <= k < places.len() ==> #[trigger] places[k] < len
}

/// Merges two runs of places, each in the order of its records, into one.
fn merge_places(records: &Vec<(u32, String)>, left: &Vec<usize>, right: &Vec<usize>) -> (merged:
    Vec<usize>)
    requires
        within(left@, records@.len()),
        within(right@, records@.len()),
        sorted_by(picked(entries(records@), left@), record_order()),
        sorted_by(picked(entries(records@), right@), record_order()),
    ensures
        within(merged@, records@.len()),
        sorted_by(picked(entries(records@), merged@), record_order()),
        picked(entries(records@), merged@).to_multiset() == picked(
            entries(records@),
            left@,
        ).to_multiset().add(picked(entries(records@), right@).to_multiset()),
{
    let ghost all = entries(records@);
    let ghost leq = record_order();
    let mut merged: Vec<usize> = Vec::new();
    let mut i: usize = 0;
    let mut j: usize = 0;
    proof {
        lemma_record_order_total();
        assert(picked(all, left@.take(0)) =~= Seq::<Entry>::empty());
        assert(picked(all, right@.take(0)) =~= Seq::<Entry>::empty());
        assert(picked(all, merged@) =~= Seq::<Entry>::empty());
        lemma_multiset_commutative(Seq::<Entry>::empty(), Seq::<Entry>::empty());
        assert(Seq::<Entry>::empty() + Seq::<Entry>::empty() =~= Seq::<Entry>::empty());
    }
    while i < left.len() || j < right.len()
        invariant
            i <= left.len(),
            j <= right.len(),
            all == entries(records@),
            leq == record_order(),
            total_ordering(leq),
            within(left@, records@.len()),
            within(right@, records@.len()),
            within(merged@, records@.len()),
            sorted_by(picked(all, left@), leq),
            sorted_by(picked(all, right@), leq),
            sorted_by(picked(all, merged@), leq),
            forall|k: int|
                0 <= k < merged@.len() && i < left@.len() ==> leq(
                    #[trigger] picked(all, merged@)[k],
                    picked(all, left@)[i as int],
                ),
            forall|k: int|
                0 <= k < merged@.len() && j < right@.len() ==> leq(
                    #[trigger] picked(all, merged@)[k],
                    picked(all, right@)[j as int],
                ),
            picked(all, merged@).to_multiset() == picked(
                all,
                left@.take(i as int),
            ).to_multiset().add(picked(all, right@.take(j as int)).to_multiset()),
        decreases left.len() - i + right.len() - j,
    {
        let from_left = if i >= left.len() {
            false
        } else if j >= right.len() {
            true
        } else {
            record_precedes(&records[left[i]], &records[right[j]])
        };
        let ghost before = picked(all, merged@);
        if from_left {
            let place = left[i];
            merged.push(place);
            proof {
                let entry = all[place as int];
                let after = picked(all, merged@);
                assert(entry == picked(all, left@)[i as int]);
                assert(after =~= before.push(entry));
                assert(picked(all, left@.take(i + 1)) =~= picked(all, left@.take(i as int)).push(
                    entry,
                ));
                to_multiset_build(before, entry);
                to_multiset_build(picked(all, left@.take(i as int)), entry);
                assert(after.to_multiset() =~= picked(all, left@.take(i + 1)).to_multiset().add(
                    picked(all, right@.take(j as int)).to_multiset(),
                ));
                assert forall|a: int, b: int| 0 <= a < b < after.len() implies #[trigger] leq(
                    after[a],
                    after[b],
                ) by {
                    if b < before.len() {
                        assert(leq(before[a], before[b]));
                    } else {
                        assert(after[a] == before[a]);
                    }
                }
                assert forall|k: int| 0 <= k < merged@.len() && i + 1 < left@.len() implies leq(
                    #[trigger] after[k],
                    picked(all, left@)[i + 1],
                ) by {
                    assert(leq(picked(all, left@)[i as int], picked(all, left@)[i + 1]));
                    if k < before.len() {
                        assert(after[k] == before[k]);
                    }
                }
                assert forall|k: int| 0 <= k < merged@.len() && j < right@.len() implies leq(
                    #[trigger] after[k],
                    picked(all, right@)[j as int],
                ) by {
                    if k < before.len() {
                        assert(after[k] == before[k]);
                    }
                }
            }
            i += 1;
        } else {
            let place = right[j];
            merged.push(place);
            proof {
                let entry = all[place as int];
                let after = picked(all, merged@);
                assert(entry == picked(all, right@)[j as int]);
                assert(after =~= before.push(entry));
                assert(picked(all, right@.take(j + 1)) =~= picked(all, right@.take(j as int)).push(
                    entry,
                ));
                to_multiset_build(before, entry);
                to_multiset_build(picked(all, right@.take(j as int)), entry);
                assert(after.to_multiset() =~= picked(all, left@.take(i as int)).to_multiset().add(
                    picked(all, right@.take(j + 1)).to_multiset(),
                ));
                if i < left@.len() {
                    assert(leq(entry, picked(all, left@)[i as int]) || leq(
                        picked(all, left@)[i as int],
                        entry,
                    ));
                }
                assert forall|a: int, b: int| 0 <= a < b < after.len() implies #[trigger] leq(
                    after[a],
                    after[b],
                ) by {
                    if b < before.len() {
                        assert(leq(before[a], before[b]));
                    } else {
                        assert(after[a] == before[a]);
                    }
                }
                assert forall|k: int| 0 <= k < merged@.len() && i < left@.len() implies leq(
                    #[trigger] after[k],
                    picked(all, left@)[i as int],
                ) by {
                    if k < before.len() {
                        assert(after[k] == before[k]);
                    }
                }
                assert forall|k: int| 0 <= k < merged@.len() && j + 1 < right@.len() implies leq(
                    #[trigger] after[k],
                    picked(all, right@)[j + 1],
                ) by {
                    assert(leq(picked(all, right@)[j as int], picked(all, right@)[j + 1]));
                    if k < before.len() {
                        assert(after[k] == before[k]);
                    }
                }
            }
            j += 1;
        }
    }
    proof {
        assert(left@.take(left@.len() as int) =~= left@);
        assert(right@.take(right@.len() as int) =~= right@);
    }
    merged
}

/// The places `lo..hi` in the order of their records, by merge sort.
fn sort_places(records: &Vec<(u32, String)>, lo: usize, hi: usize) -> (places: Vec<usize>)
    requires
        lo <= hi <= records@.len(),
    ensures
        within(places@, records@.len()),
        picked(entries(records@), places@) == entries(records@).subrange(
            lo as int,
            hi as int,
        ).sort_by(record_order()),
    decreases hi - lo,
{
    let ghost all = entries(records@);
    let ghost part = all.subrange(lo as int, hi as int);
    let places = if hi - lo <= 1 {
        let mut places: Vec<usize> = Vec::new();
        if hi - lo == 1 {
            places.push(lo);
        }
        assert(picked(all, places@) =~= part);
        places
    } else {
        let mid = lo + (hi - lo) / 2;
        let left = sort_places(records, lo, mid);
        let right = sort_places(records, mid, hi);
        proof {
            let first = all.subrange(lo as int, mid as int);
            let second = all.subrange(mid as int, hi as int);
            lemma_record_order_total();
            first.lemma_sort_by_ensures(record_order());
            second.lemma_sort_by_ensures(record_order());
            assert(part =~= first + second);
            lemma_multiset_commutative(first, second);
        }
        merge_places(records, &left, &right)
    };
    proof {
        lemma_record_order_total();
        part.lemma_sort_by_ensures(record_order());
        lemma_sorted_unique(picked(all, places@), part.sort_by(record_order()), record_order());
    }
    places
}

/// Orders records by identifier and path.
pub fn sort_records(records: &Vec<(u32, String)>) -> (sorted: Vec<(u32, String)>)
    ensures
        entries(sorted@) == entries(records@).sort_by(record_order()),
{
    let ghost all = entries(records@);
    let places = sort_places(records, 0, records.len());
    let mut sorted: Vec<(u32, String)> = Vec::new();
    let mut k: usize = 0;
    while k < places.len()
        invariant
            k <= places.len(),
            all == entries(records@),
            within(places@, records@.len()),
            sorted@.len() == k,
            forall|m: int| 0 <= m < k ==> entry(#[trigger] sorted@[m]) == all[places@[m] as int],
        decreases places.len() - k,
    {
        let place = places[k];
        sorted.push((records[place].0, records[place].1.clone()));
        k += 1;
    }
    proof {
        assert(entries(sorted@) =~= picked(all, places@));
        assert(all.subrange(0, records@.len() as int) =~= all);
    }
    sorted
}

/// The paths of the records `lo..hi`, in the order of those records by
/// identifier and path.
pub fn sorted_paths(records: &Vec<(u32, String)>, lo: usize, hi: usize) -> (paths: Vec<String>)
    requires
        lo <= hi <= records@.len(),
    ensures
        texts(paths@) == paths_of(
            entries(records@).subrange(lo as int, hi as int).sort_by(record_order()),
        ),
{
    let ghost all = entries(records@);
    let places = sort_places(records, lo, hi);
    let mut paths: Vec<String> = Vec::new();
    let mut k: usize = 0;
    while k < places.len()
        invariant
            k <= places.len(),
            all == entries(records@),
            within(places@, records@.len()),
            paths@.len() == k,
            forall|m: int| 0 <= m < k ==> (#[trigger] paths@[m])@ == all[places@[m] as int].1,
        decreases places.len() - k,
    {
        paths.push(records[places[k]].1.clone());
        k += 1;
    }
    assert(texts(paths@) =~= paths_of(picked(all, places@)));
    paths
}

pub proof fn lemma_bytes_le_reflexive(a: Seq<u8>)
    ensures
        bytes_le(a, a),
    decreases a.len(),
{
    if a.len() > 0 {
        lemma_bytes_le_reflexive(a.drop_first());
    }
}

pub proof fn lemma_bytes_le_antisymmetric(a: Seq<u8>, b: Seq<u8>)
    requires
        bytes_le(a, b),
        bytes_le(b, a),
    ensures
        a == b,
    decreases a.len(),
{
    if a.len() == 0 || b.len() == 0 {
        assert(a =~= b);
    } else {
        lemma_bytes_le_antisymmetric(a.drop_first(), b.drop_first());
        assert(a =~= seq![a[0]] + a.drop_first());
        assert(b =~= seq![b[0]] + b.drop_first());
    }
}

pub proof fn lemma_bytes_le_transitive(a: Seq<u8>, b: Seq<u8>, c: Seq<u8>)
    requires
        bytes_le(a, b),
        bytes_le(b, c),
    ensures
        bytes_le(a, c),
    decreases a.len(),
{
    if a.len() > 0 && a[0] == b[0] && b[0] == c[0] {
        lemma_bytes_le_transitive(a.drop_first(), b.drop_first(), c.drop_first());
    }
}

pub proof fn lemma_bytes_le_total(a: Seq<u8>, b: Seq<u8>)
    ensures
        bytes_le(a, b) || bytes_le(b, a),
    decreases a.len(),
{
    if a.len() > 0 && b.len() > 0 && a[0] == b[0] {
        lemma_bytes_le_total(a.drop_first(), b.drop_first());
    }
}

/// Two paths that each come no later than the other are one path.
pub proof fn lemma_path_le_antisymmetric(a: Seq<char>, b: Seq<char>)
    requires
        path_le(a, b),
        path_le(b, a),
    ensures
        a == b,
{
    lemma_bytes_le_antisymmetric(encode_utf8(a), encode_utf8(b));
    encode_utf8_decode_utf8(a);
    encode_utf8_decode_utf8(b);
}

/// The order of records is total: any two records compare, and only a
/// record itself is both no later and no earlier than it.
pub proof fn lemma_record_order_total()
    ensures
        total_ordering(record_order()),
{
    let leq = record_order();
    assert forall|x: Entry| #[trigger] leq(x, x) by {
        lemma_bytes_le_reflexive(encode_utf8(x.1));
    }
    assert forall|x: Entry, y: Entry| #[trigger] leq(x, y) && #[trigger] leq(y, x) implies x
        == y by {
        lemma_path_le_antisymmetric(x.1, y.1);
    }
    assert forall|x: Entry, y: Entry, z: Entry| #[trigger] leq(x, y) && #[trigger] leq(
        y,
        z,
    ) implies leq(x, z) by {
        if x.0 == y.0 && y.0 == z.0 {
            lemma_bytes_le_transitive(encode_utf8(x.1), encode_utf8(y.1), encode_utf8(z.1));
        }
    }
    assert forall|x: Entry, y: Entry| #[trigger] leq(x, y) || #[trigger] leq(y, x) by {
        lemma_bytes_le_total(encode_utf8(x.1), encode_utf8(y.1));
    }
}

} // verus!
