//! Merge several stores into one.
//!
//! [`merge`] does a k-way merge of stores that are already sorted by key. Each
//! round it picks the smallest current key across all inputs, writes that
//! object, and advances that input. The result is one store sorted by key.
use vstd::prelude::*;
use crate::config::{StoreMetadata, MetadataError, parse_metadata, metadata_message};
use crate::text::{decimal, push_decimal};
use crate::format::stored_objects;
use crate::reader::{LinearObjectReader, reader_ready, lemma_ready_opens};
use crate::writer::{LinearObjectWriter, written_image, lemma_written_stored, store_image};
use crate::store::{sorted_order, item_keys, permuted};
use crate::correctness::{distinct_keys, lemma_sorted_items, lemma_sorted_order_onto};

verus! {

/// Error from a merge.
#[derive(Debug, Clone, PartialEq, Eq)]
pub enum MergeError {
    /// An input file header was invalid.
    Metadata(MetadataError),
    /// Two inputs held the same key.
    KeyCollision(u64),
}

impl From<MetadataError> for MergeError {
    fn from(e: MetadataError) -> (r: MergeError) {
        MergeError::Metadata(e)
    }
}

impl vstd::std_specs::convert::FromSpecImpl<MetadataError> for MergeError {
    open spec fn obeys_from_spec() -> bool {
        true
    }

    open spec fn from_spec(e: MetadataError) -> MergeError {
        MergeError::Metadata(e)
    }
}

/// The message of a merge error.
pub open spec fn merge_message(e: MergeError) -> Seq<char> {
    match e {
        MergeError::Metadata(m) => metadata_message(m),
        MergeError::KeyCollision(k) => "key collision on "@ + decimal(k as nat),
    }
}

impl MergeError {
    /// A human-readable message.
    pub fn to_string(&self) -> (r: String)
        ensures
            r@ == merge_message(*self),
    {
        match self {
            MergeError::Metadata(e) => e.to_string(),
            MergeError::KeyCollision(k) => {
                let mut s = String::from_str("key collision on ");
                push_decimal(&mut s, *k);
                s
            },
        }
    }
}

/// The objects of a store, or none when its header is unreadable.
pub open spec fn contents(data: Seq<u8>) -> Seq<(u64, Seq<u8>)> {
    match parse_metadata(data) {
        Ok(m) => stored_objects(data, m.num_blocks as int),
        Err(_) => Seq::empty(),
    }
}

/// The bytes of each input.
pub open spec fn input_bytes(inputs: Seq<Vec<u8>>) -> Seq<Seq<u8>> {
    inputs.map_values(|v: Vec<u8>| v@)
}

/// The error of the first input whose header is unreadable.
pub open spec fn header_error(inputs: Seq<Seq<u8>>) -> Option<MetadataError>
    decreases inputs.len(),
{
    if inputs.len() == 0 {
        None
    } else {
        match parse_metadata(inputs[0]) {
            Err(e) => Some(e),
            Ok(_) => header_error(inputs.drop_first()),
        }
    }
}

/// The number of objects left across all inputs.
pub open spec fn total(rems: Seq<Seq<(u64, Seq<u8>)>>) -> nat
    decreases rems.len(),
{
    if rems.len() == 0 {
        0
    } else {
        total(rems.drop_last()) + rems.last().len()
    }
}

/// Replacing one input's objects changes the total by the difference.
pub proof fn lemma_total_update(rems: Seq<Seq<(u64, Seq<u8>)>>, i: int, x: Seq<(u64, Seq<u8>)>)
    requires
        0 <= i < rems.len(),
    ensures
        total(rems.update(i, x)) + rems[i].len() == total(rems) + x.len(),
    decreases rems.len(),
{
    let u = rems.update(i, x);
    if i == rems.len() - 1 {
        assert(u.drop_last() =~= rems.drop_last());
    } else {
        assert(u.drop_last() =~= rems.drop_last().update(i, x));
        lemma_total_update(rems.drop_last(), i, x);
    }
}

/// One round's scan over the inputs from `i` on, as the merge loop does it:
/// the input holding the smallest current key so far, or the key two inputs
/// hold when an input's current key equals the smallest one seen.
pub open spec fn scan_min(rems: Seq<Seq<(u64, Seq<u8>)>>, i: int, min_key: u64, min_reader: Option<int>)
    -> Result<Option<int>, u64>
    decreases rems.len() - i,
{
    if i < 0 || i >= rems.len() {
        Ok(min_reader)
    } else if rems[i].len() == 0 {
        scan_min(rems, i + 1, min_key, min_reader)
    } else if rems[i][0].0 == min_key && min_reader is Some {
        Err(min_key)
    } else if min_reader is None || rems[i][0].0 < min_key {
        scan_min(rems, i + 1, rems[i][0].0, Some(i))
    } else {
        scan_min(rems, i + 1, min_key, min_reader)
    }
}

/// A scan picks an input that still holds an object.
pub proof fn lemma_scan_valid(rems: Seq<Seq<(u64, Seq<u8>)>>, i: int, min_key: u64, min_reader: Option<int>)
    requires
        0 <= i,
        min_reader matches Some(j) ==> 0 <= j < rems.len() && rems[j].len() > 0,
    ensures
        scan_min(rems, i, min_key, min_reader) matches Ok(Some(j)) ==> 0 <= j < rems.len() && rems[j].len() > 0,
    decreases rems.len() - i,
{
    if i < rems.len() {
        if rems[i].len() == 0 {
            lemma_scan_valid(rems, i + 1, min_key, min_reader);
        } else if rems[i][0].0 == min_key && min_reader is Some {
        } else if min_reader is None || rems[i][0].0 < min_key {
            lemma_scan_valid(rems, i + 1, rems[i][0].0, Some(i));
        } else {
            lemma_scan_valid(rems, i + 1, min_key, min_reader);
        }
    }
}

/// The objects a merge of inputs holding `rems` writes, in order, or the key
/// on which it stops with a collision.
pub open spec fn merged(rems: Seq<Seq<(u64, Seq<u8>)>>) -> Result<Seq<(u64, Seq<u8>)>, u64>
    decreases total(rems),
{
    match scan_min(rems, 0, u64::MAX, None) {
        Err(k) => Err(k),
        Ok(None) => Ok(Seq::empty()),
        Ok(Some(idx)) => if 0 <= idx < rems.len() && rems[idx].len() > 0 {
            proof {
                lemma_total_update(rems, idx, rems[idx].drop_first());
            }
            match merged(rems.update(idx, rems[idx].drop_first())) {
                Err(k) => Err(k),
                Ok(rest) => Ok(seq![rems[idx][0]] + rest),
            }
        } else {
            Ok(Seq::empty())
        },
    }
}

/// The objects of each input.
pub open spec fn input_contents(inputs: Seq<Vec<u8>>) -> Seq<Seq<(u64, Seq<u8>)>> {
    inputs.map_values(|v: Vec<u8>| contents(v@))
}

/// Keys rise strictly through `objs`.
pub open spec fn strictly_rising(objs: Seq<(u64, Seq<u8>)>) -> bool {
    forall|i: int, j: int| 0 <= i < j < objs.len() ==> #[trigger] objs[i].0 < #[trigger] objs[j].0
}

/// Every input's keys rise strictly.
pub open spec fn mergeable(rems: Seq<Seq<(u64, Seq<u8>)>>) -> bool {
    forall|i: int| 0 <= i < rems.len() ==> strictly_rising(#[trigger] rems[i])
}

/// Some object of `objs` has key `k`.
pub open spec fn has_key(objs: Seq<(u64, Seq<u8>)>, k: u64) -> bool {
    exists|t: int| 0 <= t < objs.len() && #[trigger] objs[t].0 == k
}

/// No key is held by two inputs.
pub open spec fn keys_disjoint(rems: Seq<Seq<(u64, Seq<u8>)>>) -> bool {
    forall|i: int, j: int, k: u64| 0 <= i < rems.len() && 0 <= j < rems.len() && i != j
        ==> !(#[trigger] has_key(rems[i], k) && #[trigger] has_key(rems[j], k))
}

/// What a scan of inputs finds: nothing when all
/// are empty, a collision only on a key two inputs hold at their fronts, and
/// otherwise the input whose front key is below every other front key.
proof fn lemma_scan(rems: Seq<Seq<(u64, Seq<u8>)>>, i: int, min_key: u64, min_reader: Option<int>)
    requires
        0 <= i <= rems.len(),
        mergeable(rems),
        min_reader is None ==> forall|j: int| 0 <= j < i ==> #[trigger] rems[j].len() == 0,
        min_reader matches Some(m) ==> {
            &&& 0 <= m < i
            &&& rems[m].len() > 0
            &&& rems[m][0].0 == min_key
            &&& forall|j: int| 0 <= j < i && j != m && rems[j].len() > 0 ==> #[trigger] rems[j][0].0 > min_key
        },
    ensures
        scan_min(rems, i, min_key, min_reader) matches Ok(None) ==> forall|j: int| 0 <= j < rems.len()
            ==> #[trigger] rems[j].len() == 0,
        scan_min(rems, i, min_key, min_reader) matches Ok(Some(m)) ==> {
            &&& 0 <= m < rems.len()
            &&& rems[m].len() > 0
            &&& forall|j: int| 0 <= j < rems.len() && j != m && rems[j].len() > 0
                ==> #[trigger] rems[j][0].0 > rems[m][0].0
        },
        scan_min(rems, i, min_key, min_reader) matches Err(k) ==> exists|a: int, b: int|
            0 <= a < rems.len() && 0 <= b < rems.len() && a != b && rems[a].len() > 0 && rems[b].len() > 0
            && #[trigger] rems[a][0].0 == k && #[trigger] rems[b][0].0 == k,
    decreases rems.len() - i,
{
    if i < rems.len() {
        if rems[i].len() == 0 {
            lemma_scan(rems, i + 1, min_key, min_reader);
        } else if rems[i][0].0 == min_key && min_reader is Some {
            let m = min_reader->0;
            assert(rems[m][0].0 == min_key && rems[i][0].0 == min_key);
        } else if min_reader is None || rems[i][0].0 < min_key {
            lemma_scan(rems, i + 1, rems[i][0].0, Some(i));
        } else {
            lemma_scan(rems, i + 1, min_key, min_reader);
        }
    }
}

/// Taking the front object off one input keeps the inputs mergeable, keeps
/// disjoint inputs disjoint, and leaves every key but the front one where it
/// was.
proof fn lemma_advance_input(rems: Seq<Seq<(u64, Seq<u8>)>>, idx: int)
    requires
        mergeable(rems),
        0 <= idx < rems.len(),
        rems[idx].len() > 0,
    ensures
        mergeable(rems.update(idx, rems[idx].drop_first())),
        keys_disjoint(rems) ==> keys_disjoint(rems.update(idx, rems[idx].drop_first())),
        forall|j: int, k: u64| 0 <= j < rems.len() && #[trigger] has_key(rems[j], k) && !(j == idx && k == rems[idx][0].0)
            ==> #[trigger] has_key(rems.update(idx, rems[idx].drop_first())[j], k),
        forall|j: int, k: u64| 0 <= j < rems.len() && #[trigger] has_key(rems.update(idx, rems[idx].drop_first())[j], k)
            ==> has_key(rems[j], k),
{
    let r2 = rems.update(idx, rems[idx].drop_first());
    assert forall|i: int| 0 <= i < r2.len() implies strictly_rising(#[trigger] r2[i]) by {
        if i == idx {
            assert(strictly_rising(rems[idx]));
            assert forall|a: int, b: int| 0 <= a < b < r2[i].len() implies #[trigger] r2[i][a].0 < #[trigger] r2[i][b].0 by {
                assert(r2[i][a] == rems[idx][a + 1]);
                assert(r2[i][b] == rems[idx][b + 1]);
            }
        }
    }
    assert forall|j: int, k: u64| 0 <= j < rems.len() && #[trigger] has_key(r2[j], k) implies has_key(rems[j], k) by {
        let t = choose|t: int| 0 <= t < r2[j].len() && #[trigger] r2[j][t].0 == k;
        if j == idx {
            assert(rems[j][t + 1].0 == k);
        } else {
            assert(rems[j][t].0 == k);
        }
    }
    assert forall|j: int, k: u64| 0 <= j < rems.len() && #[trigger] has_key(rems[j], k) && !(j == idx && k == rems[idx][0].0)
        implies #[trigger] has_key(r2[j], k) by {
        let t = choose|t: int| 0 <= t < rems[j].len() && #[trigger] rems[j][t].0 == k;
        if j == idx {
            assert(t != 0);
            assert(r2[j][t - 1].0 == k);
        } else {
            assert(r2[j][t].0 == k);
        }
    }
    if keys_disjoint(rems) {
        assert forall|i: int, j: int, k: u64| 0 <= i < r2.len() && 0 <= j < r2.len() && i != j
            implies !(#[trigger] has_key(r2[i], k) && #[trigger] has_key(r2[j], k)) by {
            if has_key(r2[i], k) && has_key(r2[j], k) {
                assert(has_key(rems[i], k));
                assert(has_key(rems[j], k));
            }
        }
    }
}

/// Merging inputs whose keys rise strictly and are held by one input each gives every object of every input once, in rising
/// key order.
pub proof fn lemma_merge_disjoint(rems: Seq<Seq<(u64, Seq<u8>)>>)
    requires
        mergeable(rems),
        keys_disjoint(rems),
    ensures
        merged(rems) is Ok,
        strictly_rising(merged(rems)->Ok_0),
        merged(rems)->Ok_0.len() == total(rems),
        forall|o: (u64, Seq<u8>)| merged(rems)->Ok_0.contains(o) <==> exists|i: int| 0 <= i < rems.len()
            && #[trigger] rems[i].contains(o),
    decreases total(rems),
{
    lemma_scan(rems, 0, u64::MAX, None);
    match scan_min(rems, 0, u64::MAX, None) {
        Err(k) => {
            let (a, b) = choose|a: int, b: int| 0 <= a < rems.len() && 0 <= b < rems.len() && a != b
                && rems[a].len() > 0 && rems[b].len() > 0 && #[trigger] rems[a][0].0 == k && #[trigger] rems[b][0].0 == k;
            assert(has_key(rems[a], k) && has_key(rems[b], k));
        },
        Ok(None) => {
            lemma_total_zero(rems);
            assert(merged(rems) == Ok::<Seq<(u64, Seq<u8>)>, u64>(Seq::empty()));
            assert forall|o: (u64, Seq<u8>)| #[trigger] merged(rems)->Ok_0.contains(o) <==> exists|i: int| 0 <= i < rems.len()
                && #[trigger] rems[i].contains(o) by {
                if exists|i: int| 0 <= i < rems.len() && #[trigger] rems[i].contains(o) {
                    let i = choose|i: int| 0 <= i < rems.len() && #[trigger] rems[i].contains(o);
                    assert(rems[i].len() == 0);
                }
            }
        },
        Ok(Some(idx)) => {
            let h = rems[idx][0];
            let r2 = rems.update(idx, rems[idx].drop_first());
            lemma_total_update(rems, idx, rems[idx].drop_first());
            lemma_advance_input(rems, idx);
            lemma_merge_disjoint(r2);
            let rest = merged(r2)->Ok_0;
            let out = seq![h] + rest;
            assert(merged(rems) == Ok::<Seq<(u64, Seq<u8>)>, u64>(out));
            assert forall|t: int| 0 <= t < rest.len() implies h.0 < #[trigger] rest[t].0 by {
                assert(rest.contains(rest[t]));
                let i = choose|i: int| 0 <= i < r2.len() && #[trigger] r2[i].contains(rest[t]);
                let u = choose|u: int| 0 <= u < r2[i].len() && r2[i][u] == rest[t];
                if i == idx {
                    assert(strictly_rising(rems[idx]));
                    assert(rems[idx][u + 1] == rest[t]);
                    assert(rems[idx][0].0 < rems[idx][u + 1].0);
                } else {
                    assert(strictly_rising(rems[i]));
                    assert(rems[i][u] == rest[t]);
                    assert(rems[i].len() > 0);
                    assert(rems[i][0].0 > h.0);
                    if u > 0 {
                        assert(rems[i][0].0 < rems[i][u].0);
                    }
                }
            }
            assert forall|a: int, b: int| 0 <= a < b < out.len() implies #[trigger] out[a].0 < #[trigger] out[b].0 by {
                if a == 0 {
                    assert(out[b] == rest[b - 1]);
                } else {
                    assert(out[a] == rest[a - 1]);
                    assert(out[b] == rest[b - 1]);
                }
            }
            assert forall|o: (u64, Seq<u8>)| out.contains(o) <==> exists|i: int| 0 <= i < rems.len()
                && #[trigger] rems[i].contains(o) by {
                if out.contains(o) {
                    let t = choose|t: int| 0 <= t < out.len() && out[t] == o;
                    if t == 0 {
                        assert(rems[idx].contains(o));
                    } else {
                        assert(rest.contains(o)) by {
                            assert(rest[t - 1] == o);
                        }
                        let i = choose|i: int| 0 <= i < r2.len() && #[trigger] r2[i].contains(o);
                        let u = choose|u: int| 0 <= u < r2[i].len() && r2[i][u] == o;
                        if i == idx {
                            assert(rems[idx][u + 1] == o);
                            assert(rems[idx].contains(o));
                        } else {
                            assert(rems[i].contains(o));
                        }
                    }
                }
                if exists|i: int| 0 <= i < rems.len() && #[trigger] rems[i].contains(o) {
                    let i = choose|i: int| 0 <= i < rems.len() && #[trigger] rems[i].contains(o);
                    let u = choose|u: int| 0 <= u < rems[i].len() && rems[i][u] == o;
                    if i == idx && u == 0 {
                        assert(out[0] == o);
                    } else {
                        if i == idx {
                            assert(r2[i][u - 1] == o);
                        } else {
                            assert(r2[i][u] == o);
                        }
                        assert(r2[i].contains(o));
                        assert(rest.contains(o));
                        let t = choose|t: int| 0 <= t < rest.len() && rest[t] == o;
                        assert(out[t + 1] == o);
                    }
                }
            }
        },
    }
}

/// No objects left in any input means none in total.
proof fn lemma_total_zero(rems: Seq<Seq<(u64, Seq<u8>)>>)
    requires
        forall|j: int| 0 <= j < rems.len() ==> #[trigger] rems[j].len() == 0,
    ensures
        total(rems) == 0,
    decreases rems.len(),
{
    if rems.len() > 0 {
        lemma_total_zero(rems.drop_last());
    }
}

/// Merging inputs whose keys rise strictly, where two inputs hold a common
/// key, stops with a collision on a key that two inputs hold.
pub proof fn lemma_merge_collision(rems: Seq<Seq<(u64, Seq<u8>)>>, i: int, j: int, k: u64)
    requires
        mergeable(rems),
        0 <= i < rems.len(),
        0 <= j < rems.len(),
        i != j,
        has_key(rems[i], k),
        has_key(rems[j], k),
    ensures
        merged(rems) is Err,
        exists|a: int, b: int| 0 <= a < rems.len() && 0 <= b < rems.len() && a != b
            && #[trigger] has_key(rems[a], merged(rems)->Err_0) && #[trigger] has_key(rems[b], merged(rems)->Err_0),
    decreases total(rems),
{
    lemma_scan(rems, 0, u64::MAX, None);
    match scan_min(rems, 0, u64::MAX, None) {
        Err(c) => {
            let (a, b) = choose|a: int, b: int| 0 <= a < rems.len() && 0 <= b < rems.len() && a != b
                && rems[a].len() > 0 && rems[b].len() > 0 && #[trigger] rems[a][0].0 == c && #[trigger] rems[b][0].0 == c;
            assert(has_key(rems[a], c) && has_key(rems[b], c));
            assert(merged(rems) == Err::<Seq<(u64, Seq<u8>)>, u64>(c));
            assert(has_key(rems[a], merged(rems)->Err_0) && has_key(rems[b], merged(rems)->Err_0));
        },
        Ok(None) => {
            let t = choose|t: int| 0 <= t < rems[i].len() && #[trigger] rems[i][t].0 == k;
        },
        Ok(Some(idx)) => {
            let h = rems[idx][0];
            let r2 = rems.update(idx, rems[idx].drop_first());
            lemma_total_update(rems, idx, rems[idx].drop_first());
            lemma_advance_input(rems, idx);
            if h.0 == k {
                let other = if idx == i { j } else { i };
                let t = choose|t: int| 0 <= t < rems[other].len() && #[trigger] rems[other][t].0 == k;
                assert(strictly_rising(rems[other]));
                if t > 0 {
                    assert(rems[other][0].0 < rems[other][t].0);
                }
                assert(rems[other][0].0 > h.0);
            }
            assert(has_key(r2[i], k));
            assert(has_key(r2[j], k));
            lemma_merge_collision(r2, i, j, k);
            let c = merged(r2)->Err_0;
            let (a, b) = choose|a: int, b: int| 0 <= a < r2.len() && 0 <= b < r2.len() && a != b
                && #[trigger] has_key(r2[a], c) && #[trigger] has_key(r2[b], c);
            assert(has_key(rems[a], c));
            assert(has_key(rems[b], c));
            assert(merged(rems) == Err::<Seq<(u64, Seq<u8>)>, u64>(c));
            assert(has_key(rems[a], merged(rems)->Err_0) && has_key(rems[b], merged(rems)->Err_0));
        },
    }
}

/// Merging written stores whose objects have rising nonzero keys, with no key
/// in two stores, writes every object of every store once, in rising key
/// order.
pub proof fn lemma_merge_written(inputs: Seq<Vec<u8>>, kinds: Seq<u16>, objss: Seq<Seq<(u64, Seq<u8>)>>)
    requires
        inputs.len() == objss.len(),
        kinds.len() == objss.len(),
        forall|i: int| 0 <= i < inputs.len() ==> written_image(#[trigger] inputs[i]@, kinds[i], objss[i]),
        forall|i: int| 0 <= i < inputs.len() ==> (#[trigger] inputs[i]@).len() <= usize::MAX,
        forall|i: int, t: int| 0 <= i < objss.len() && 0 <= t < objss[i].len() ==> #[trigger] objss[i][t].0 != 0,
        mergeable(objss),
        keys_disjoint(objss),
    ensures
        header_error(input_bytes(inputs)) is None,
        input_contents(inputs) == objss,
        merged(objss) is Ok,
        strictly_rising(merged(objss)->Ok_0),
        merged(objss)->Ok_0.len() == total(objss),
        forall|o: (u64, Seq<u8>)| merged(objss)->Ok_0.contains(o) <==> exists|i: int| 0 <= i < objss.len()
            && #[trigger] objss[i].contains(o),
{
    assert forall|i: int| 0 <= i < inputs.len() implies #[trigger] input_contents(inputs)[i] == objss[i] by {
        assert forall|j: int| 0 <= j < objss[i].len() implies #[trigger] objss[i][j].0 != 0 by {}
        lemma_written_stored(inputs[i]@, kinds[i], objss[i]);
        assert(inputs[i]@.len() <= usize::MAX);
    }
    assert(input_contents(inputs) =~= objss);
    lemma_no_header_error(input_bytes(inputs));
    lemma_merge_disjoint(objss);
}

/// Merging one input writes its objects as they come.
pub proof fn lemma_merge_single(objs: Seq<(u64, Seq<u8>)>)
    ensures
        merged(seq![objs]) == Ok::<Seq<(u64, Seq<u8>)>, u64>(objs),
    decreases objs.len(),
{
    let rems = seq![objs];
    assert(rems[0] == objs);
    if objs.len() == 0 {
        assert(scan_min(rems, 1, u64::MAX, None) == Ok::<Option<int>, u64>(None));
        assert(scan_min(rems, 0, u64::MAX, None) == Ok::<Option<int>, u64>(None));
        assert(objs =~= Seq::<(u64, Seq<u8>)>::empty());
    } else {
        let rest = objs.drop_first();
        assert(scan_min(rems, 1, objs[0].0, Some(0)) == Ok::<Option<int>, u64>(Some(0)));
        assert(scan_min(rems, 0, u64::MAX, None) == Ok::<Option<int>, u64>(Some(0)));
        assert(rems.update(0, rest) =~= seq![rest]);
        lemma_merge_single(rest);
        assert(merged(rems.update(0, rest)) == Ok::<Seq<(u64, Seq<u8>)>, u64>(rest));
        assert(seq![objs[0]] + rest =~= objs);
    }
}

/// Merging one store the writer wrote, its objects keyed above 0, gives back
/// the same bytes.
pub proof fn lemma_merge_one_store(d: Seq<u8>, objs: Seq<(u64, Seq<u8>)>)
    requires
        d == store_image(objs, StoreMetadata::TYPE_PACHASH),
        written_image(d, StoreMetadata::TYPE_PACHASH, objs),
        d.len() <= usize::MAX,
        forall|t: int| 0 <= t < objs.len() ==> #[trigger] objs[t].0 != 0,
    ensures
        header_error(seq![d]) is None,
        merged(seq![contents(d)]) == Ok::<Seq<(u64, Seq<u8>)>, u64>(objs),
        store_image(objs, StoreMetadata::TYPE_PACHASH) == d,
{
    lemma_written_stored(d, StoreMetadata::TYPE_PACHASH, objs);
    assert(contents(d) == objs);
    lemma_merge_single(objs);
    assert(seq![d][0] == d);
    assert(seq![d].drop_first() =~= Seq::<Seq<u8>>::empty());
    assert(header_error(seq![d].drop_first()) is None);
}

/// Two sequences with strictly rising keys that hold the same objects are
/// the same sequence.
proof fn lemma_rising_unique(a: Seq<(u64, Seq<u8>)>, b: Seq<(u64, Seq<u8>)>)
    requires
        strictly_rising(a),
        strictly_rising(b),
        forall|o: (u64, Seq<u8>)| a.contains(o) <==> b.contains(o),
    ensures
        a == b,
{
    let m = if a.len() < b.len() { a.len() as int } else { b.len() as int };
    assert forall|i: int| 0 <= i < m implies a[i] == b[i] by {
        lemma_rising_prefix(a, b, i);
    }
    if a.len() > b.len() {
        let x = a[m];
        assert(a.contains(x));
        let j = choose|j: int| 0 <= j < b.len() && b[j] == x;
        lemma_rising_prefix(a, b, j);
        assert(a[j].0 < a[m].0);
    } else if b.len() > a.len() {
        let x = b[m];
        assert(b.contains(x));
        let j = choose|j: int| 0 <= j < a.len() && a[j] == x;
        lemma_rising_prefix(a, b, j);
        assert(b[j].0 < b[m].0);
    }
    assert(a =~= b);
}

proof fn lemma_rising_prefix(a: Seq<(u64, Seq<u8>)>, b: Seq<(u64, Seq<u8>)>, i: int)
    requires
        strictly_rising(a),
        strictly_rising(b),
        forall|o: (u64, Seq<u8>)| a.contains(o) <==> b.contains(o),
        0 <= i < a.len(),
        i < b.len(),
    ensures
        a[i] == b[i],
    decreases i,
{
    assert forall|k: int| 0 <= k < i implies a[k] == b[k] by {
        lemma_rising_prefix(a, b, k);
    }
    assert(a.contains(a[i]));
    assert(b.contains(b[i]));
    let j = choose|j: int| 0 <= j < b.len() && b[j] == a[i];
    let j2 = choose|j: int| 0 <= j < a.len() && a[j] == b[i];
    if j < i {
        assert(a[j] == b[j]);
        assert(a[j].0 < a[i].0);
    }
    if j2 < i {
        assert(a[j2] == b[j2]);
        assert(b[j2].0 < b[i].0);
    }
    if j > i && j2 > i {
        assert(b[i].0 < b[j].0);
        assert(a[i].0 < a[j2].0);
    }
}

/// Merging written stores whose objects have rising nonzero keys, no key in
/// two stores, writes what writing all their objects at once writes: the
/// same objects in the same order, so the same bytes.
pub proof fn lemma_merge_is_write(
    inputs: Seq<Vec<u8>>,
    kinds: Seq<u16>,
    objss: Seq<Seq<(u64, Seq<u8>)>>,
    all: Seq<(u64, Seq<u8>)>,
    perm: Seq<usize>,
)
    requires
        inputs.len() == objss.len(),
        kinds.len() == objss.len(),
        forall|i: int| 0 <= i < inputs.len() ==> written_image(#[trigger] inputs[i]@, kinds[i], objss[i]),
        forall|i: int| 0 <= i < inputs.len() ==> (#[trigger] inputs[i]@).len() <= usize::MAX,
        forall|i: int, t: int| 0 <= i < objss.len() && 0 <= t < objss[i].len() ==> #[trigger] objss[i][t].0 != 0,
        mergeable(objss),
        keys_disjoint(objss),
        distinct_keys(all),
        forall|o: (u64, Seq<u8>)| all.contains(o) <==> exists|i: int| 0 <= i < objss.len()
            && #[trigger] objss[i].contains(o),
        sorted_order(item_keys(all), perm),
    ensures
        merged(input_contents(inputs)) == Ok::<Seq<(u64, Seq<u8>)>, u64>(permuted(all, perm)),
        store_image(merged(input_contents(inputs))->Ok_0, StoreMetadata::TYPE_PACHASH)
            == store_image(permuted(all, perm), StoreMetadata::TYPE_PACHASH),
{
    lemma_merge_written(inputs, kinds, objss);
    let m = merged(objss)->Ok_0;
    let p = permuted(all, perm);
    lemma_sorted_items(all, perm, 1);
    assert forall|o: (u64, Seq<u8>)| p.contains(o) <==> all.contains(o) by {
        if p.contains(o) {
            let i = choose|i: int| 0 <= i < p.len() && p[i] == o;
            assert(all[perm[i] as int] == o);
        }
        if all.contains(o) {
            let j = choose|j: int| 0 <= j < all.len() && all[j] == o;
            let i = lemma_sorted_order_onto(item_keys(all), perm, j);
            assert(p[i] == o);
        }
    }
    assert(strictly_rising(p));
    lemma_rising_unique(m, p);
}

/// Inputs whose headers all read have no header error.
proof fn lemma_no_header_error(ins: Seq<Seq<u8>>)
    requires
        forall|i: int| 0 <= i < ins.len() ==> #[trigger] parse_metadata(ins[i]) is Ok,
    ensures
        header_error(ins) is None,
    decreases ins.len(),
{
    if ins.len() > 0 {
        assert(parse_metadata(ins[0]) is Ok);
        let rest = ins.drop_first();
        assert forall|i: int| 0 <= i < rest.len() implies #[trigger] parse_metadata(rest[i]) is Ok by {
            assert(rest[i] == ins[i + 1]);
        }
        lemma_no_header_error(rest);
    }
}

/// `done` followed by what `r` writes.
pub open spec fn after(done: Seq<(u64, Seq<u8>)>, r: Result<Seq<(u64, Seq<u8>)>, u64>) -> Result<
    Seq<(u64, Seq<u8>)>,
    u64,
> {
    match r {
        Err(k) => Err(k),
        Ok(rest) => Ok(done + rest),
    }
}

/// What each reader has left.
pub open spec fn rests(readers: Seq<LinearObjectReader>) -> Seq<Seq<(u64, Seq<u8>)>> {
    readers.map_values(|r: LinearObjectReader| r.remaining())
}

/// What a merge of inputs holding `init` gives, said directly: when each
/// input's keys rise strictly and no key is in two inputs, every object of
/// every input once, in rising key order; when two inputs share a key, a
/// collision on a key two inputs hold.
pub open spec fn merge_outcome(init: Seq<Seq<(u64, Seq<u8>)>>) -> bool {
    &&& mergeable(init) && keys_disjoint(init) ==> {
        &&& merged(init) is Ok
        &&& strictly_rising(merged(init)->Ok_0)
        &&& merged(init)->Ok_0.len() == total(init)
        &&& forall|o: (u64, Seq<u8>)| merged(init)->Ok_0.contains(o) <==> exists|i: int| 0 <= i < init.len()
            && #[trigger] init[i].contains(o)
    }
    &&& mergeable(init) && !keys_disjoint(init) ==> {
        &&& merged(init) is Err
        &&& exists|a: int, b: int| 0 <= a < init.len() && 0 <= b < init.len() && a != b
            && #[trigger] has_key(init[a], merged(init)->Err_0) && #[trigger] has_key(init[b], merged(init)->Err_0)
    }
}

/// Merge `inputs` into one store's bytes.
///
/// Inputs must be valid PaCHash stores sorted by key. Returns an error when any
/// header is invalid or when two inputs share a key.
pub fn merge(inputs: &[Vec<u8>]) -> (r: Result<Vec<u8>, MergeError>)
    requires
        forall|i: int| 0 <= i < inputs@.len() ==> reader_ready(#[trigger] inputs@[i]@),
    ensures
        match header_error(input_bytes(inputs@)) {
            Some(e) => r == Err::<Vec<u8>, MergeError>(MergeError::Metadata(e)),
            None => match merged(input_contents(inputs@)) {
                Err(k) => r == Err::<Vec<u8>, MergeError>(MergeError::KeyCollision(k)),
                Ok(objs) => r is Ok && r->Ok_0@ == store_image(objs, StoreMetadata::TYPE_PACHASH)
                    && written_image(r->Ok_0@, StoreMetadata::TYPE_PACHASH, objs)
                    && ((forall|j: int| 0 <= j < objs.len() ==> #[trigger] objs[j].0 != 0)
                    ==> stored_objects(r->Ok_0@, (r->Ok_0@.len() / 4096) as int) == objs),
            },
        },
        merge_outcome(input_contents(inputs@)),
{
    let ghost ins = input_bytes(inputs@);
    let ghost init = input_contents(inputs@);
    proof {
        if mergeable(init) {
            if keys_disjoint(init) {
                lemma_merge_disjoint(init);
            } else {
                let (i, j, k) = choose|i: int, j: int, k: u64| 0 <= i < init.len() && 0 <= j < init.len()
                    && i != j && #[trigger] has_key(init[i], k) && #[trigger] has_key(init[j], k);
                lemma_merge_collision(init, i, j, k);
            }
        }
    }
    let n = inputs.len();
    let mut readers: Vec<LinearObjectReader> = Vec::new();
    let mut i: usize = 0;
    proof {
        assert(ins.skip(0) =~= ins);
    }
    while i < n
        invariant
            i <= n,
            n == inputs@.len(),
            ins == input_bytes(inputs@),
            init == input_contents(inputs@),
            merge_outcome(init),
            forall|j: int| 0 <= j < inputs@.len() ==> reader_ready(#[trigger] inputs@[j]@),
            readers@.len() == i,
            forall|j: int| 0 <= j < i ==> (#[trigger] readers@[j]).wf(),
            rests(readers@) == init.take(i as int),
            header_error(ins) == header_error(ins.skip(i as int)),
        decreases n - i,
    {
        proof {
            assert(ins.skip(i as int)[0] == inputs@[i as int]@);
            assert(ins.skip(i as int).drop_first() =~= ins.skip(i + 1));
            lemma_ready_opens(inputs@[i as int]@);
        }
        match LinearObjectReader::new(inputs[i].as_slice()) {
            Ok(reader) => {
                let ghost before = readers@;
                readers.push(reader);
                proof {
                    assert(rests(readers@) =~= rests(before).push(reader.remaining()));
                    assert(init.take(i + 1) =~= init.take(i as int).push(init[i as int]));
                }
            },
            Err(e) => {
                return Err(MergeError::Metadata(e));
            },
        }
        i = i + 1;
    }
    proof {
        assert(ins.skip(n as int) =~= Seq::<Seq<u8>>::empty());
        assert(init.take(n as int) =~= init);
    }
    let mut writer = LinearObjectWriter::new();
    loop
        invariant
            writer.wf(),
            readers@.len() == n,
            forall|j: int| 0 <= j < n ==> (#[trigger] readers@[j]).wf(),
            header_error(ins) is None,
            ins == input_bytes(inputs@),
            init == input_contents(inputs@),
            merge_outcome(init),
            merged(init) == after(writer.objects(), merged(rests(readers@))),
        decreases total(rests(readers@)),
    {
        let ghost rems = rests(readers@);
        let mut min_reader: Option<usize> = None;
        let mut min_key: u64 = u64::MAX;
        let mut k: usize = 0;
        while k < n
            invariant
                k <= n,
                readers@.len() == n,
                rems == rests(readers@),
                header_error(ins) is None,
                ins == input_bytes(inputs@),
                init == input_contents(inputs@),
                merge_outcome(init),
                merged(init) == after(writer.objects(), merged(rems)),
                forall|j: int| 0 <= j < n ==> (#[trigger] readers@[j]).wf(),
                scan_min(rems, 0, u64::MAX, None) == scan_min(rems, k as int, min_key,
                    match min_reader { Some(j) => Some(j as int), None => None }),
                min_reader matches Some(j) ==> j < n && rems[j as int].len() > 0 && rems[j as int][0].0 == min_key
                    && rems[j as int][0] == readers@[j as int].current(),
            decreases n - k,
        {
            let has = readers[k].has_current();
            if has {
                let key = readers[k].current_key();
                proof {
                    assert(rems[k as int] == readers@[k as int].remaining());
                    assert(rems[k as int][0] == readers@[k as int].current());
                }
                if key == min_key && min_reader.is_some() {
                    proof {
                        assert(merged(rems) == Err::<Seq<(u64, Seq<u8>)>, u64>(key));
                    }
                    return Err(MergeError::KeyCollision(key));
                }
                if min_reader.is_none() || key < min_key {
                    min_key = key;
                    min_reader = Some(k);
                }
            }
            k = k + 1;
        }
        match min_reader {
            None => {
                proof {
                    assert(merged(rems) == Ok::<Seq<(u64, Seq<u8>)>, u64>(Seq::empty()));
                    assert(writer.objects() + Seq::<(u64, Seq<u8>)>::empty() =~= writer.objects());
                }
                return Ok(writer.finish(StoreMetadata::TYPE_PACHASH));
            },
            Some(idx) => {
                let value = vstd::slice::slice_to_vec(readers[idx].current_value());
                let ghost wobjs = writer.objects();
                writer.write(min_key, value.as_slice());
                let mut reader = readers.remove(idx);
                let ghost after_remove = readers@;
                reader.advance();
                readers.insert(idx, reader);
                proof {
                    let rest = rems.update(idx as int, rems[idx as int].drop_first());
                    assert(readers@ =~= after_remove.insert(idx as int, reader));
                    assert(rests(readers@) =~= rest);
                    lemma_total_update(rems, idx as int, rems[idx as int].drop_first());
                    assert(merged(rems) == after(seq![rems[idx as int][0]], merged(rest)));
                    assert(rems[idx as int][0] == (min_key, value@));
                    assert(wobjs.push((min_key, value@)) + Seq::<(u64, Seq<u8>)>::empty() =~= wobjs.push((min_key, value@)));
                    match merged(rest) {
                        Ok(t) => {
                            assert(wobjs + (seq![rems[idx as int][0]] + t) =~= wobjs.push((min_key, value@)) + t);
                        },
                        Err(_) => {},
                    }
                }
            },
        }
    }
}

} // verus!
