//! A hash map from difference vectors to the index pairs of the points
//! they lie between.

use crate::discovery::siatec_c::comes_before;
use crate::discovery::siatec_c::has_pair;
use crate::discovery::siatec_c::is_index_group;
use crate::discovery::siatec_c::is_windowed_entry;
use crate::discovery::siatec_c::pair_generated_before;
use crate::discovery::siatec_c::pairs_ascending;
use crate::discovery::siatec_c::IndPair;
use crate::point_set::point::Point2Di64;
use crate::point_set::set::strictly_ascending;
use crate::point_set::set::PointSet;
use hashers::fx_hash::FxHasher64;
use std::collections::HashMap;
use std::hash::BuildHasherDefault;
use vstd::prelude::*;

verus! {

/// The hasher `FxHasher64` of the `hashers` crate, of which nothing is
/// looked at.
#[verifier::external_type_specification]
#[verifier::external_body]
pub struct ExFxHasher64(FxHasher64);

/// The standard library's `BuildHasherDefault`, which makes hashers by
/// their `Default` implementation and of which nothing is looked at.
#[verifier::external_type_specification]
#[verifier::external_body]
#[verifier::reject_recursive_types(H)]
pub struct ExBuildHasherDefault<H>(BuildHasherDefault<H>);

/// A hash map from difference vectors to lists of index pairs.
pub type HMap = HashMap<Point2Di64, Vec<IndPair>, BuildHasherDefault<FxHasher64>>;

/// Makes an empty map with `HashMap::with_hasher`, which the standard
/// library documents to return an empty map that uses the given hasher
/// builder; the builder makes a new `FxHasher64` for each key.
#[verifier::external_body]
pub(crate) fn new_hmap() -> (empty: HMap)
    ensures
        empty@.len() == 0,
        forall|key: Point2Di64| !empty@.contains_key(key),
{
    HashMap::with_hasher(BuildHasherDefault::<FxHasher64>::default())
}

/// Looks a key up with `HashMap::get`, which the standard library
/// documents to return a reference to the value of the key, or nothing
/// where the map does not hold the key. `FxHasher64` computes the hash from
/// the two components of the point alone, so equal points are found again.
#[verifier::external_body]
pub(crate) fn hmap_get<'a>(map: &'a HMap, key: &Point2Di64) -> (value: Option<&'a Vec<IndPair>>)
    ensures
        match value {
            Some(pairs) => map@.contains_key(*key) && *pairs == map@[*key],
            None => !map@.contains_key(*key),
        },
{
    map.get(key)
}

/// Takes a key out with `HashMap::remove`, which the standard library
/// documents to remove the key from the map and to return its value, if the
/// key was in the map.
#[verifier::external_body]
pub(crate) fn hmap_remove(map: &mut HMap, key: &Point2Di64) -> (value: Option<Vec<IndPair>>)
    ensures
        final(map)@ == old(map)@.remove(*key),
        match value {
            Some(pairs) => old(map)@.contains_key(*key) && pairs == old(map)@[*key],
            None => !old(map)@.contains_key(*key),
        },
{
    map.remove(key)
}

/// Puts a key and its value in with `HashMap::insert`, which the standard
/// library documents to insert the pair into the map, in place of the value
/// that the key had before, if any.
#[verifier::external_body]
pub(crate) fn hmap_insert(map: &mut HMap, key: Point2Di64, value: Vec<IndPair>)
    ensures
        final(map)@ == old(map)@.insert(key, value),
{
    map.insert(key, value);
}

/// Hands out the keys of the map with their values, by `HashMap::iter`,
/// which the standard library documents to visit all key-value pairs in
/// arbitrary order. The contract claims that each key of the map comes
/// once, with its value, and nothing else.
#[verifier::external_body]
pub(crate) fn hmap_entries<'a>(map: &'a HMap) -> (entries: Vec<(Point2Di64, &'a Vec<IndPair>)>)
    ensures
        forall|k: int|
            0 <= k < entries@.len() ==> map@.contains_key((#[trigger] entries@[k]).0)
                && *entries@[k].1 == map@[entries@[k].0],
        forall|a: int, b: int|
            0 <= a < b < entries@.len() ==> (#[trigger] entries@[a]).0 != (#[trigger] entries@[b]).0,
        forall|key: Point2Di64|
            map@.contains_key(key) ==> exists|k: int|
                0 <= k < entries@.len() && (#[trigger] entries@[k]).0 == key,
{
    map.iter().map(|(key, pairs)| (*key, pairs)).collect()
}

/// The pairs that the map holds for the key, none where it does not hold
/// the key.
pub open spec fn pairs_of(map: Map<Point2Di64, Vec<IndPair>>, key: Point2Di64) -> Seq<IndPair> {
    if map.contains_key(key) {
        map[key]@
    } else {
        Seq::empty()
    }
}

/// Adds an index pair to the pairs that the map holds for a difference.
pub fn add_pair(map: &mut HMap, diff: Point2Di64, pair: IndPair)
    ensures
        final(map)@.contains_key(diff),
        final(map)@[diff]@ == pairs_of(old(map)@, diff).push(pair),
        forall|key: Point2Di64|
            key != diff ==> (#[trigger] final(map)@.contains_key(key) <==> old(map)@.contains_key(
                key,
            )),
        forall|key: Point2Di64|
            key != diff && old(map)@.contains_key(key) ==> #[trigger] final(map)@[key] == old(
                map,
            )@[key],
{
    match hmap_remove(map, &diff) {
        Some(pairs) => {
            let mut longer = pairs;
            longer.push(pair);
            hmap_insert(map, diff, longer);
        },
        None => {
            let mut single: Vec<IndPair> = Vec::new();
            single.push(pair);
            hmap_insert(map, diff, single);
        },
    }
}

/// The map holds the first `x` entries grouped by difference: for each
/// difference among them the index pairs of the entries with that
/// difference, in ascending order.
pub open spec fn is_hash_grouping_up_to(
    points: Seq<Point2Di64>,
    max_ioi: i64,
    entries: Seq<(Point2Di64, IndPair)>,
    x: int,
    map: Map<Point2Di64, Vec<IndPair>>,
) -> bool {
    &&& forall|key: Point2Di64|
        #[trigger] map.contains_key(key) ==> is_index_group(points, max_ioi, (key, map[key]))
    &&& forall|key: Point2Di64, k: int|
        map.contains_key(key) && 0 <= k < map[key]@.len() ==> comes_before(
            entries,
            x,
            key,
            #[trigger] map[key]@[k],
        )
    &&& forall|y: int|
        0 <= y < x && y < entries.len() ==> map.contains_key((#[trigger] entries[y]).0)
            && has_pair(map[entries[y].0]@, entries[y].1.0 as int, entries[y].1.1 as int)
}

/// The map holds the entries grouped by difference.
pub open spec fn is_hash_grouping_of(
    points: Seq<Point2Di64>,
    max_ioi: i64,
    entries: Seq<(Point2Di64, IndPair)>,
    map: Map<Point2Di64, Vec<IndPair>>,
) -> bool {
    is_hash_grouping_up_to(points, max_ioi, entries, entries.len() as int, map)
}

/// The entries are in the order in which they are generated from the
/// points, and each holds the difference between two points of the set, the
/// second after the first and at most `max_ioi` later in onset.
pub open spec fn is_generated_list(
    points: Seq<Point2Di64>,
    max_ioi: i64,
    entries: Seq<(Point2Di64, IndPair)>,
) -> bool {
    &&& forall|k: int|
        0 <= k < entries.len() ==> is_windowed_entry(points, max_ioi, #[trigger] entries[k])
    &&& forall|a: int, b: int|
        0 <= a < b < entries.len() ==> pair_generated_before(
            (#[trigger] entries[a]).1,
            (#[trigger] entries[b]).1,
        )
}

/// Groups the entries by difference in a hash map.
pub fn group_by_hash(point_set: &PointSet, max_ioi: i64, entries: &Vec<(Point2Di64, IndPair)>) -> (grouped:
    HMap)
    requires
        is_generated_list(point_set@, max_ioi, entries@),
    ensures
        is_hash_grouping_of(point_set@, max_ioi, entries@, grouped@),
{
    proof {
        use_type_invariant(point_set);
    }
    let ghost points = point_set@;
    let mut grouped = new_hmap();
    let mut x: usize = 0;
    while x < entries.len()
        invariant
            x <= entries@.len(),
            points == point_set@,
            strictly_ascending(points),
            is_generated_list(points, max_ioi, entries@),
            is_hash_grouping_up_to(points, max_ioi, entries@, x as int, grouped@),
        decreases entries@.len() - x,
    {
        let entry = entries[x];
        let ghost before = grouped@;
        add_pair(&mut grouped, entry.0, entry.1);
        proof {
            lemma_pair_added(points, max_ioi, entries@, x as int, before, grouped@);
        }
        x += 1;
    }
    grouped
}

/// The pairs of a group stay in ascending order when the pair of the next
/// entry with the group's difference is added.
proof fn lemma_group_stays_ascending(
    points: Seq<Point2Di64>,
    max_ioi: i64,
    entries: Seq<(Point2Di64, IndPair)>,
    x: int,
    before: Map<Point2Di64, Vec<IndPair>>,
    group: Seq<IndPair>,
)
    requires
        strictly_ascending(points),
        is_generated_list(points, max_ioi, entries),
        is_hash_grouping_up_to(points, max_ioi, entries, x, before),
        0 <= x < entries.len(),
        group == pairs_of(before, entries[x].0).push(entries[x].1),
    ensures
        pairs_ascending(group),
        forall|k: int|
            0 <= k < group.len() ==> is_windowed_entry(
                points,
                max_ioi,
                (entries[x].0, #[trigger] group[k]),
            ),
{
    let diff = entries[x].0;
    let pair = entries[x].1;
    let old_pairs = pairs_of(before, diff);
    assert(is_windowed_entry(points, max_ioi, entries[x]));
    if before.contains_key(diff) {
        assert(is_index_group(points, max_ioi, (diff, before[diff])));
    }
    assert forall|k: int| 0 <= k < group.len() implies is_windowed_entry(
        points,
        max_ioi,
        (diff, #[trigger] group[k]),
    ) by {
        if k < old_pairs.len() {
            assert(is_windowed_entry(points, max_ioi, (diff, before[diff]@[k])));
        }
    }
    assert forall|a: int, b: int| 0 <= a < b < group.len() implies (#[trigger] group[a]).0 < (
    #[trigger] group[b]).0 && group[a].1 < group[b].1 by {
        if b < old_pairs.len() {
            assert(old_pairs[a].0 < old_pairs[b].0);
        } else {
            assert(comes_before(entries, x, diff, before[diff]@[a]));
            let y = choose|y: int|
                0 <= y < x && y < entries.len() && #[trigger] entries[y] == (diff, before[diff]@[a]);
            assert(pair_generated_before(entries[y].1, entries[x].1));
            assert(is_windowed_entry(points, max_ioi, entries[y]));
            let i1 = entries[y].1.0 as int;
            let j1 = entries[y].1.1 as int;
            let i2 = pair.0 as int;
            let j2 = pair.1 as int;
            if i1 == i2 {
                assert(points[j1].lex_lt(points[j2]));
            } else {
                assert(points[i1].lex_lt(points[i2]));
                if j2 <= j1 {
                    if j2 < j1 {
                        assert(points[j2].lex_lt(points[j1]));
                    }
                }
            }
        }
    }
}

/// After the pair of the entry at `x` has been added, the entries up to it
/// are grouped.
proof fn lemma_pair_added(
    points: Seq<Point2Di64>,
    max_ioi: i64,
    entries: Seq<(Point2Di64, IndPair)>,
    x: int,
    before: Map<Point2Di64, Vec<IndPair>>,
    after: Map<Point2Di64, Vec<IndPair>>,
)
    requires
        strictly_ascending(points),
        is_generated_list(points, max_ioi, entries),
        is_hash_grouping_up_to(points, max_ioi, entries, x, before),
        0 <= x < entries.len(),
        after.contains_key(entries[x].0),
        after[entries[x].0]@ == pairs_of(before, entries[x].0).push(entries[x].1),
        forall|key: Point2Di64|
            key != entries[x].0 ==> (#[trigger] after.contains_key(key) <==> before.contains_key(
                key,
            )),
        forall|key: Point2Di64|
            key != entries[x].0 && before.contains_key(key) ==> #[trigger] after[key]
                == before[key],
    ensures
        is_hash_grouping_up_to(points, max_ioi, entries, x + 1, after),
{
    let diff = entries[x].0;
    let pair = entries[x].1;
    let old_pairs = pairs_of(before, diff);
    lemma_group_stays_ascending(points, max_ioi, entries, x, before, after[diff]@);
    assert forall|key: Point2Di64| #[trigger] after.contains_key(key) implies is_index_group(
        points,
        max_ioi,
        (key, after[key]),
    ) by {
        if key != diff {
            assert(before.contains_key(key));
            assert(is_index_group(points, max_ioi, (key, before[key])));
        }
    }
    assert forall|key: Point2Di64, k: int|
        after.contains_key(key) && 0 <= k < after[key]@.len() implies comes_before(
        entries,
        x + 1,
        key,
        #[trigger] after[key]@[k],
    ) by {
        if key != diff {
            assert(before.contains_key(key));
            assert(after[key] == before[key]);
            assert(comes_before(entries, x, key, before[key]@[k]));
            let y = choose|y: int|
                0 <= y < x && y < entries.len() && #[trigger] entries[y] == (key, before[key]@[k]);
            assert(0 <= y < x + 1 && entries[y] == (key, after[key]@[k]));
        } else if k < old_pairs.len() {
            assert(comes_before(entries, x, key, before[key]@[k]));
            let y = choose|y: int|
                0 <= y < x && y < entries.len() && #[trigger] entries[y] == (key, before[key]@[k]);
            assert(0 <= y < x + 1 && entries[y] == (key, after[key]@[k]));
        } else {
            assert(0 <= x < x + 1 && entries[x] == (key, after[key]@[k]));
        }
    }
    assert forall|y: int| 0 <= y < x + 1 && y < entries.len() implies after.contains_key(
        (#[trigger] entries[y]).0,
    ) && has_pair(after[entries[y].0]@, entries[y].1.0 as int, entries[y].1.1 as int) by {
        if y < x {
            let key = entries[y].0;
            assert(before.contains_key(key));
            assert(has_pair(before[key]@, entries[y].1.0 as int, entries[y].1.1 as int));
            let k = choose|k: int|
                0 <= k < before[key]@.len() && (#[trigger] before[key]@[k]).0 == entries[y].1.0
                    && before[key]@[k].1 == entries[y].1.1;
            if key != diff {
                assert(after[key] == before[key]);
            } else {
                assert(after[key]@[k] == before[key]@[k]);
            }
            assert(after[key]@[k].0 == entries[y].1.0);
        } else {
            assert(after[diff]@[old_pairs.len() as int] == pair);
        }
    }
}

} // verus!
