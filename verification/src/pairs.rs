//! The pairs of touching circles that a pass lists: every circle is
//! tested against the circles after it in the cache, and against no
//! other.

use crate::entity::Entity;
use crate::graph::circles_hit;
use crate::graph::CacheRow;
use vstd::prelude::*;

verus! {

/// The pairs that row `index` yields against the rows after it and before
/// `end`, in the order of those rows.
pub open spec fn row_pairs(cache: Seq<CacheRow>, index: int, end: int) -> Seq<(Entity, Entity)>
    decreases end - index,
{
    if end <= index + 1 {
        Seq::empty()
    } else {
        let earlier = row_pairs(cache, index, end - 1);
        if circles_hit(cache[index], cache[end - 1]) {
            earlier.push((cache[index].0, cache[end - 1].0))
        } else {
            earlier
        }
    }
}

/// The pairs of the first `rows` rows, row after row.
pub open spec fn circle_pairs(cache: Seq<CacheRow>, rows: int) -> Seq<(Entity, Entity)>
    decreases rows,
{
    if rows <= 0 {
        Seq::empty()
    } else {
        circle_pairs(cache, rows - 1) + row_pairs(cache, rows - 1, cache.len() as int)
    }
}

/// `pair` holds the entities of rows `i` and `j`, with `i` before `j`,
/// whose circles touch.
pub open spec fn circle_tested(cache: Seq<CacheRow>, i: int, j: int, pair: (Entity, Entity)) -> bool {
    &&& 0 <= i < j < cache.len()
    &&& circles_hit(cache[i], cache[j])
    &&& pair == (cache[i].0, cache[j].0)
}

/// `pair` stems from row `index` and a row after it and before `end`.
pub open spec fn row_found(cache: Seq<CacheRow>, index: int, end: int, pair: (Entity, Entity)) -> bool {
    exists|j: int| j < end && #[trigger] circle_tested(cache, index, j, pair)
}

/// `pair` stems from one of the first `rows` rows and a row after it.
pub open spec fn circle_found(cache: Seq<CacheRow>, rows: int, pair: (Entity, Entity)) -> bool {
    exists|i: int, j: int| i < rows && #[trigger] circle_tested(cache, i, j, pair)
}

/// The pairs of a row are those of the touching circles after it.
pub proof fn lemma_row_pairs(cache: Seq<CacheRow>, index: int, end: int)
    requires
        0 <= index < cache.len(),
        end <= cache.len(),
    ensures
        forall|pair: (Entity, Entity)| #[trigger]
            row_pairs(cache, index, end).contains(pair) <==> row_found(cache, index, end, pair),
    decreases end - index,
{
    let row = row_pairs(cache, index, end);
    if end <= index + 1 {
        assert forall|pair: (Entity, Entity)| !row_found(cache, index, end, pair) by {}
    } else {
        lemma_row_pairs(cache, index, end - 1);
        let before = row_pairs(cache, index, end - 1);
        let last = (cache[index].0, cache[end - 1].0);
        assert forall|pair: (Entity, Entity)| #[trigger] row.contains(pair) implies row_found(
            cache,
            index,
            end,
            pair,
        ) by {
            let k = choose|k: int| 0 <= k < row.len() && row[k] == pair;
            if k < before.len() {
                assert(before[k] == pair);
                assert(before.contains(pair));
                assert(row_found(cache, index, end - 1, pair));
                let j = choose|j: int| j < end - 1 && #[trigger] circle_tested(cache, index, j, pair);
                assert(circle_tested(cache, index, j, pair));
            } else {
                assert(circle_tested(cache, index, end - 1, pair));
            }
        }
        assert forall|pair: (Entity, Entity)| row_found(cache, index, end, pair) implies #[trigger]
            row.contains(pair) by {
            let j = choose|j: int| j < end && #[trigger] circle_tested(cache, index, j, pair);
            if j < end - 1 {
                assert(row_found(cache, index, end - 1, pair));
                assert(before.contains(pair));
                let k = choose|k: int| 0 <= k < before.len() && before[k] == pair;
                assert(row[k] == pair);
            } else {
                assert(row[row.len() - 1] == pair);
            }
        }
    }
}

/// The pairs of the first rows are those of the touching circles among
/// them and the rows after them.
pub proof fn lemma_circle_pairs(cache: Seq<CacheRow>, rows: int)
    requires
        0 <= rows <= cache.len(),
    ensures
        forall|pair: (Entity, Entity)| #[trigger]
            circle_pairs(cache, rows).contains(pair) <==> circle_found(cache, rows, pair),
    decreases rows,
{
    let all = circle_pairs(cache, rows);
    if rows <= 0 {
        assert forall|pair: (Entity, Entity)| !circle_found(cache, rows, pair) by {}
    } else {
        lemma_circle_pairs(cache, rows - 1);
        lemma_row_pairs(cache, rows - 1, cache.len() as int);
        let before = circle_pairs(cache, rows - 1);
        let row = row_pairs(cache, rows - 1, cache.len() as int);
        assert forall|pair: (Entity, Entity)| #[trigger] all.contains(pair) implies circle_found(
            cache,
            rows,
            pair,
        ) by {
            let k = choose|k: int| 0 <= k < all.len() && all[k] == pair;
            if k < before.len() {
                assert(before[k] == pair);
                assert(before.contains(pair));
                assert(circle_found(cache, rows - 1, pair));
                let (i, j) = choose|i: int, j: int|
                    i < rows - 1 && #[trigger] circle_tested(cache, i, j, pair);
                assert(circle_tested(cache, i, j, pair));
            } else {
                assert(row[k - before.len()] == pair);
                assert(row.contains(pair));
                assert(row_found(cache, rows - 1, cache.len() as int, pair));
                let j = choose|j: int|
                    j < cache.len() && #[trigger] circle_tested(cache, rows - 1, j, pair);
                assert(circle_tested(cache, rows - 1, j, pair));
            }
        }
        assert forall|pair: (Entity, Entity)| circle_found(cache, rows, pair) implies #[trigger]
            all.contains(pair) by {
            let (i, j) = choose|i: int, j: int|
                i < rows && #[trigger] circle_tested(cache, i, j, pair);
            if i < rows - 1 {
                assert(circle_found(cache, rows - 1, pair));
                assert(before.contains(pair));
                let k = choose|k: int| 0 <= k < before.len() && before[k] == pair;
                assert(all[k] == pair);
            } else {
                assert(row_found(cache, rows - 1, cache.len() as int, pair));
                assert(row.contains(pair));
                let k = choose|k: int| 0 <= k < row.len() && row[k] == pair;
                assert(all[before.len() + k] == pair);
            }
        }
    }
}

/// Whether no two rows hold the same entity.
pub open spec fn distinct_entities(cache: Seq<CacheRow>) -> bool {
    forall|i: int, j: int|
        0 <= i < j < cache.len() ==> (#[trigger] cache[i]).0 != (#[trigger] cache[j]).0
}

proof fn lemma_same_entity(cache: Seq<CacheRow>, i: int, j: int)
    requires
        distinct_entities(cache),
        0 <= i < cache.len(),
        0 <= j < cache.len(),
        cache[i].0 == cache[j].0,
    ensures
        i == j,
{
    if i < j {
        assert(cache[i].0 != cache[j].0);
    } else if j < i {
        assert(cache[j].0 != cache[i].0);
    }
}

proof fn lemma_row_no_duplicates(cache: Seq<CacheRow>, index: int, end: int)
    requires
        distinct_entities(cache),
        0 <= index < cache.len(),
        end <= cache.len(),
    ensures
        row_pairs(cache, index, end).no_duplicates(),
    decreases end - index,
{
    if end > index + 1 {
        lemma_row_no_duplicates(cache, index, end - 1);
        lemma_row_pairs(cache, index, end - 1);
        let before = row_pairs(cache, index, end - 1);
        let last = (cache[index].0, cache[end - 1].0);
        if before.contains(last) {
            assert(row_found(cache, index, end - 1, last));
            let j = choose|j: int| j < end - 1 && #[trigger] circle_tested(cache, index, j, last);
            assert(cache[j].0 != cache[end - 1].0);
        }
        let row = before.push(last);
        assert forall|i: int, j: int| 0 <= i < row.len() && 0 <= j < row.len() && i != j implies row[i]
            != row[j] by {
            if i < before.len() {
                assert(before.contains(before[i]));
            }
            if j < before.len() {
                assert(before.contains(before[j]));
            }
        }
    }
}

proof fn lemma_pairs_no_duplicates(cache: Seq<CacheRow>, rows: int)
    requires
        distinct_entities(cache),
        0 <= rows <= cache.len(),
    ensures
        circle_pairs(cache, rows).no_duplicates(),
    decreases rows,
{
    if rows > 0 {
        lemma_pairs_no_duplicates(cache, rows - 1);
        lemma_row_no_duplicates(cache, rows - 1, cache.len() as int);
        lemma_circle_pairs(cache, rows - 1);
        lemma_row_pairs(cache, rows - 1, cache.len() as int);
        let before = circle_pairs(cache, rows - 1);
        let row = row_pairs(cache, rows - 1, cache.len() as int);
        assert forall|i: int, j: int| 0 <= i < before.len() && 0 <= j < row.len() implies before[i]
            != row[j] by {
            assert(before.contains(before[i]));
            assert(row.contains(row[j]));
            assert(circle_found(cache, rows - 1, before[i]));
            assert(row_found(cache, rows - 1, cache.len() as int, row[j]));
            let (i2, j2) = choose|i2: int, j2: int|
                i2 < rows - 1 && #[trigger] circle_tested(cache, i2, j2, before[i]);
            assert(cache[i2].0 != cache[rows - 1].0);
        }
        vstd::seq_lib::lemma_no_dup_in_concat(before, row);
    }
}

/// Every two circles are tested once: among the pairs of a pass, the
/// pair of rows `i` and `j`, with `i` before `j`, occurs once where the
/// circles touch and never where they do not, and never in the other
/// order.
pub proof fn lemma_each_pair_once(cache: Seq<CacheRow>, i: int, j: int)
    requires
        distinct_entities(cache),
        0 <= i < j < cache.len(),
    ensures
        circle_pairs(cache, cache.len() as int).to_multiset().count((cache[i].0, cache[j].0)) == (
        if circles_hit(cache[i], cache[j]) {
            1nat
        } else {
            0nat
        }),
        circle_pairs(cache, cache.len() as int).to_multiset().count((cache[j].0, cache[i].0)) == 0,
{
    let rows = cache.len() as int;
    let all = circle_pairs(cache, rows);
    let pair = (cache[i].0, cache[j].0);
    let swapped = (cache[j].0, cache[i].0);
    lemma_pairs_no_duplicates(cache, rows);
    lemma_circle_pairs(cache, rows);
    all.to_multiset_ensures();
    all.lemma_multiset_has_no_duplicates();
    assert(all.contains(pair) <==> all.to_multiset().count(pair) > 0);
    assert(all.contains(swapped) <==> all.to_multiset().count(swapped) > 0);
    if circles_hit(cache[i], cache[j]) {
        assert(circle_tested(cache, i, j, pair));
        assert(circle_found(cache, rows, pair));
        assert(all.to_multiset().contains(pair));
    } else if all.contains(pair) {
        assert(circle_found(cache, rows, pair));
        let (i2, j2) = choose|i2: int, j2: int|
            i2 < rows && #[trigger] circle_tested(cache, i2, j2, pair);
        lemma_same_entity(cache, i2, i);
        lemma_same_entity(cache, j2, j);
    }
    if all.contains(swapped) {
        assert(circle_found(cache, rows, swapped));
        let (i2, j2) = choose|i2: int, j2: int|
            i2 < rows && #[trigger] circle_tested(cache, i2, j2, swapped);
        lemma_same_entity(cache, i2, j);
        lemma_same_entity(cache, j2, i);
    }
}

} // verus!
