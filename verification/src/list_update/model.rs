//! What an access does to the values of a self-organising list.
//!
//! Every function here speaks of the list as the sequence of its values,
//! front first.

use vstd::prelude::*;
use crate::search::{lemma_position, position};

verus! {

/// Number of nodes a search for `value` looks at: all of them when the value
/// is absent, otherwise those up to and including the first that holds it.
pub open spec fn search_cost(items: Seq<u32>, value: u32) -> int {
    if position(items, value) < items.len() {
        position(items, value) + 1
    } else {
        items.len() as int
    }
}

/// The list after the items at `at - 1` and `at` have changed places.
pub open spec fn swapped(items: Seq<u32>, at: int) -> Seq<u32> {
    items.update(at - 1, items[at]).update(at, items[at - 1])
}

/// Access in a plain list: an absent value is appended.
pub open spec fn simple_access(items: Seq<u32>, value: u32) -> Seq<u32> {
    if position(items, value) < items.len() {
        items
    } else {
        items.push(value)
    }
}

/// Access in a move-to-front list: an absent value is appended; a value found
/// behind the head becomes the new head, followed by the items that stood
/// before it. The items that stood behind it leave the list.
pub open spec fn move_to_front_access(items: Seq<u32>, value: u32) -> Seq<u32> {
    let at = position(items, value);
    if at >= items.len() {
        items.push(value)
    } else if at == 0 {
        items
    } else {
        seq![value] + items.take(at)
    }
}

/// Access in a transpose list: an absent value is appended; a value found
/// behind the head changes places with its predecessor.
pub open spec fn transpose_access(items: Seq<u32>, value: u32) -> Seq<u32> {
    let at = position(items, value);
    if at >= items.len() {
        items.push(value)
    } else if at == 0 {
        items
    } else {
        swapped(items, at)
    }
}

/// Number of accesses recorded for `value`; zero when none is recorded.
pub open spec fn votes(counts: Map<u32, u32>, value: u32) -> int {
    if counts.contains_key(value) {
        counts[value] as int
    } else {
        0
    }
}

/// The list after the item at `at` has moved ahead of every predecessor in
/// a row that has fewer accesses than it.
pub open spec fn rise(items: Seq<u32>, counts: Map<u32, u32>, at: int) -> Seq<u32>
    decreases at,
{
    if 0 < at < items.len() && votes(counts, items[at - 1]) < votes(counts, items[at]) {
        rise(swapped(items, at), counts, at - 1)
    } else {
        items
    }
}

/// The access counts after an access to `value`: one more for a value of
/// the list, and 1 for a value that joins it.
pub open spec fn count_access_counts(items: Seq<u32>, counts: Map<u32, u32>, value: u32) -> Map<
    u32,
    u32,
> {
    if position(items, value) < items.len() {
        counts.insert(value, (votes(counts, value) + 1) as u32)
    } else {
        counts.insert(value, 1)
    }
}

/// Access in a counting list: an absent value is appended; a value found
/// behind the head rises past the predecessors that now have fewer accesses.
pub open spec fn count_access(items: Seq<u32>, counts: Map<u32, u32>, value: u32) -> Seq<u32> {
    let at = position(items, value);
    if at >= items.len() {
        items.push(value)
    } else if at == 0 {
        items
    } else {
        rise(items, count_access_counts(items, counts, value), at)
    }
}

/// Every item has at least one recorded access, and no item has fewer
/// accesses than an item behind it.
pub open spec fn ranked(items: Seq<u32>, counts: Map<u32, u32>) -> bool {
    &&& forall|i: int| 0 <= i < items.len() ==> votes(counts, #[trigger] items[i]) >= 1
    &&& forall|a: int, b: int|
        0 <= a < b < items.len() ==> votes(counts, #[trigger] items[a]) >= votes(
            counts,
            #[trigger] items[b],
        )
}

/// As [`ranked`], but for the item at `at`, which may have more accesses
/// than items before it.
pub open spec fn ranked_but(items: Seq<u32>, counts: Map<u32, u32>, at: int) -> bool {
    &&& 0 <= at < items.len()
    &&& forall|i: int| 0 <= i < items.len() ==> votes(counts, #[trigger] items[i]) >= 1
    &&& forall|a: int, b: int|
        0 <= a < b < items.len() && a != at && b != at ==> votes(counts, #[trigger] items[a])
            >= votes(counts, #[trigger] items[b])
    &&& forall|b: int|
        at < b < items.len() ==> votes(counts, items[at]) >= votes(counts, #[trigger] items[b])
}

/// Two neighbours that change places leave a list without repeated values
/// without repeated values.
pub proof fn lemma_swapped_distinct(items: Seq<u32>, at: int)
    requires
        items.no_duplicates(),
        0 < at < items.len(),
    ensures
        swapped(items, at).no_duplicates(),
{
    let after = swapped(items, at);
    assert forall|i: int, j: int| 0 <= i < after.len() && 0 <= j < after.len() && i != j implies after[i]
        != after[j] by {
        let from_i = if i == at {
            at - 1
        } else if i == at - 1 {
            at
        } else {
            i
        };
        let from_j = if j == at {
            at - 1
        } else if j == at - 1 {
            at
        } else {
            j
        };
        assert(after[i] == items[from_i]);
        assert(after[j] == items[from_j]);
    }
}

/// An item that rises leaves a list without repeated values without
/// repeated values, and of the same length.
pub proof fn lemma_rise_distinct(items: Seq<u32>, counts: Map<u32, u32>, at: int)
    requires
        items.no_duplicates(),
    ensures
        rise(items, counts, at).no_duplicates(),
        rise(items, counts, at).len() == items.len(),
    decreases at,
{
    if 0 < at < items.len() && votes(counts, items[at - 1]) < votes(counts, items[at]) {
        lemma_swapped_distinct(items, at);
        lemma_rise_distinct(swapped(items, at), counts, at - 1);
    }
}

/// Every access leaves a list without repeated values without repeated
/// values, whatever the strategy.
pub proof fn lemma_access_distinct(items: Seq<u32>, counts: Map<u32, u32>, value: u32)
    requires
        items.no_duplicates(),
    ensures
        simple_access(items, value).no_duplicates(),
        move_to_front_access(items, value).no_duplicates(),
        transpose_access(items, value).no_duplicates(),
        count_access(items, counts, value).no_duplicates(),
{
    let at = position(items, value);
    lemma_position(items, value);
    if at >= items.len() {
        let longer = items.push(value);
        assert forall|i: int, j: int|
            0 <= i < longer.len() && 0 <= j < longer.len() && i != j implies longer[i]
            != longer[j] by {
            if i < items.len() {
                assert(longer[i] == items[i]);
            }
            if j < items.len() {
                assert(longer[j] == items[j]);
            }
        }
    } else if at > 0 {
        let front = seq![value] + items.take(at);
        assert forall|i: int, j: int|
            0 <= i < front.len() && 0 <= j < front.len() && i != j implies front[i]
            != front[j] by {
            if i > 0 {
                assert(front[i] == items[i - 1]);
            }
            if j > 0 {
                assert(front[j] == items[j - 1]);
            }
        }
        lemma_swapped_distinct(items, at);
        lemma_rise_distinct(items, count_access_counts(items, counts, value), at);
    }
}

/// Recording an access keeps a counting list in order, but for the accessed
/// item where it stands behind the head.
pub proof fn lemma_count_recorded(items: Seq<u32>, counts: Map<u32, u32>, value: u32)
    requires
        items.no_duplicates(),
        ranked(items, counts),
        votes(counts, value) < u32::MAX,
    ensures
        ({
            let at = position(items, value);
            let recorded = count_access_counts(items, counts, value);
            if at >= items.len() {
                ranked(items.push(value), recorded)
            } else if at == 0 {
                ranked(items, recorded)
            } else {
                ranked_but(items, recorded, at)
            }
        }),
{
    let at = position(items, value);
    let recorded = count_access_counts(items, counts, value);
    lemma_position(items, value);
    assert forall|i: int| 0 <= i < items.len() && i != at implies votes(recorded, items[i])
        == votes(counts, #[trigger] items[i]) by {
        if at < items.len() {
            assert(items[i] != items[at]);
        }
    }
    if at >= items.len() {
        let longer = items.push(value);
        assert forall|i: int| 0 <= i < longer.len() implies votes(recorded, #[trigger] longer[i])
            >= 1 by {
            if i < items.len() {
                assert(longer[i] == items[i]);
                assert(votes(counts, items[i]) >= 1);
            }
        }
        assert forall|a: int, b: int| 0 <= a < b < longer.len() implies votes(
            recorded,
            #[trigger] longer[a],
        ) >= votes(recorded, #[trigger] longer[b]) by {
            assert(longer[a] == items[a]);
            assert(votes(counts, items[a]) >= 1);
            if b < items.len() {
                assert(longer[b] == items[b]);
                assert(votes(counts, items[a]) >= votes(counts, items[b]));
            }
        }
    } else {
        assert(votes(recorded, items[at]) == votes(counts, items[at]) + 1);
        assert forall|i: int| 0 <= i < items.len() implies votes(recorded, #[trigger] items[i])
            >= 1 by {
            assert(votes(counts, items[i]) >= 1);
        }
        assert forall|a: int, b: int|
            0 <= a < b < items.len() && a != at && b != at implies votes(
            recorded,
            #[trigger] items[a],
        ) >= votes(recorded, #[trigger] items[b]) by {
            assert(votes(counts, items[a]) >= votes(counts, items[b]));
        }
        assert forall|b: int| at < b < items.len() implies votes(recorded, items[at]) >= votes(
            recorded,
            #[trigger] items[b],
        ) by {
            assert(votes(counts, items[at]) >= votes(counts, items[b]));
        }
    }
}

} // verus!
