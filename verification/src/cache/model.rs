//! What an access does to the pages of a cache.
//!
//! The cache is seen as the sequence of its pages, oldest first, together
//! with what the strategy remembers: an order of use, access frequencies, or
//! marks.

use vstd::prelude::*;
use crate::search::{position, without};

verus! {

/// Cost of an access: nothing for a page in the cache, 1 for any other.
pub open spec fn access_cost(memory: Seq<usize>, page: usize) -> int {
    if memory.contains(page) {
        0
    } else {
        1
    }
}

/// Whether a miss finds the cache full.
pub open spec fn full(memory: Seq<usize>, capacity: usize) -> bool {
    memory.len() == capacity
}

/// First in, first out: a miss on a full cache evicts the oldest page.
pub open spec fn fifo_access(memory: Seq<usize>, capacity: usize, page: usize) -> Seq<usize> {
    if memory.contains(page) {
        memory
    } else if full(memory, capacity) && memory.len() > 0 {
        memory.skip(1).push(page)
    } else {
        memory.push(page)
    }
}

/// Flush when full: a miss on a full cache evicts every page.
pub open spec fn fwf_access(memory: Seq<usize>, capacity: usize, page: usize) -> Seq<usize> {
    if memory.contains(page) {
        memory
    } else if full(memory, capacity) {
        seq![page]
    } else {
        memory.push(page)
    }
}

/// Least recently used, the pages: a miss on a full cache evicts the page
/// that stands first in the order of use.
pub open spec fn lru_access(
    memory: Seq<usize>,
    usage: Seq<usize>,
    capacity: usize,
    page: usize,
) -> Seq<usize> {
    if memory.contains(page) {
        memory
    } else if full(memory, capacity) && usage.len() > 0 {
        without(memory, usage[0]).push(page)
    } else {
        memory.push(page)
    }
}

/// Least recently used, the order of use: the requested page becomes the
/// most recently used, and an evicted page leaves the order.
pub open spec fn lru_usage(
    memory: Seq<usize>,
    usage: Seq<usize>,
    capacity: usize,
    page: usize,
) -> Seq<usize> {
    if memory.contains(page) {
        without(usage, page).push(page)
    } else if full(memory, capacity) && usage.len() > 0 {
        usage.skip(1).push(page)
    } else {
        usage.push(page)
    }
}

/// Number of accesses recorded for `page`; zero when none is recorded.
pub open spec fn lookup(frequency: Map<usize, usize>, page: usize) -> int {
    if frequency.contains_key(page) {
        frequency[page] as int
    } else {
        0
    }
}

/// Index of the first page with the fewest accesses among the first `upto`.
pub open spec fn least_used_below(
    memory: Seq<usize>,
    frequency: Map<usize, usize>,
    upto: int,
) -> int
    decreases upto,
{
    if upto <= 1 {
        0
    } else {
        let best = least_used_below(memory, frequency, upto - 1);
        if lookup(frequency, memory[upto - 1]) < lookup(frequency, memory[best]) {
            upto - 1
        } else {
            best
        }
    }
}

/// The page that a least-frequently-used cache evicts: the first of those
/// with the fewest accesses.
pub open spec fn lfu_victim(memory: Seq<usize>, frequency: Map<usize, usize>) -> usize {
    memory[least_used_below(memory, frequency, memory.len() as int)]
}

/// Least frequently used, the pages.
pub open spec fn lfu_access(
    memory: Seq<usize>,
    frequency: Map<usize, usize>,
    capacity: usize,
    page: usize,
) -> Seq<usize> {
    if memory.contains(page) {
        memory
    } else if full(memory, capacity) && memory.len() > 0 {
        without(memory, lfu_victim(memory, frequency)).push(page)
    } else {
        memory.push(page)
    }
}

/// Least frequently used, the frequencies: a hit counts one more, a page
/// that enters starts at 1, and an evicted page is forgotten.
pub open spec fn lfu_frequency(
    memory: Seq<usize>,
    frequency: Map<usize, usize>,
    capacity: usize,
    page: usize,
) -> Map<usize, usize> {
    if memory.contains(page) {
        frequency.insert(page, (lookup(frequency, page) + 1) as usize)
    } else if full(memory, capacity) && memory.len() > 0 {
        frequency.remove(lfu_victim(memory, frequency)).insert(page, 1)
    } else {
        frequency.insert(page, 1)
    }
}

/// The cache after the page at `index` has made room for `page`.
pub open spec fn replaced_at(memory: Seq<usize>, index: int, page: usize) -> Seq<usize> {
    memory.remove(index).push(page)
}

/// Random replacement: whether `after` is a cache that an access to `page`
/// may leave. A miss on a full cache evicts any one page.
pub open spec fn random_access_allows(
    memory: Seq<usize>,
    capacity: usize,
    page: usize,
    after: Seq<usize>,
) -> bool {
    if memory.contains(page) {
        after == memory
    } else if full(memory, capacity) {
        exists|index: int| 0 <= index < memory.len() && after == replaced_at(memory, index, page)
    } else {
        after == memory.push(page)
    }
}

/// Whether `page` has a mark.
pub open spec fn marked(marks: Map<usize, bool>, page: usize) -> bool {
    marks.contains_key(page) && marks[page]
}

/// The pages without a mark among the first `upto`, in their order.
pub open spec fn unmarked_below(memory: Seq<usize>, marks: Map<usize, bool>, upto: int) -> Seq<
    usize,
>
    decreases upto,
{
    if upto <= 0 {
        Seq::empty()
    } else {
        let before = unmarked_below(memory, marks, upto - 1);
        if marked(marks, memory[upto - 1]) {
            before
        } else {
            before.push(memory[upto - 1])
        }
    }
}

/// The pages of the cache without a mark.
pub open spec fn unmarked(memory: Seq<usize>, marks: Map<usize, bool>) -> Seq<usize> {
    unmarked_below(memory, marks, memory.len() as int)
}

/// The marks after every page of the cache has lost its mark.
pub open spec fn unmark_all(marks: Map<usize, bool>, memory: Seq<usize>) -> Map<usize, bool> {
    Map::new(
        |page: usize| marks.contains_key(page) || memory.contains(page),
        |page: usize|
            if memory.contains(page) {
                false
            } else {
                marks[page]
            },
    )
}

/// The pages among which a marking cache draws the page to evict: those
/// without a mark, or all of them when every page has one.
pub open spec fn rma_candidates(memory: Seq<usize>, marks: Map<usize, bool>) -> Seq<usize> {
    if unmarked(memory, marks).len() > 0 {
        unmarked(memory, marks)
    } else {
        memory
    }
}

/// The marks at the moment a marking cache evicts: when every page has a
/// mark, all marks are dropped first.
pub open spec fn rma_marks_at_eviction(memory: Seq<usize>, marks: Map<usize, bool>) -> Map<
    usize,
    bool,
> {
    if unmarked(memory, marks).len() > 0 {
        marks
    } else {
        unmark_all(marks, memory)
    }
}

/// Randomised marking, the pages after `victim` has made room for `page`.
pub open spec fn rma_evict(memory: Seq<usize>, victim: usize, page: usize) -> Seq<usize> {
    without(memory, victim).push(page)
}

/// Randomised marking, the marks after `victim` has made room for `page`.
pub open spec fn rma_evict_marks(
    memory: Seq<usize>,
    marks: Map<usize, bool>,
    victim: usize,
    page: usize,
) -> Map<usize, bool> {
    rma_marks_at_eviction(memory, marks).remove(victim).insert(page, true)
}

/// Randomised marking: whether `after` and `after_marks` are a cache and
/// marks that an access to `page` may leave. The requested page always ends
/// with a mark; a miss on a full cache evicts any one of the candidates.
pub open spec fn rma_access_allows(
    memory: Seq<usize>,
    marks: Map<usize, bool>,
    capacity: usize,
    page: usize,
    after: Seq<usize>,
    after_marks: Map<usize, bool>,
) -> bool {
    if memory.contains(page) {
        after == memory && after_marks == marks.insert(page, true)
    } else if memory.len() < capacity {
        after == memory.push(page) && after_marks == marks.insert(page, true)
    } else {
        exists|victim: usize|
            #![trigger rma_evict(memory, victim, page)]
            rma_candidates(memory, marks).contains(victim) && after == rma_evict(
                memory,
                victim,
                page,
            ) && after_marks == rma_evict_marks(memory, marks, victim, page)
    }
}

/// The first page with the fewest accesses has no more accesses than any
/// page, and fewer than every page before it.
pub proof fn lemma_least_used(memory: Seq<usize>, frequency: Map<usize, usize>, upto: int)
    requires
        1 <= upto <= memory.len(),
    ensures
        0 <= least_used_below(memory, frequency, upto) < upto,
        forall|i: int|
            0 <= i < upto ==> lookup(
                frequency,
                memory[least_used_below(memory, frequency, upto)],
            ) <= lookup(frequency, #[trigger] memory[i]),
        forall|i: int|
            0 <= i < least_used_below(memory, frequency, upto) ==> lookup(
                frequency,
                memory[least_used_below(memory, frequency, upto)],
            ) < lookup(frequency, #[trigger] memory[i]),
    decreases upto,
{
    if upto > 1 {
        lemma_least_used(memory, frequency, upto - 1);
    }
}

/// The pages without a mark are pages of the cache, and without a mark.
pub proof fn lemma_unmarked(memory: Seq<usize>, marks: Map<usize, bool>, upto: int)
    requires
        0 <= upto <= memory.len(),
    ensures
        forall|page: usize| #[trigger]
            unmarked_below(memory, marks, upto).contains(page) ==> memory.contains(page)
                && !marked(marks, page),
        forall|i: int|
            0 <= i < upto && !marked(marks, #[trigger] memory[i]) ==> unmarked_below(
                memory,
                marks,
                upto,
            ).contains(memory[i]),
    decreases upto,
{
    if upto > 0 {
        lemma_unmarked(memory, marks, upto - 1);
        let before = unmarked_below(memory, marks, upto - 1);
        let now = unmarked_below(memory, marks, upto);
        assert forall|page: usize| #[trigger] now.contains(page) implies memory.contains(page)
            && !marked(marks, page) by {
            let i = choose|i: int| 0 <= i < now.len() && now[i] == page;
            if i < before.len() {
                assert(before[i] == page);
                assert(before.contains(page));
            } else {
                assert(page == memory[upto - 1]);
            }
        }
        assert forall|i: int| 0 <= i < upto && !marked(marks, #[trigger] memory[i]) implies now.contains(
            memory[i],
        ) by {
            if i < upto - 1 {
                assert(before.contains(memory[i]));
                let at = choose|at: int| 0 <= at < before.len() && before[at] == memory[i];
                assert(now[at] == memory[i]);
            } else {
                assert(now[now.len() - 1] == memory[i]);
            }
        }
    }
}

} // verus!
