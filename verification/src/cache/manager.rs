//! The cache manager.

use rand::rngs::ThreadRng;
use std::collections::{HashMap, VecDeque};
use vstd::prelude::*;
use crate::cache::model::{
    access_cost, fifo_access, full, fwf_access, lemma_least_used, lemma_unmarked,
    least_used_below, lfu_access, lfu_frequency, lfu_victim, lookup, lru_access, lru_usage,
    marked, random_access_allows, replaced_at, rma_access_allows, rma_candidates, rma_evict,
    rma_evict_marks, rma_marks_at_eviction, unmark_all, unmarked, unmarked_below,
};
use crate::random::{choose_page, choose_resident, random_index};
use crate::search::{
    lemma_position, lemma_position_absent, lemma_position_distinct, lemma_position_found,
    lemma_push_distinct, lemma_without, position, without,
};

verus! {

/// How a cache chooses the page that makes room for a new one.
#[derive(Debug)]
pub enum CacheManagementStrategy {
    /// First in, first out: evicts the page that entered first.
    FIFO,
    /// Flush when full: evicts every page at once.
    FWF,
    /// Least recently used: evicts the page that was used longest ago. Holds
    /// the pages in order of their last use, oldest first.
    LRU(VecDeque<usize>),
    /// Least frequently used: evicts the page with the fewest accesses. Holds
    /// the number of accesses of each page.
    LFU(HashMap<usize, usize>),
    /// Evicts a page drawn at random.
    RAND(ThreadRng),
    /// Randomised marking: evicts a page drawn at random among those without
    /// a mark. Holds the mark of each page.
    RMA(HashMap<usize, bool>, ThreadRng),
}

impl CacheManagementStrategy {
    /// The order of use that a least-recently-used strategy holds, oldest
    /// first; empty for any other strategy.
    pub open spec fn usage(self) -> Seq<usize> {
        match self {
            CacheManagementStrategy::LRU(usage_order) => usage_order@,
            _ => Seq::empty(),
        }
    }

    /// The access frequencies that a least-frequently-used strategy holds;
    /// empty for any other strategy.
    pub open spec fn frequency(self) -> Map<usize, usize> {
        match self {
            CacheManagementStrategy::LFU(freq_map) => freq_map@,
            _ => Map::empty(),
        }
    }

    /// The marks that a marking strategy holds; empty for any other strategy.
    pub open spec fn marks(self) -> Map<usize, bool> {
        match self {
            CacheManagementStrategy::RMA(mark_map, _) => mark_map@,
            _ => Map::empty(),
        }
    }

    /// Whether the strategy draws the page to evict at random.
    pub open spec fn draws(self) -> bool {
        self is RAND || self is RMA
    }

    /// Whether an access to `page` may turn a cache that holds `memory` under
    /// this strategy into one that holds `after` under `then`.
    ///
    /// For the four strategies that do not draw, exactly one outcome is
    /// allowed. The strategy never changes its kind.
    pub open spec fn allows(
        self,
        memory: Seq<usize>,
        capacity: usize,
        page: usize,
        after: Seq<usize>,
        then: CacheManagementStrategy,
    ) -> bool {
        match self {
            CacheManagementStrategy::FIFO => then is FIFO && after == fifo_access(
                memory,
                capacity,
                page,
            ),
            CacheManagementStrategy::FWF => then is FWF && after == fwf_access(
                memory,
                capacity,
                page,
            ),
            CacheManagementStrategy::LRU(usage_order) => {
                &&& then is LRU
                &&& after == lru_access(memory, usage_order@, capacity, page)
                &&& then.usage() == lru_usage(memory, usage_order@, capacity, page)
            },
            CacheManagementStrategy::LFU(freq_map) => {
                &&& then is LFU
                &&& after == lfu_access(memory, freq_map@, capacity, page)
                &&& then.frequency() == lfu_frequency(memory, freq_map@, capacity, page)
            },
            CacheManagementStrategy::RAND(_) => then is RAND && random_access_allows(
                memory,
                capacity,
                page,
                after,
            ),
            CacheManagementStrategy::RMA(mark_map, _) => then is RMA && rma_access_allows(
                memory,
                mark_map@,
                capacity,
                page,
                after,
                then.marks(),
            ),
        }
    }

    /// What holds of the pages of every cache under this strategy: no page
    /// occurs twice, a cache with room for a page at least never holds more
    /// than its capacity, and the order of use of a least-recently-used
    /// strategy holds exactly the pages of the cache, each once.
    pub open spec fn keeps(self, memory: Seq<usize>, capacity: usize) -> bool {
        &&& memory.no_duplicates()
        &&& capacity >= 1 ==> memory.len() <= capacity
        &&& self is LRU ==> {
            &&& self.usage().no_duplicates()
            &&& forall|page: usize| #[trigger]
                self.usage().contains(page) <==> memory.contains(page)
        }
    }
}

/// A cache of pages that serves requests with a replacement strategy.
#[derive(Debug)]
pub struct CacheManager {
    /// The replacement strategy, with what it remembers.
    strategy: CacheManagementStrategy,
    /// The number of pages the cache holds at most.
    capacity: usize,
    /// The pages in the cache, oldest first.
    memory: VecDeque<usize>,
}

impl View for CacheManager {
    type V = Seq<usize>;

    closed spec fn view(&self) -> Seq<usize> {
        self.memory@
    }
}

/// Position of `page` in `pages`, if it occurs.
fn find_page(pages: &VecDeque<usize>, page: usize) -> (found: Option<usize>)
    ensures
        match found {
            Some(at) => at == position(pages@, page) && at < pages@.len(),
            None => position(pages@, page) == pages@.len(),
        },
        found.is_some() == pages@.contains(page),
{
    proof {
        lemma_position(pages@, page);
    }
    let mut at: usize = 0;
    while at < pages.len()
        invariant
            at <= pages@.len(),
            forall|i: int| 0 <= i < at ==> pages@[i] != page,
        decreases pages@.len() - at,
    {
        if pages[at] == page {
            proof {
                lemma_position_found(pages@, page, at as int);
            }
            return Some(at);
        }
        at += 1;
    }
    proof {
        lemma_position_absent(pages@, page);
    }
    None
}

/// Least recently used: serves `page_id` from `memory`, with the order of
/// use in `usage_order`.
fn lru_step(
    memory: &mut VecDeque<usize>,
    usage_order: &mut VecDeque<usize>,
    capacity: usize,
    page_id: usize,
) -> (cost: usize)
    ensures
        cost == access_cost(old(memory)@, page_id),
        final(memory)@ == lru_access(old(memory)@, old(usage_order)@, capacity, page_id),
        final(usage_order)@ == lru_usage(old(memory)@, old(usage_order)@, capacity, page_id),
{
    if find_page(memory, page_id).is_some() {
        if let Some(pos) = find_page(usage_order, page_id) {
            usage_order.remove(pos);
        }
        usage_order.push_back(page_id);
        0
    } else {
        if memory.len() == capacity {
            if let Some(lru) = usage_order.pop_front() {
                if let Some(pos) = find_page(memory, lru) {
                    memory.remove(pos);
                }
                proof {
                    assert(old(usage_order)@.skip(1) =~= old(usage_order)@.subrange(
                        1,
                        old(usage_order)@.len() as int,
                    ));
                }
            }
        }
        memory.push_back(page_id);
        usage_order.push_back(page_id);
        1
    }
}

/// Number of accesses that `freq_map` records for `page_id`.
fn frequency_of(freq_map: &HashMap<usize, usize>, page_id: usize) -> (recorded: usize)
    ensures
        recorded == lookup(freq_map@, page_id),
{
    broadcast use vstd::std_specs::hash::group_hash_axioms;

    match freq_map.get(&page_id) {
        Some(recorded) => *recorded,
        None => 0,
    }
}

/// The first of the pages with the fewest accesses, if there is a page.
fn least_used_page(memory: &VecDeque<usize>, freq_map: &HashMap<usize, usize>) -> (victim: Option<
    usize,
>)
    ensures
        match victim {
            Some(page) => memory@.len() > 0 && page == lfu_victim(memory@, freq_map@),
            None => memory@.len() == 0,
        },
{
    if memory.len() == 0 {
        return None;
    }
    let mut best: usize = 0;
    let mut fewest = frequency_of(freq_map, memory[0]);
    let mut at: usize = 1;
    while at < memory.len()
        invariant
            1 <= at <= memory@.len(),
            best == least_used_below(memory@, freq_map@, at as int),
            best < at,
            fewest == lookup(freq_map@, memory@[best as int]),
        decreases memory@.len() - at,
    {
        let recorded = frequency_of(freq_map, memory[at]);
        if recorded < fewest {
            best = at;
            fewest = recorded;
        }
        at += 1;
    }
    Some(memory[best])
}

/// Least frequently used: serves `page_id` from `memory`, with the number of
/// accesses of each page in `freq_map`.
fn lfu_step(
    memory: &mut VecDeque<usize>,
    freq_map: &mut HashMap<usize, usize>,
    capacity: usize,
    page_id: usize,
) -> (cost: usize)
    requires
        lookup(old(freq_map)@, page_id) < usize::MAX,
    ensures
        cost == access_cost(old(memory)@, page_id),
        final(memory)@ == lfu_access(old(memory)@, old(freq_map)@, capacity, page_id),
        final(freq_map)@ == lfu_frequency(old(memory)@, old(freq_map)@, capacity, page_id),
{
    broadcast use vstd::std_specs::hash::group_hash_axioms;

    if find_page(memory, page_id).is_some() {
        let recorded = frequency_of(freq_map, page_id);
        freq_map.insert(page_id, recorded + 1);
        0
    } else {
        if memory.len() == capacity {
            if let Some(lfu_page) = least_used_page(memory, freq_map) {
                if let Some(pos) = find_page(memory, lfu_page) {
                    memory.remove(pos);
                }
                freq_map.remove(&lfu_page);
            }
        }
        memory.push_back(page_id);
        freq_map.insert(page_id, 1);
        1
    }
}

/// Lets the page at `index` make room for `page_id`.
fn replace_at(memory: &mut VecDeque<usize>, index: usize, page_id: usize)
    requires
        index < old(memory)@.len(),
    ensures
        final(memory)@ == replaced_at(old(memory)@, index as int, page_id),
{
    memory.remove(index);
    memory.push_back(page_id);
}

/// Random replacement: serves `page_id` from `memory`; on a miss that finds
/// the cache full, the page at an index drawn from `rng` makes room.
fn random_step(memory: &mut VecDeque<usize>, rng: &mut ThreadRng, capacity: usize, page_id: usize) -> (cost:
    usize)
    requires
        capacity >= 1,
    ensures
        cost == access_cost(old(memory)@, page_id),
        random_access_allows(old(memory)@, capacity, page_id, final(memory)@),
{
    if find_page(memory, page_id).is_some() {
        0
    } else {
        if memory.len() == capacity {
            let index = random_index(rng, memory.len());
            replace_at(memory, index, page_id);
        } else {
            memory.push_back(page_id);
        }
        1
    }
}

/// Whether `mark_map` holds a mark for `page_id`.
fn is_marked(mark_map: &HashMap<usize, bool>, page_id: usize) -> (mark: bool)
    ensures
        mark == marked(mark_map@, page_id),
{
    broadcast use vstd::std_specs::hash::group_hash_axioms;

    match mark_map.get(&page_id) {
        Some(mark) => *mark,
        None => false,
    }
}

/// The pages of `memory` without a mark, in their order.
fn unmarked_pages(memory: &VecDeque<usize>, mark_map: &HashMap<usize, bool>) -> (pages: Vec<usize>)
    ensures
        pages@ == unmarked(memory@, mark_map@),
{
    let mut pages: Vec<usize> = Vec::new();
    let mut at: usize = 0;
    while at < memory.len()
        invariant
            at <= memory@.len(),
            pages@ == unmarked_below(memory@, mark_map@, at as int),
        decreases memory@.len() - at,
    {
        if !is_marked(mark_map, memory[at]) {
            pages.push(memory[at]);
        }
        at += 1;
    }
    pages
}

/// Takes the mark from every page of `memory`.
fn clear_marks(memory: &VecDeque<usize>, mark_map: &mut HashMap<usize, bool>)
    ensures
        final(mark_map)@ == unmark_all(old(mark_map)@, memory@),
{
    broadcast use vstd::std_specs::hash::group_hash_axioms;

    let mut at: usize = 0;
    proof {
        assert(mark_map@ =~= unmark_all(old(mark_map)@, memory@.take(0)));
    }
    while at < memory.len()
        invariant
            at <= memory@.len(),
            mark_map@ == unmark_all(old(mark_map)@, memory@.take(at as int)),
        decreases memory@.len() - at,
    {
        let ghost before = memory@.take(at as int);
        let ghost upto = memory@.take(at as int + 1);
        mark_map.insert(memory[at], false);
        proof {
            assert forall|page: usize| upto.contains(page) <==> before.contains(page) || page
                == memory@[at as int] by {
                if upto.contains(page) {
                    let i = choose|i: int| 0 <= i < upto.len() && upto[i] == page;
                    if i < at {
                        assert(before[i] == page);
                    }
                }
                if before.contains(page) {
                    let i = choose|i: int| 0 <= i < before.len() && before[i] == page;
                    assert(upto[i] == page);
                }
                assert(upto[at as int] == memory@[at as int]);
            }
            assert(mark_map@ =~= unmark_all(old(mark_map)@, upto));
        }
        at += 1;
    }
    proof {
        assert(memory@.take(at as int) =~= memory@);
    }
}

/// Lets `victim` make room for `page_id`, which enters with a mark.
fn evict_page(
    memory: &mut VecDeque<usize>,
    mark_map: &mut HashMap<usize, bool>,
    victim: usize,
    page_id: usize,
)
    ensures
        final(memory)@ == rma_evict(old(memory)@, victim, page_id),
        final(mark_map)@ == old(mark_map)@.remove(victim).insert(page_id, true),
{
    broadcast use vstd::std_specs::hash::group_hash_axioms;

    if let Some(pos) = find_page(memory, victim) {
        memory.remove(pos);
    }
    mark_map.remove(&victim);
    memory.push_back(page_id);
    mark_map.insert(page_id, true);
}

/// Randomised marking: serves `page_id` from `memory`, with the marks in
/// `mark_map`; on a miss that finds the cache full, a page drawn from `rng`
/// among the candidates makes room.
fn rma_step(
    memory: &mut VecDeque<usize>,
    mark_map: &mut HashMap<usize, bool>,
    rng: &mut ThreadRng,
    capacity: usize,
    page_id: usize,
) -> (cost: usize)
    requires
        capacity >= 1,
    ensures
        cost == access_cost(old(memory)@, page_id),
        rma_access_allows(
            old(memory)@,
            old(mark_map)@,
            capacity,
            page_id,
            final(memory)@,
            final(mark_map)@,
        ),
{
    broadcast use vstd::std_specs::hash::group_hash_axioms;

    if find_page(memory, page_id).is_some() {
        mark_map.insert(page_id, true);
        0
    } else {
        if memory.len() < capacity {
            memory.push_back(page_id);
            mark_map.insert(page_id, true);
            1
        } else {
            let unmarked = unmarked_pages(memory, mark_map);
            let choice = if !unmarked.is_empty() {
                choose_page(&unmarked, rng)
            } else {
                clear_marks(memory, mark_map);
                choose_resident(memory, rng)
            };
            if let Some(victim) = choice {
                evict_page(memory, mark_map, victim, page_id);
                proof {
                    assert(rma_candidates(old(memory)@, old(mark_map)@).contains(victim));
                    assert(final(memory)@ == rma_evict(old(memory)@, victim, page_id));
                }
            }
            1
        }
    }
}

impl CacheManager {
    /// The replacement strategy.
    pub closed spec fn strategy(&self) -> CacheManagementStrategy {
        self.strategy
    }

    /// The number of pages the cache holds at most.
    pub closed spec fn capacity(&self) -> usize {
        self.capacity
    }

    /// Well-formedness: the pages are as the strategy keeps them.
    pub open spec fn wf(&self) -> bool {
        self.strategy().keeps(self@, self.capacity())
    }

    /// Creates an empty cache.
    ///
    /// A least-recently-used strategy has to come with an empty order of use.
    pub fn new(capacity: usize, strategy: CacheManagementStrategy) -> (cache: CacheManager)
        ensures
            cache@ == Seq::<usize>::empty(),
            cache.capacity() == capacity,
            cache.strategy() == strategy,
            strategy.usage().len() == 0 ==> cache.wf(),
    {
        CacheManager { strategy, capacity, memory: VecDeque::with_capacity(capacity) }
    }

    /// Number of pages in the cache.
    pub fn len(&self) -> (len: usize)
        ensures
            len == self@.len(),
    {
        self.memory.len()
    }

    /// Whether `page_id` is in the cache.
    pub fn contains(&self, page_id: usize) -> (held: bool)
        ensures
            held == self@.contains(page_id),
    {
        find_page(&self.memory, page_id).is_some()
    }

    /// Serves a request for `page_id` and returns its cost: 0 for a page in
    /// the cache, 1 for a page that has to enter it.
    ///
    /// A strategy that draws at random needs a cache with room for a page.
    pub fn access(&mut self, page_id: usize) -> (cost: usize)
        requires
            old(self).wf(),
            old(self).strategy().draws() ==> old(self).capacity() >= 1,
            lookup(old(self).strategy().frequency(), page_id) < usize::MAX,
        ensures
            final(self).wf(),
            final(self).capacity() == old(self).capacity(),
            cost == access_cost(old(self)@, page_id),
            final(self)@.contains(page_id),
            old(self).strategy().allows(
                old(self)@,
                old(self).capacity(),
                page_id,
                final(self)@,
                final(self).strategy(),
            ),
    {
        let cost = match &mut self.strategy {
            CacheManagementStrategy::FIFO => self._fifo_access(page_id),
            CacheManagementStrategy::FWF => self._fwf_access(page_id),
            CacheManagementStrategy::LRU(_) => self._lru_access(page_id),
            CacheManagementStrategy::LFU(_) => self._lfu_access(page_id),
            CacheManagementStrategy::RAND(_) => self._random_access(page_id),
            CacheManagementStrategy::RMA(_, _) => self._rma_access(page_id),
        };
        proof {
            lemma_access_keeps(
                old(self).strategy(),
                old(self)@,
                self.capacity(),
                page_id,
                self@,
                self.strategy(),
            );
        }
        cost
    }

    /// Least recently used.
    fn _lru_access(&mut self, page_id: usize) -> (cost: usize)
        requires
            old(self).strategy() is LRU,
        ensures
            cost == access_cost(old(self)@, page_id),
            final(self).capacity() == old(self).capacity(),
            old(self).strategy().allows(
                old(self)@,
                old(self).capacity(),
                page_id,
                final(self)@,
                final(self).strategy(),
            ),
    {
        match &mut self.strategy {
            CacheManagementStrategy::LRU(usage_order) => lru_step(
                &mut self.memory,
                usage_order,
                self.capacity,
                page_id,
            ),
            _ => 0,
        }
    }

    /// Least frequently used.
    fn _lfu_access(&mut self, page_id: usize) -> (cost: usize)
        requires
            old(self).strategy() is LFU,
            lookup(old(self).strategy().frequency(), page_id) < usize::MAX,
        ensures
            cost == access_cost(old(self)@, page_id),
            final(self).capacity() == old(self).capacity(),
            old(self).strategy().allows(
                old(self)@,
                old(self).capacity(),
                page_id,
                final(self)@,
                final(self).strategy(),
            ),
    {
        match &mut self.strategy {
            CacheManagementStrategy::LFU(freq_map) => lfu_step(
                &mut self.memory,
                freq_map,
                self.capacity,
                page_id,
            ),
            _ => 0,
        }
    }

    /// Random replacement.
    fn _random_access(&mut self, page_id: usize) -> (cost: usize)
        requires
            old(self).strategy() is RAND,
            old(self).capacity() >= 1,
        ensures
            cost == access_cost(old(self)@, page_id),
            final(self).capacity() == old(self).capacity(),
            old(self).strategy().allows(
                old(self)@,
                old(self).capacity(),
                page_id,
                final(self)@,
                final(self).strategy(),
            ),
    {
        match &mut self.strategy {
            CacheManagementStrategy::RAND(rng) => random_step(
                &mut self.memory,
                rng,
                self.capacity,
                page_id,
            ),
            _ => 0,
        }
    }

    /// Randomised marking.
    fn _rma_access(&mut self, page_id: usize) -> (cost: usize)
        requires
            old(self).strategy() is RMA,
            old(self).capacity() >= 1,
        ensures
            cost == access_cost(old(self)@, page_id),
            final(self).capacity() == old(self).capacity(),
            old(self).strategy().allows(
                old(self)@,
                old(self).capacity(),
                page_id,
                final(self)@,
                final(self).strategy(),
            ),
    {
        match &mut self.strategy {
            CacheManagementStrategy::RMA(mark_map, rng) => rma_step(
                &mut self.memory,
                mark_map,
                rng,
                self.capacity,
                page_id,
            ),
            _ => 0,
        }
    }

    /// First in, first out.
    fn _fifo_access(&mut self, page_id: usize) -> (cost: usize)
        ensures
            cost == access_cost(old(self)@, page_id),
            final(self)@ == fifo_access(old(self)@, old(self).capacity(), page_id),
            final(self).capacity() == old(self).capacity(),
            final(self).strategy() == old(self).strategy(),
    {
        if find_page(&self.memory, page_id).is_some() {
            0
        } else {
            if self.memory.len() == self.capacity {
                self.memory.pop_front();
            }
            self.memory.push_back(page_id);
            proof {
                assert(old(self)@.len() > 0 ==> old(self)@.skip(1) =~= old(self)@.subrange(
                    1,
                    old(self)@.len() as int,
                ));
            }
            1
        }
    }

    /// Flush when full.
    fn _fwf_access(&mut self, page_id: usize) -> (cost: usize)
        ensures
            cost == access_cost(old(self)@, page_id),
            final(self)@ == fwf_access(old(self)@, old(self).capacity(), page_id),
            final(self).capacity() == old(self).capacity(),
            final(self).strategy() == old(self).strategy(),
    {
        if find_page(&self.memory, page_id).is_some() {
            0
        } else {
            if self.memory.len() == self.capacity {
                self.memory.clear();
            }
            self.memory.push_back(page_id);
            proof {
                assert(Seq::<usize>::empty().push(page_id) =~= seq![page_id]);
            }
            1
        }
    }
}

/// Every access that the strategy allows leaves the pages as the strategy
/// keeps them, with the requested page among them.
pub proof fn lemma_access_keeps(
    strategy: CacheManagementStrategy,
    memory: Seq<usize>,
    capacity: usize,
    page: usize,
    after: Seq<usize>,
    then: CacheManagementStrategy,
)
    requires
        strategy.keeps(memory, capacity),
        strategy.draws() ==> capacity >= 1,
        strategy.allows(memory, capacity, page, after, then),
    ensures
        then.keeps(after, capacity),
        after.contains(page),
{
    lemma_position(memory, page);
    if memory.contains(page) {
        if strategy is LRU {
            let usage = strategy.usage();
            lemma_without(usage, page);
            lemma_push_distinct(without(usage, page), page);
        }
    } else {
        lemma_push_distinct(memory, page);
        match strategy {
            CacheManagementStrategy::FIFO => {
                if full(memory, capacity) && memory.len() > 0 {
                    lemma_evicted(memory, 0, page);
                    assert(memory.remove(0) =~= memory.skip(1));
                }
            },
            CacheManagementStrategy::FWF => {
                assert(seq![page][0] == page);
            },
            CacheManagementStrategy::LRU(usage_order) => {
                let usage = usage_order@;
                lemma_push_distinct(usage, page);
                if full(memory, capacity) && usage.len() > 0 {
                    let lru = usage[0];
                    assert(usage.contains(lru));
                    lemma_position(memory, lru);
                    lemma_evicted(memory, position(memory, lru), page);
                    lemma_position_distinct(usage, 0);
                    assert(usage.remove(0) =~= usage.skip(1));
                    lemma_without(usage, lru);
                    lemma_without(memory, lru);
                    lemma_push_distinct(usage.skip(1), page);
                    lemma_push_distinct(without(memory, lru), page);
                } else if full(memory, capacity) {
                    assert(memory.len() > 0 ==> usage.contains(memory[0]));
                }
            },
            CacheManagementStrategy::LFU(freq_map) => {
                if full(memory, capacity) && memory.len() > 0 {
                    lemma_least_used(memory, freq_map@, memory.len() as int);
                    let at = least_used_below(memory, freq_map@, memory.len() as int);
                    lemma_position_distinct(memory, at);
                    lemma_evicted(memory, at, page);
                }
            },
            CacheManagementStrategy::RAND(_) => {
                if full(memory, capacity) {
                    let index = choose|index: int|
                        0 <= index < memory.len() && after == replaced_at(memory, index, page);
                    lemma_evicted(memory, index, page);
                }
            },
            CacheManagementStrategy::RMA(mark_map, _) => {
                if memory.len() >= capacity {
                    let victim = choose|victim: usize|
                        #![trigger rma_evict(memory, victim, page)]
                        rma_candidates(memory, mark_map@).contains(victim) && after == rma_evict(
                            memory,
                            victim,
                            page,
                        ) && then.marks() == rma_evict_marks(memory, mark_map@, victim, page);
                    lemma_unmarked(memory, mark_map@, memory.len() as int);
                    assert(memory.contains(victim));
                    lemma_position(memory, victim);
                    lemma_evicted(memory, position(memory, victim), page);
                }
            },
        }
    }
}

/// A page that makes room for a new one leaves as many pages as before,
/// each once, the new one among them.
proof fn lemma_evicted(memory: Seq<usize>, index: int, page: usize)
    requires
        memory.no_duplicates(),
        0 <= index < memory.len(),
        !memory.contains(page),
    ensures
        replaced_at(memory, index, page).no_duplicates(),
        replaced_at(memory, index, page).len() == memory.len(),
        replaced_at(memory, index, page).contains(page),
        replaced_at(memory, index, page) == without(memory, memory[index]).push(page),
{
    lemma_position_distinct(memory, index);
    lemma_without(memory, memory[index]);
    lemma_push_distinct(without(memory, memory[index]), page);
}

} // verus!
