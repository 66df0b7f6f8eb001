use online_algorithms::cache::manager::{CacheManagementStrategy, CacheManager};
use rand::rng;
use std::collections::{HashMap, VecDeque};

#[test]
fn test_fifo_strategy() {
    let requests = vec![1, 2, 3, 1, 4, 2, 5];
    let mut cache = CacheManager::new(3, CacheManagementStrategy::FIFO);
    let expected_costs = vec![1, 1, 1, 0, 1, 0, 1];

    for (i, &req) in requests.iter().enumerate() {
        let cost = cache.access(req);
        assert_eq!(cost, expected_costs[i], "Mismatch at request index {}", i);
    }
}

#[test]
fn test_fwf_strategy() {
    let requests = vec![1, 2, 3, 4, 1, 2, 5];
    let mut cache = CacheManager::new(3, CacheManagementStrategy::FWF);
    let expected_costs = vec![1, 1, 1, 1, 1, 1, 1];

    for (i, &req) in requests.iter().enumerate() {
        let cost = cache.access(req);
        assert_eq!(cost, expected_costs[i], "Mismatch at request index {}", i);
    }
}

#[test]
fn test_lru_strategy() {
    let requests = vec![1, 2, 3, 1, 4, 5];
    let mut cache = CacheManager::new(3, CacheManagementStrategy::LRU(VecDeque::new()));

    let expected_costs = vec![1, 1, 1, 0, 1, 1];

    for (i, &req) in requests.iter().enumerate() {
        let cost = cache.access(req);
        assert_eq!(cost, expected_costs[i], "Mismatch at request index {}", i);
    }
}

#[test]
fn test_lfu_strategy() {
    let requests = vec![1, 2, 1, 3, 4, 1, 5];
    let mut cache = CacheManager::new(3, CacheManagementStrategy::LFU(HashMap::new()));

    let expected_costs = vec![1, 1, 0, 1, 1, 0, 1];

    for (i, &req) in requests.iter().enumerate() {
        let cost = cache.access(req);
        assert_eq!(cost, expected_costs[i], "Mismatch at request index {}", i);
    }
}

#[test]
fn test_random_strategy() {
    let mut cache = CacheManager::new(3, CacheManagementStrategy::RAND(rng()));
    assert_eq!(cache.access(1), 1);
    assert_eq!(cache.access(1), 0);

    assert_eq!(cache.access(2), 1);
    assert_eq!(cache.access(3), 1);

    assert_eq!(cache.access(4), 1);
    assert_eq!(cache.access(4), 0);
}

#[test]
fn test_rma_strategy() {
    let mut cache = CacheManager::new(3, CacheManagementStrategy::RMA(HashMap::new(), rng()));
    assert_eq!(cache.access(1), 1);
    assert_eq!(cache.access(1), 0);
    assert_eq!(cache.access(2), 1);
    assert_eq!(cache.access(3), 1);
    assert_eq!(cache.access(4), 1);
    assert_eq!(cache.access(4), 0);
}

#[test]
fn new_cache_is_empty() {
    let cache = CacheManager::new(4, CacheManagementStrategy::FIFO);
    assert_eq!(cache.len(), 0);
    assert!(!cache.contains(1));
}

#[test]
fn fifo_evicts_the_oldest_page() {
    let mut cache = CacheManager::new(2, CacheManagementStrategy::FIFO);
    for page in [1, 2] {
        assert_eq!(cache.access(page), 1);
    }
    // A hit does not make page 1 any younger.
    assert_eq!(cache.access(1), 0);
    assert_eq!(cache.access(3), 1);
    assert!(!cache.contains(1));
    assert!(cache.contains(2));
    assert!(cache.contains(3));
    assert_eq!(cache.len(), 2);
}

#[test]
fn fwf_flushes_every_page_when_full() {
    let mut cache = CacheManager::new(2, CacheManagementStrategy::FWF);
    for page in [1, 2, 3] {
        assert_eq!(cache.access(page), 1);
    }
    assert_eq!(cache.len(), 1);
    assert!(cache.contains(3));
    assert!(!cache.contains(1));
    assert!(!cache.contains(2));
}

#[test]
fn lru_evicts_the_page_used_longest_ago() {
    let mut cache = CacheManager::new(2, CacheManagementStrategy::LRU(VecDeque::new()));
    for page in [1, 2] {
        assert_eq!(cache.access(page), 1);
    }
    assert_eq!(cache.access(1), 0);
    assert_eq!(cache.access(3), 1);
    assert!(cache.contains(1));
    assert!(!cache.contains(2));
    assert!(cache.contains(3));
    assert_eq!(cache.access(1), 0);
    assert_eq!(cache.access(4), 1);
    assert!(cache.contains(1));
    assert!(!cache.contains(3));
    assert_eq!(cache.len(), 2);
}

#[test]
fn lfu_evicts_the_first_of_the_least_used_pages() {
    let mut cache = CacheManager::new(3, CacheManagementStrategy::LFU(HashMap::new()));
    for page in [1, 2, 3] {
        assert_eq!(cache.access(page), 1);
    }
    assert_eq!(cache.access(4), 1);
    assert!(!cache.contains(1));
    assert!(cache.contains(2) && cache.contains(3) && cache.contains(4));
    assert_eq!(cache.access(2), 0);
    assert_eq!(cache.access(4), 0);
    assert_eq!(cache.access(5), 1);
    assert!(!cache.contains(3));
    assert!(cache.contains(2) && cache.contains(4) && cache.contains(5));
    // A page that comes back starts again with a single access.
    assert_eq!(cache.access(3), 1);
    assert!(!cache.contains(5));
    assert_eq!(cache.access(1), 1);
    assert!(!cache.contains(3));
    assert_eq!(cache.len(), 3);
}

#[test]
fn cache_without_room_keeps_every_page() {
    for strategy in [
        CacheManagementStrategy::FIFO,
        CacheManagementStrategy::LRU(VecDeque::new()),
        CacheManagementStrategy::LFU(HashMap::new()),
    ] {
        let mut cache = CacheManager::new(0, strategy);
        for page in 1..=5 {
            assert_eq!(cache.access(page), 1);
        }
        assert_eq!(cache.len(), 5);
        assert_eq!(cache.access(1), 0);
    }
    let mut flushing = CacheManager::new(0, CacheManagementStrategy::FWF);
    for page in 1..=5 {
        assert_eq!(flushing.access(page), 1);
    }
    assert_eq!(flushing.len(), 5);
}

#[test]
fn random_strategy_with_one_slot_evicts_the_only_page() {
    let mut cache = CacheManager::new(1, CacheManagementStrategy::RAND(rng()));
    assert_eq!(cache.access(1), 1);
    assert_eq!(cache.access(2), 1);
    assert_eq!(cache.len(), 1);
    assert!(cache.contains(2));
    assert_eq!(cache.access(1), 1);
    assert!(!cache.contains(2));
}

#[test]
fn random_strategy_evicts_exactly_one_page() {
    for _ in 0..50 {
        let mut cache = CacheManager::new(4, CacheManagementStrategy::RAND(rng()));
        for page in [1, 2, 3, 4] {
            assert_eq!(cache.access(page), 1);
        }
        assert_eq!(cache.access(9), 1);
        assert_eq!(cache.len(), 4);
        assert!(cache.contains(9));
        let left = [1, 2, 3, 4].iter().filter(|page| cache.contains(**page)).count();
        assert_eq!(left, 3);
    }
}

#[test]
fn marking_strategy_evicts_an_unmarked_page_first() {
    for _ in 0..50 {
        let mut cache = CacheManager::new(2, CacheManagementStrategy::RMA(HashMap::new(), rng()));
        assert_eq!(cache.access(1), 1);
        assert_eq!(cache.access(2), 1);
        // Both pages are marked: the marks are dropped and one page leaves.
        assert_eq!(cache.access(3), 1);
        assert_eq!(cache.len(), 2);
        assert!(cache.contains(3));
        assert!(cache.contains(1) != cache.contains(2));
        // The page that stayed has no mark, page 3 has one: the former leaves.
        assert_eq!(cache.access(4), 1);
        assert!(cache.contains(3));
        assert!(cache.contains(4));
        assert!(!cache.contains(1));
        assert!(!cache.contains(2));
    }
}

#[test]
fn marking_strategy_keeps_a_page_that_was_hit_after_the_marks_were_dropped() {
    for _ in 0..50 {
        let mut cache = CacheManager::new(3, CacheManagementStrategy::RMA(HashMap::new(), rng()));
        for page in [1, 2, 3] {
            assert_eq!(cache.access(page), 1);
        }
        assert_eq!(cache.access(4), 1);
        let stayed: Vec<usize> = [1, 2, 3].into_iter().filter(|page| cache.contains(*page)).collect();
        assert_eq!(stayed.len(), 2);
        // A hit marks the first of the two again; the other one must leave.
        assert_eq!(cache.access(stayed[0]), 0);
        assert_eq!(cache.access(5), 1);
        assert!(cache.contains(stayed[0]));
        assert!(!cache.contains(stayed[1]));
        assert!(cache.contains(4));
        assert!(cache.contains(5));
    }
}

fn next_random(seed: &mut u64) -> u64 {
    *seed = seed.wrapping_mul(6364136223846793005).wrapping_add(1442695040888963407);
    *seed >> 33
}

#[test]
fn cache_never_exceeds_its_capacity_and_holds_the_requested_page() {
    let strategies: Vec<fn() -> CacheManagementStrategy> = vec![
        || CacheManagementStrategy::FIFO,
        || CacheManagementStrategy::FWF,
        || CacheManagementStrategy::LRU(VecDeque::new()),
        || CacheManagementStrategy::LFU(HashMap::new()),
        || CacheManagementStrategy::RAND(rng()),
        || CacheManagementStrategy::RMA(HashMap::new(), rng()),
    ];
    for make in strategies {
        for capacity in [1, 2, 5] {
            let mut cache = CacheManager::new(capacity, make());
            let mut seed = capacity as u64;
            for _ in 0..2000 {
                let page = (next_random(&mut seed) % 12) as usize;
                let held = cache.contains(page);
                let before = cache.len();
                let cost = cache.access(page);
                assert_eq!(cost, if held { 0 } else { 1 });
                assert!(cache.contains(page));
                assert!(cache.len() <= capacity);
                if held {
                    assert_eq!(cache.len(), before);
                }
            }
        }
    }
}
