use online_algorithms::allocation::engine::{AllocationError, PageAllocation, NODES};
use online_algorithms::allocation::model::{CounterState, Request};
use online_algorithms::allocation::trial::{replay, simulate};

fn fresh(threshold: u64) -> PageAllocation {
    match PageAllocation::new(threshold) {
        Ok(engine) => engine,
        Err(error) => panic!("engine refused: {:?}", error),
    }
}

fn copies_of(engine: &PageAllocation) -> Vec<usize> {
    let mut held = Vec::new();
    for site in 0..engine.nodes() {
        if engine.has_copy(site) {
            held.push(site);
        }
    }
    held
}

fn waiting_sites(engine: &PageAllocation) -> Vec<usize> {
    let mut waiting = Vec::new();
    for site in 0..engine.nodes() {
        if engine.state(site) == Some(CounterState::Waiting) {
            waiting.push(site);
        }
    }
    waiting
}

#[test]
fn fresh_engine_holds_one_waiting_replica_at_site_zero() {
    let engine = fresh(2);
    assert_eq!(engine.nodes(), NODES);
    assert_eq!(engine.nodes(), 64);
    assert_eq!(engine.threshold(), 2);
    assert_eq!(copies_of(&engine), vec![0]);
    assert_eq!(engine.copy_count(), 1);
    assert_eq!(engine.max_copies(), 1);
    assert_eq!(waiting_sites(&engine), vec![0]);
    for site in 0..64 {
        assert_eq!(engine.count(site), Some(0));
    }
    assert_eq!(engine.state(1), Some(CounterState::Normal));
    assert_eq!(engine.count(64), None);
    assert_eq!(engine.state(64), None);
    assert!(!engine.has_copy(64));
}

#[test]
fn threshold_below_one_is_a_configuration_error() {
    assert!(matches!(PageAllocation::new(0), Err(AllocationError::Configuration)));
    assert!(matches!(PageAllocation::with_nodes(8, 0), Err(AllocationError::Configuration)));
    assert!(PageAllocation::new(1).is_ok());
}

#[test]
fn no_site_is_a_configuration_error() {
    assert!(matches!(PageAllocation::with_nodes(0, 4), Err(AllocationError::Configuration)));
    assert!(PageAllocation::with_nodes(1, 4).is_ok());
}

#[test]
fn request_outside_the_sites_is_refused_and_changes_nothing() {
    let mut engine = fresh(2);
    assert_eq!(engine.process_request(&Request::Read(5)), Ok(1));
    assert_eq!(engine.process_request(&Request::Read(64)), Err(AllocationError::InvalidSite));
    assert_eq!(engine.process_request(&Request::Write(64)), Err(AllocationError::InvalidSite));
    assert_eq!(
        engine.process_request(&Request::Write(usize::MAX)),
        Err(AllocationError::InvalidSite)
    );
    assert_eq!(engine.count(5), Some(1));
    assert_eq!(copies_of(&engine), vec![0]);
    assert_eq!(waiting_sites(&engine), vec![0]);
    assert_eq!(engine.max_copies(), 1);
    let mut small = PageAllocation::with_nodes(3, 2).unwrap();
    assert_eq!(small.process_request(&Request::Read(2)), Ok(1));
    assert_eq!(small.process_request(&Request::Read(3)), Err(AllocationError::InvalidSite));
}

#[test]
fn read_hit_is_free_and_changes_no_counter() {
    let mut engine = fresh(2);
    assert_eq!(engine.process_request(&Request::Read(0)), Ok(0));
    for site in 0..64 {
        assert_eq!(engine.count(site), Some(0));
    }
    assert_eq!(copies_of(&engine), vec![0]);
    assert_eq!(waiting_sites(&engine), vec![0]);
    assert_eq!(engine.max_copies(), 1);
}

#[test]
fn second_read_miss_promotes_and_evicts_the_waiting_site() {
    let mut engine = fresh(2);
    assert_eq!(engine.process_request(&Request::Read(5)), Ok(1));
    assert_eq!(engine.count(5), Some(1));
    assert_eq!(copies_of(&engine), vec![0]);
    assert_eq!(engine.process_request(&Request::Read(5)), Ok(3));
    assert_eq!(engine.count(5), Some(2));
    assert_eq!(copies_of(&engine), vec![5]);
    assert_eq!(engine.copy_count(), 1);
    assert_eq!(engine.max_copies(), 2);
    assert_eq!(engine.state(0), Some(CounterState::Normal));
}

#[test]
fn promoted_site_is_normal_and_waits_once_drained_as_last_replica() {
    let mut engine = fresh(2);
    engine.process_request(&Request::Read(5)).unwrap();
    engine.process_request(&Request::Read(5)).unwrap();
    assert_eq!(engine.state(5), Some(CounterState::Normal));
    assert!(waiting_sites(&engine).is_empty());
    // No replica is waiting, so the writer gains no vote; site 5 decays.
    assert_eq!(engine.process_request(&Request::Write(7)), Ok(1));
    assert_eq!(engine.count(5), Some(1));
    assert_eq!(engine.count(7), Some(0));
    assert_eq!(engine.state(5), Some(CounterState::Normal));
    assert_eq!(engine.process_request(&Request::Write(7)), Ok(1));
    assert_eq!(engine.count(5), Some(0));
    assert_eq!(engine.count(7), Some(0));
    assert_eq!(engine.state(5), Some(CounterState::Waiting));
    assert_eq!(copies_of(&engine), vec![5]);
    // Now the single replica waits, and writes count towards promotion.
    assert_eq!(engine.process_request(&Request::Write(7)), Ok(1));
    assert_eq!(engine.count(7), Some(1));
    assert_eq!(engine.state(5), Some(CounterState::Waiting));
    assert_eq!(engine.process_request(&Request::Write(7)), Ok(3));
    assert_eq!(engine.count(7), Some(2));
    assert_eq!(copies_of(&engine), vec![7]);
    assert_eq!(engine.state(5), Some(CounterState::Normal));
    assert_eq!(engine.state(7), Some(CounterState::Normal));
    assert_eq!(engine.max_copies(), 2);
}

#[test]
fn write_miss_on_fresh_engine_costs_one_and_votes() {
    let mut engine = fresh(2);
    assert_eq!(engine.process_request(&Request::Write(10)), Ok(1));
    assert_eq!(engine.count(10), Some(1));
    assert_eq!(copies_of(&engine), vec![0]);
    assert_eq!(waiting_sites(&engine), vec![0]);
    assert_eq!(engine.count(0), Some(0));
}

#[test]
fn write_hit_on_fresh_engine_is_free() {
    let mut engine = fresh(2);
    assert_eq!(engine.process_request(&Request::Write(0)), Ok(0));
    assert_eq!(copies_of(&engine), vec![0]);
    assert_eq!(waiting_sites(&engine), vec![0]);
    for site in 0..64 {
        assert_eq!(engine.count(site), Some(0));
    }
}

#[test]
fn write_pays_for_every_other_replica() {
    let mut engine = fresh(1);
    // With a threshold of 1 every read miss promotes.
    assert_eq!(engine.process_request(&Request::Read(1)), Ok(2));
    assert_eq!(copies_of(&engine), vec![1]);
    assert_eq!(engine.process_request(&Request::Read(2)), Ok(2));
    assert_eq!(engine.process_request(&Request::Read(3)), Ok(2));
    assert_eq!(copies_of(&engine), vec![1, 2, 3]);
    assert_eq!(engine.max_copies(), 3);
    // A replica pays for the two others; its own counter does not decay.
    assert_eq!(engine.process_request(&Request::Write(2)), Ok(2));
    assert_eq!(copies_of(&engine), vec![2]);
    assert_eq!(engine.count(1), Some(0));
    assert_eq!(engine.count(2), Some(1));
    assert_eq!(engine.count(3), Some(0));
    assert_eq!(engine.state(2), Some(CounterState::Normal));
    assert_eq!(engine.max_copies(), 3);
}

#[test]
fn write_by_outsider_pays_for_every_replica_and_votes_only_with_one_waiting() {
    let mut engine = fresh(3);
    for _ in 0..3 {
        engine.process_request(&Request::Read(1)).unwrap();
    }
    for _ in 0..3 {
        engine.process_request(&Request::Read(2)).unwrap();
    }
    assert_eq!(copies_of(&engine), vec![1, 2]);
    assert_eq!(engine.process_request(&Request::Write(9)), Ok(2));
    assert_eq!(engine.count(9), Some(0));
    assert_eq!(engine.count(1), Some(2));
    assert_eq!(engine.count(2), Some(2));
    assert_eq!(copies_of(&engine), vec![1, 2]);
}

#[test]
fn decay_evicts_in_ascending_order_and_keeps_the_last_replica() {
    let mut engine = fresh(1);
    engine.process_request(&Request::Read(3)).unwrap();
    assert_eq!(engine.process_request(&Request::Read(0)), Ok(2));
    assert_eq!(copies_of(&engine), vec![0, 3]);
    assert!(waiting_sites(&engine).is_empty());
    assert_eq!(engine.process_request(&Request::Write(9)), Ok(2));
    assert_eq!(copies_of(&engine), vec![3]);
    assert_eq!(engine.state(0), Some(CounterState::Normal));
    assert_eq!(engine.state(3), Some(CounterState::Waiting));
    assert_eq!(engine.count(9), Some(0));
    assert_eq!(engine.process_request(&Request::Write(9)), Ok(2));
    assert_eq!(copies_of(&engine), vec![9]);
    assert_eq!(engine.state(3), Some(CounterState::Normal));
    assert_eq!(engine.max_copies(), 2);
}

#[test]
fn threshold_one_promotes_on_every_miss() {
    let mut engine = fresh(1);
    assert_eq!(engine.process_request(&Request::Read(3)), Ok(2));
    assert_eq!(copies_of(&engine), vec![3]);
    assert_eq!(engine.max_copies(), 2);
    assert_eq!(engine.process_request(&Request::Read(3)), Ok(0));
    assert_eq!(engine.process_request(&Request::Read(4)), Ok(2));
    assert_eq!(copies_of(&engine), vec![3, 4]);
}

#[test]
fn single_site_engine_never_pays() {
    let mut engine = PageAllocation::with_nodes(1, 5).unwrap();
    for round in 0..20 {
        let request = if round % 3 == 0 { Request::Write(0) } else { Request::Read(0) };
        assert_eq!(engine.process_request(&request), Ok(0));
        assert_eq!(copies_of(&engine), vec![0]);
        assert_eq!(engine.max_copies(), 1);
        assert_eq!(engine.state(0), Some(CounterState::Waiting));
    }
    assert_eq!(engine.process_request(&Request::Read(1)), Err(AllocationError::InvalidSite));
}

#[test]
fn replica_with_full_counter_is_not_promoted_again() {
    let mut engine = fresh(2);
    engine.process_request(&Request::Read(5)).unwrap();
    engine.process_request(&Request::Read(5)).unwrap();
    assert_eq!(engine.count(5), Some(2));
    assert_eq!(engine.process_request(&Request::Read(5)), Ok(0));
    assert_eq!(engine.process_request(&Request::Write(5)), Ok(0));
    assert_eq!(engine.count(5), Some(2));
    assert_eq!(copies_of(&engine), vec![5]);
    assert_eq!(engine.max_copies(), 2);
}

fn next_random(seed: &mut u64) -> u64 {
    *seed = seed.wrapping_mul(6364136223846793005).wrapping_add(1442695040888963407);
    *seed >> 33
}

fn random_stream(seed: u64, length: usize, nodes: usize, writes_in_100: u64) -> Vec<Request> {
    let mut seed = seed;
    let mut requests = Vec::new();
    for _ in 0..length {
        let page = (next_random(&mut seed) % nodes as u64) as usize;
        let write = next_random(&mut seed) % 100 < writes_in_100;
        requests.push(Request::new_random_request(write, page));
    }
    requests
}

#[test]
fn invariants_hold_along_a_long_stream() {
    for (threshold, writes_in_100, nodes) in [(1, 50, 4), (2, 10, 64), (3, 30, 16), (16, 2, 64)] {
        let mut engine = PageAllocation::with_nodes(nodes, threshold).unwrap();
        let mut peak = engine.max_copies();
        for request in random_stream(7 + threshold, 4000, nodes, writes_in_100) {
            let before = copies_of(&engine);
            let cost = engine.process_request(&request).unwrap();
            assert!(cost <= nodes as u64 + threshold);
            let held = copies_of(&engine);
            assert!(1 <= held.len() && held.len() <= nodes);
            assert_eq!(engine.copy_count(), held.len());
            let waiting = waiting_sites(&engine);
            assert!(waiting.len() <= 1);
            if let Some(site) = waiting.first() {
                assert_eq!(held, vec![*site]);
                assert_eq!(engine.count(*site), Some(0));
            }
            for site in 0..nodes {
                let votes = engine.count(site).unwrap();
                assert!(votes <= threshold);
                if !engine.has_copy(site) {
                    assert!(votes < threshold);
                }
                if engine.has_copy(site) && !before.contains(&site) {
                    let asked = match request {
                        Request::Read(page) => page,
                        Request::Write(page) => page,
                    };
                    assert_eq!(site, asked);
                    assert_eq!(votes, threshold);
                }
            }
            assert!(engine.max_copies() >= peak);
            assert!(engine.max_copies() >= held.len());
            assert!(engine.max_copies() <= nodes);
            peak = engine.max_copies();
        }
    }
}

#[test]
fn replaying_a_stream_gives_the_same_costs_and_replicas() {
    let requests = random_stream(99, 3000, 64, 20);
    let mut first = fresh(4);
    let mut second = fresh(4);
    let mut first_costs = Vec::new();
    let mut second_costs = Vec::new();
    for request in &requests {
        first_costs.push(first.process_request(request).unwrap());
    }
    for request in &requests {
        second_costs.push(second.process_request(request).unwrap());
    }
    assert_eq!(first_costs, second_costs);
    assert_eq!(copies_of(&first), copies_of(&second));
    assert_eq!(first.max_copies(), second.max_copies());
    assert_eq!(replay(64, 4, &requests), replay(64, 4, &requests));
}

#[test]
fn new_random_request_tags_the_page_with_the_coin() {
    assert_eq!(Request::new_random_request(true, 12), Request::Write(12));
    assert_eq!(Request::new_random_request(false, 12), Request::Read(12));
}

#[test]
fn replay_adds_up_the_costs_and_reports_the_peak() {
    let requests = vec![
        Request::Read(0),
        Request::Read(5),
        Request::Read(5),
        Request::Write(7),
        Request::Write(7),
    ];
    assert_eq!(replay(64, 2, &requests), Ok((6, 2)));
    assert_eq!(replay(64, 2, &Vec::new()), Ok((0, 1)));
    let reads = vec![Request::Read(1), Request::Read(2), Request::Read(3)];
    assert_eq!(replay(4, 1, &reads), Ok((6, 3)));
}

#[test]
fn replay_agrees_with_an_engine_driven_by_hand() {
    let requests = random_stream(5, 2000, 64, 10);
    let mut engine = fresh(16);
    let mut total: u128 = 0;
    for request in &requests {
        total += engine.process_request(request).unwrap() as u128;
    }
    assert_eq!(replay(64, 16, &requests), Ok((total, engine.max_copies())));
}

#[test]
fn replay_reports_configuration_and_site_errors() {
    let requests = vec![Request::Read(1), Request::Write(8), Request::Read(2)];
    assert_eq!(replay(8, 2, &requests), Err(AllocationError::InvalidSite));
    assert_eq!(replay(8, 0, &requests), Err(AllocationError::Configuration));
    assert_eq!(replay(0, 2, &Vec::new()), Err(AllocationError::Configuration));
    assert_eq!(replay(9, 2, &requests), Ok((3, 1)));
}

#[test]
fn simulate_without_requests_costs_nothing() {
    let mut rng = rand::rng();
    assert_eq!(simulate(&mut rng, &Vec::new(), 64, 2), Ok((0, 1)));
}

#[test]
fn simulate_refuses_a_bad_configuration() {
    let mut rng = rand::rng();
    let writes = vec![true, false];
    assert_eq!(simulate(&mut rng, &writes, 64, 0), Err(AllocationError::Configuration));
    assert_eq!(simulate(&mut rng, &writes, 0, 2), Err(AllocationError::Configuration));
}

#[test]
fn simulate_on_a_single_site_is_free() {
    let mut rng = rand::rng();
    let writes = vec![true, false, true, true, false, false];
    assert_eq!(simulate(&mut rng, &writes, 1, 3), Ok((0, 1)));
}

#[test]
fn simulate_draws_sites_below_the_number_of_nodes() {
    // Two sites, threshold 1, reads only: the first read of site 1 promotes
    // it and evicts site 0, the next read of site 0 promotes it again, and
    // from then on every read is a hit. Each promotion costs 2.
    let mut rng = rand::rng();
    for _ in 0..50 {
        let writes = vec![false; 40];
        let (cost, peak) = simulate(&mut rng, &writes, 2, 1).unwrap();
        assert!(cost == 0 || cost == 2 || cost == 4);
        assert!(peak == 1 || peak == 2);
        assert_eq!(peak == 1, cost == 0);
    }
}

#[test]
fn simulate_with_writes_only_stays_within_the_cost_bound() {
    let mut rng = rand::rng();
    for _ in 0..20 {
        let writes = vec![true; 500];
        let (cost, peak) = simulate(&mut rng, &writes, 8, 3).unwrap();
        assert!(cost <= 500 * (8 + 3));
        assert!(1 <= peak && peak <= 8);
    }
}
