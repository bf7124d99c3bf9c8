use worker_registry::{
    static_name_from_str, FunctionWorkerConfig, FunctionWorkerMap, LoadError, RegistrationError,
    SelectionError, StaticName,
};

fn config(function: &str, worker: &str, traffic: u32, max_concurrency: u32) -> FunctionWorkerConfig {
    FunctionWorkerConfig {
        function_name: static_name_from_str(function),
        worker_uuid: static_name_from_str(worker),
        timeout: 10000,
        traffic,
        max_concurrency,
    }
}

fn workers_in_order(map: &FunctionWorkerMap, function: &str) -> Vec<StaticName> {
    let listed = map.ranked_workers(static_name_from_str(function)).unwrap();
    let mut names = Vec::new();
    for record in listed.iter() {
        names.push(record.worker_uuid);
    }
    names
}

fn traffic_of(map: &FunctionWorkerMap, function: &str, worker: &str) -> u32 {
    let listed = map.ranked_workers(static_name_from_str(function)).unwrap();
    let wanted = static_name_from_str(worker);
    for record in listed.iter() {
        if record.worker_uuid == wanted {
            return record.traffic;
        }
    }
    panic!("worker is not registered");
}

#[test]
fn test_insert_worker_config() {
    let mut function_worker_map = FunctionWorkerMap::new();

    let function_name: StaticName = static_name_from_str("test-function1");
    let worker_uuid: StaticName = static_name_from_str("test-worker1");
    let timeout: u32 = 10000;
    let traffic: u32 = 0;
    let max_concurrency: u32 = 1;

    let worker_config: FunctionWorkerConfig = FunctionWorkerConfig {
        function_name: function_name,
        worker_uuid: worker_uuid,
        timeout: timeout,
        traffic: traffic,
        max_concurrency: max_concurrency,
    };

    function_worker_map.insert_worker_config(function_name, worker_config).unwrap();
    let worker_config_vec_option = function_worker_map.ranked_workers(function_name);
    assert_eq!(worker_config_vec_option.is_some(), true);
    let worker_config_vec = worker_config_vec_option.unwrap();
    assert_eq!(worker_config_vec.len(), 1);
    assert_eq!(worker_config_vec[0].function_name, function_name);
    assert_eq!(worker_config_vec[0].worker_uuid, worker_uuid);
    assert_eq!(worker_config_vec[0].timeout, timeout);
    assert_eq!(worker_config_vec[0].traffic, traffic);
    assert_eq!(worker_config_vec[0].max_concurrency, max_concurrency);
}

#[test]
fn test_insert_multiple_worker_config() {
    let mut function_worker_map = FunctionWorkerMap::new();

    let function_name1: StaticName = static_name_from_str("test-function1");
    let worker_uuid1: StaticName = static_name_from_str("test-worker1");
    let timeout1: u32 = 10000;
    let traffic1: u32 = 0;
    let max_concurrency1: u32 = 1;

    let worker_config: FunctionWorkerConfig = FunctionWorkerConfig {
        function_name: function_name1,
        worker_uuid: worker_uuid1,
        timeout: timeout1,
        traffic: traffic1,
        max_concurrency: max_concurrency1,
    };

    function_worker_map.insert_worker_config(function_name1, worker_config).unwrap();

    let function_name: StaticName = static_name_from_str("test-function2");
    let worker_uuid: StaticName = static_name_from_str("test-worker2");
    let timeout: u32 = 10000;
    let traffic: u32 = 0;
    let max_concurrency: u32 = 1;

    let worker_config: FunctionWorkerConfig = FunctionWorkerConfig {
        function_name: function_name,
        worker_uuid: worker_uuid,
        timeout: timeout,
        traffic: traffic,
        max_concurrency: max_concurrency,
    };

    function_worker_map.insert_worker_config(function_name, worker_config).unwrap();

    let function_name3: StaticName = static_name_from_str("test-function1");
    let worker_uuid3: StaticName = static_name_from_str("test-worker3");
    let timeout3: u32 = 10000;
    let traffic3: u32 = 0;
    let max_concurrency3: u32 = 2;

    let worker_config: FunctionWorkerConfig = FunctionWorkerConfig {
        function_name: function_name3,
        worker_uuid: worker_uuid3,
        timeout: timeout3,
        traffic: traffic3,
        max_concurrency: max_concurrency3,
    };

    function_worker_map.insert_worker_config(function_name3, worker_config).unwrap();

    let worker_config_vec_option = function_worker_map.ranked_workers(function_name3);

    assert_eq!(worker_config_vec_option.is_some(), true);
    let worker_config_vec = worker_config_vec_option.unwrap();
    assert_eq!(worker_config_vec.len(), 2);
    assert_eq!(worker_config_vec[0].function_name, function_name3);
    assert_eq!(worker_config_vec[0].worker_uuid, worker_uuid3);
    assert_eq!(worker_config_vec[0].timeout, timeout3);
    assert_eq!(worker_config_vec[0].traffic, traffic3);
    assert_eq!(worker_config_vec[0].max_concurrency, max_concurrency3);

    assert_eq!(worker_config_vec[1].function_name, function_name1);
    assert_eq!(worker_config_vec[1].worker_uuid, worker_uuid1);
    assert_eq!(worker_config_vec[1].timeout, timeout1);

    let other = function_worker_map.ranked_workers(function_name).unwrap();
    assert_eq!(other.len(), 1);
    assert_eq!(other[0].worker_uuid, worker_uuid);
}

#[test]
fn new_registry_knows_no_function() {
    let map = FunctionWorkerMap::new();
    let f = static_name_from_str("f");
    assert_eq!(map.get_least_busy_worker(f), Err(SelectionError::UnknownFunction));
    assert_eq!(map.ranked_workers(f), None);
}

#[test]
fn select_answers_unknown_function_once_the_last_worker_left() {
    let mut map = FunctionWorkerMap::new();
    let f = static_name_from_str("f");
    map.insert_worker_config(f, config("f", "w1", 0, 1)).unwrap();
    map.insert_worker_config(f, config("f", "w2", 0, 1)).unwrap();
    assert_eq!(map.deregister(f, static_name_from_str("w1")), true);
    assert_eq!(map.get_least_busy_worker(f), Ok(config("f", "w2", 0, 1)));
    assert_eq!(map.deregister(f, static_name_from_str("w2")), true);
    assert_eq!(map.get_least_busy_worker(f), Err(SelectionError::UnknownFunction));
    assert_eq!(map.ranked_workers(f), None);
}

#[test]
fn select_answers_no_eligible_worker_when_all_are_saturated() {
    let mut map = FunctionWorkerMap::new();
    let f = static_name_from_str("f");
    map.insert_worker_config(f, config("f", "w1", 1, 1)).unwrap();
    map.insert_worker_config(f, config("f", "w2", 3, 3)).unwrap();
    assert_eq!(map.get_least_busy_worker(f), Err(SelectionError::NoEligibleWorker));
    assert_eq!(
        map.get_least_busy_worker(static_name_from_str("g")),
        Err(SelectionError::UnknownFunction)
    );
}

#[test]
fn select_prefers_the_worker_with_more_spare_capacity() {
    let mut map = FunctionWorkerMap::new();
    let f = static_name_from_str("F");
    map.insert_worker_config(f, config("F", "W1", 0, 1)).unwrap();
    map.insert_worker_config(f, config("F", "W2", 0, 2)).unwrap();
    assert_eq!(map.get_least_busy_worker(f), Ok(config("F", "W2", 0, 2)));
}

#[test]
fn select_prefers_more_spare_capacity_over_a_higher_limit() {
    let mut map = FunctionWorkerMap::new();
    let f = static_name_from_str("F");
    map.insert_worker_config(f, config("F", "big", 9, 10)).unwrap();
    map.insert_worker_config(f, config("F", "small", 1, 4)).unwrap();
    assert_eq!(map.get_least_busy_worker(f), Ok(config("F", "small", 1, 4)));
}

#[test]
fn select_breaks_ties_by_registration_order() {
    let mut map = FunctionWorkerMap::new();
    let f = static_name_from_str("F");
    map.insert_worker_config(f, config("F", "W1", 0, 2)).unwrap();
    map.insert_worker_config(f, config("F", "W2", 0, 2)).unwrap();
    assert_eq!(map.get_least_busy_worker(f), Ok(config("F", "W1", 0, 2)));
    assert_eq!(
        workers_in_order(&map, "F"),
        vec![static_name_from_str("W1"), static_name_from_str("W2")]
    );
}

#[test]
fn reregistration_replaces_the_record() {
    let mut map = FunctionWorkerMap::new();
    let f = static_name_from_str("F");
    map.insert_worker_config(f, config("F", "W1", 0, 1)).unwrap();
    map.insert_worker_config(f, config("F", "W2", 0, 2)).unwrap();
    assert_eq!(map.ranked_workers(f).unwrap().len(), 2);

    let mut newer = config("F", "W1", 3, 8);
    newer.timeout = 500;
    map.insert_worker_config(f, newer.copy()).unwrap();

    let listed = map.ranked_workers(f).unwrap();
    assert_eq!(listed.len(), 2);
    assert_eq!(listed[0], newer);
    assert_eq!(listed[0].timeout, 500);
    assert_eq!(listed[0].traffic, 3);
    assert_eq!(listed[0].max_concurrency, 8);
    assert_eq!(listed[1], config("F", "W2", 0, 2));
    assert_eq!(map.get_least_busy_worker(f), Ok(newer));
}

#[test]
fn reregistration_keeps_the_place_of_the_first_registration() {
    let mut map = FunctionWorkerMap::new();
    let f = static_name_from_str("F");
    map.insert_worker_config(f, config("F", "W1", 0, 2)).unwrap();
    map.insert_worker_config(f, config("F", "W2", 0, 2)).unwrap();
    map.insert_worker_config(f, config("F", "W1", 2, 2)).unwrap();
    assert_eq!(map.get_least_busy_worker(f), Ok(config("F", "W2", 0, 2)));
    map.insert_worker_config(f, config("F", "W1", 1, 3)).unwrap();
    assert_eq!(map.get_least_busy_worker(f), Ok(config("F", "W1", 1, 3)));
}

#[test]
fn dispatch_moves_a_worker_behind_its_equals() {
    let mut map = FunctionWorkerMap::new();
    let f = static_name_from_str("F");
    let w1 = static_name_from_str("W1");
    map.insert_worker_config(f, config("F", "W1", 0, 2)).unwrap();
    map.insert_worker_config(f, config("F", "W2", 0, 2)).unwrap();
    assert_eq!(map.record_dispatch(f, w1), Ok(()));
    assert_eq!(map.get_least_busy_worker(f), Ok(config("F", "W2", 0, 2)));
    assert_eq!(
        workers_in_order(&map, "F"),
        vec![static_name_from_str("W2"), static_name_from_str("W1")]
    );
    assert_eq!(traffic_of(&map, "F", "W1"), 1);
}

#[test]
fn dispatch_keeps_a_worker_ahead_while_it_has_more_to_spare() {
    let mut map = FunctionWorkerMap::new();
    let f = static_name_from_str("F");
    let w1 = static_name_from_str("W1");
    map.insert_worker_config(f, config("F", "W1", 0, 5)).unwrap();
    map.insert_worker_config(f, config("F", "W2", 0, 2)).unwrap();
    assert_eq!(map.record_dispatch(f, w1), Ok(()));
    assert_eq!(map.get_least_busy_worker(f), Ok(config("F", "W1", 1, 5)));
    assert_eq!(map.record_dispatch(f, w1), Ok(()));
    assert_eq!(map.get_least_busy_worker(f), Ok(config("F", "W1", 2, 5)));
    assert_eq!(map.record_dispatch(f, w1), Ok(()));
    // Both have two to spare now; W1 was registered first.
    assert_eq!(map.get_least_busy_worker(f), Ok(config("F", "W1", 3, 5)));
    assert_eq!(map.record_dispatch(f, w1), Ok(()));
    assert_eq!(map.get_least_busy_worker(f), Ok(config("F", "W2", 0, 2)));
}

#[test]
fn completion_gives_an_earlier_worker_its_place_back() {
    let mut map = FunctionWorkerMap::new();
    let f = static_name_from_str("F");
    let w1 = static_name_from_str("W1");
    map.insert_worker_config(f, config("F", "W1", 0, 2)).unwrap();
    map.insert_worker_config(f, config("F", "W2", 0, 2)).unwrap();
    map.insert_worker_config(f, config("F", "W3", 0, 2)).unwrap();
    assert_eq!(map.record_dispatch(f, w1), Ok(()));
    assert_eq!(
        workers_in_order(&map, "F"),
        vec![static_name_from_str("W2"), static_name_from_str("W3"), static_name_from_str("W1")]
    );
    assert_eq!(map.record_completion(f, w1), Ok(()));
    assert_eq!(
        workers_in_order(&map, "F"),
        vec![static_name_from_str("W1"), static_name_from_str("W2"), static_name_from_str("W3")]
    );
    assert_eq!(map.get_least_busy_worker(f), Ok(config("F", "W1", 0, 2)));
}

#[test]
fn dispatch_at_capacity_is_refused_and_changes_nothing() {
    let mut map = FunctionWorkerMap::new();
    let f = static_name_from_str("F");
    let w1 = static_name_from_str("W1");
    map.insert_worker_config(f, config("F", "W1", 2, 2)).unwrap();
    map.insert_worker_config(f, config("F", "W2", 0, 1)).unwrap();
    let before = map.ranked_workers(f).unwrap();
    assert_eq!(map.record_dispatch(f, w1), Err(LoadError::AtCapacity));
    assert_eq!(map.ranked_workers(f).unwrap(), before);
    assert_eq!(traffic_of(&map, "F", "W1"), 2);
}

#[test]
fn dispatch_fills_a_worker_up_to_its_limit() {
    let mut map = FunctionWorkerMap::new();
    let f = static_name_from_str("F");
    let w1 = static_name_from_str("W1");
    map.insert_worker_config(f, config("F", "W1", 0, 3)).unwrap();
    assert_eq!(map.record_dispatch(f, w1), Ok(()));
    assert_eq!(map.record_dispatch(f, w1), Ok(()));
    assert_eq!(map.record_dispatch(f, w1), Ok(()));
    assert_eq!(traffic_of(&map, "F", "W1"), 3);
    assert_eq!(map.record_dispatch(f, w1), Err(LoadError::AtCapacity));
    assert_eq!(traffic_of(&map, "F", "W1"), 3);
    assert_eq!(map.get_least_busy_worker(f), Err(SelectionError::NoEligibleWorker));
}

#[test]
fn completion_without_traffic_is_refused_and_changes_nothing() {
    let mut map = FunctionWorkerMap::new();
    let f = static_name_from_str("F");
    let w1 = static_name_from_str("W1");
    map.insert_worker_config(f, config("F", "W1", 0, 2)).unwrap();
    map.insert_worker_config(f, config("F", "W2", 1, 2)).unwrap();
    let before = map.ranked_workers(f).unwrap();
    assert_eq!(map.record_completion(f, w1), Err(LoadError::Underflow));
    assert_eq!(map.ranked_workers(f).unwrap(), before);
    assert_eq!(traffic_of(&map, "F", "W1"), 0);
}

#[test]
fn load_changes_on_workers_that_are_not_registered_are_not_found() {
    let mut map = FunctionWorkerMap::new();
    let f = static_name_from_str("F");
    let g = static_name_from_str("G");
    let w1 = static_name_from_str("W1");
    let w2 = static_name_from_str("W2");
    assert_eq!(map.record_dispatch(f, w1), Err(LoadError::NotFound));
    assert_eq!(map.record_completion(f, w1), Err(LoadError::NotFound));
    map.insert_worker_config(f, config("F", "W1", 1, 2)).unwrap();
    assert_eq!(map.record_dispatch(f, w2), Err(LoadError::NotFound));
    assert_eq!(map.record_completion(f, w2), Err(LoadError::NotFound));
    assert_eq!(map.record_dispatch(g, w1), Err(LoadError::NotFound));
    assert_eq!(map.record_completion(g, w1), Err(LoadError::NotFound));
    assert_eq!(map.deregister(f, w1), true);
    assert_eq!(map.record_dispatch(f, w1), Err(LoadError::NotFound));
    assert_eq!(map.record_completion(f, w1), Err(LoadError::NotFound));
}

#[test]
fn end_to_end_two_workers_with_one_slot_each() {
    let mut map = FunctionWorkerMap::new();
    let f = static_name_from_str("F");
    let w1 = static_name_from_str("W1");
    map.insert_worker_config(f, config("F", "W1", 0, 1)).unwrap();
    map.insert_worker_config(f, config("F", "W2", 0, 1)).unwrap();
    assert_eq!(map.get_least_busy_worker(f), Ok(config("F", "W1", 0, 1)));
    assert_eq!(map.record_dispatch(f, w1), Ok(()));
    assert_eq!(traffic_of(&map, "F", "W1"), 1);
    assert_eq!(map.get_least_busy_worker(f), Ok(config("F", "W2", 0, 1)));
}

#[test]
fn registration_without_capacity_is_refused() {
    let mut map = FunctionWorkerMap::new();
    let f = static_name_from_str("F");
    assert_eq!(
        map.insert_worker_config(f, config("F", "W1", 0, 0)),
        Err(RegistrationError::InvalidCapacity)
    );
    assert_eq!(map.ranked_workers(f), None);
    assert_eq!(map.get_least_busy_worker(f), Err(SelectionError::UnknownFunction));
}

#[test]
fn registration_for_another_function_is_refused() {
    let mut map = FunctionWorkerMap::new();
    let f = static_name_from_str("F");
    let g = static_name_from_str("G");
    assert_eq!(
        map.insert_worker_config(f, config("G", "W1", 0, 1)),
        Err(RegistrationError::IdentityMismatch)
    );
    assert_eq!(map.ranked_workers(f), None);
    assert_eq!(map.ranked_workers(g), None);
    // A record with both faults is refused for its capacity.
    assert_eq!(
        map.insert_worker_config(f, config("G", "W1", 0, 0)),
        Err(RegistrationError::InvalidCapacity)
    );
}

#[test]
fn refused_registration_leaves_the_old_record() {
    let mut map = FunctionWorkerMap::new();
    let f = static_name_from_str("F");
    map.insert_worker_config(f, config("F", "W1", 1, 4)).unwrap();
    assert_eq!(
        map.insert_worker_config(f, config("F", "W1", 0, 0)),
        Err(RegistrationError::InvalidCapacity)
    );
    assert_eq!(map.ranked_workers(f).unwrap(), vec![config("F", "W1", 1, 4)]);
}

#[test]
fn deregister_says_whether_the_worker_was_registered() {
    let mut map = FunctionWorkerMap::new();
    let f = static_name_from_str("F");
    let w1 = static_name_from_str("W1");
    let w2 = static_name_from_str("W2");
    assert_eq!(map.deregister(f, w1), false);
    map.insert_worker_config(f, config("F", "W1", 0, 1)).unwrap();
    assert_eq!(map.deregister(f, w2), false);
    assert_eq!(map.deregister(static_name_from_str("G"), w1), false);
    assert_eq!(map.deregister(f, w1), true);
    assert_eq!(map.deregister(f, w1), false);
}

#[test]
fn deregister_keeps_the_order_of_the_others() {
    let mut map = FunctionWorkerMap::new();
    let f = static_name_from_str("F");
    map.insert_worker_config(f, config("F", "W1", 0, 3)).unwrap();
    map.insert_worker_config(f, config("F", "W2", 0, 5)).unwrap();
    map.insert_worker_config(f, config("F", "W3", 0, 3)).unwrap();
    map.insert_worker_config(f, config("F", "W4", 0, 4)).unwrap();
    assert_eq!(
        workers_in_order(&map, "F"),
        vec![
            static_name_from_str("W2"),
            static_name_from_str("W4"),
            static_name_from_str("W1"),
            static_name_from_str("W3")
        ]
    );
    assert_eq!(map.deregister(f, static_name_from_str("W2")), true);
    assert_eq!(
        workers_in_order(&map, "F"),
        vec![static_name_from_str("W4"), static_name_from_str("W1"), static_name_from_str("W3")]
    );
    assert_eq!(map.deregister(f, static_name_from_str("W1")), true);
    assert_eq!(
        workers_in_order(&map, "F"),
        vec![static_name_from_str("W4"), static_name_from_str("W3")]
    );
    // A worker that comes back is a new worker: it comes behind its equals.
    map.insert_worker_config(f, config("F", "W1", 0, 3)).unwrap();
    assert_eq!(
        workers_in_order(&map, "F"),
        vec![static_name_from_str("W4"), static_name_from_str("W3"), static_name_from_str("W1")]
    );
}

#[test]
fn functions_do_not_share_workers() {
    let mut map = FunctionWorkerMap::new();
    let f = static_name_from_str("F");
    let g = static_name_from_str("G");
    let w = static_name_from_str("W");
    map.insert_worker_config(f, config("F", "W", 0, 2)).unwrap();
    map.insert_worker_config(g, config("G", "W", 0, 2)).unwrap();
    assert_eq!(map.record_dispatch(f, w), Ok(()));
    assert_eq!(map.record_dispatch(f, w), Ok(()));
    assert_eq!(map.get_least_busy_worker(f), Err(SelectionError::NoEligibleWorker));
    assert_eq!(map.get_least_busy_worker(g), Ok(config("G", "W", 0, 2)));
    assert_eq!(map.deregister(f, w), true);
    assert_eq!(map.get_least_busy_worker(f), Err(SelectionError::UnknownFunction));
    assert_eq!(map.get_least_busy_worker(g), Ok(config("G", "W", 0, 2)));
}

#[test]
fn a_record_over_its_limit_has_nothing_to_spare() {
    let mut map = FunctionWorkerMap::new();
    let f = static_name_from_str("F");
    let w1 = static_name_from_str("W1");
    map.insert_worker_config(f, config("F", "W1", 5, 2)).unwrap();
    assert_eq!(map.get_least_busy_worker(f), Err(SelectionError::NoEligibleWorker));
    assert_eq!(map.record_dispatch(f, w1), Err(LoadError::AtCapacity));
    assert_eq!(map.record_completion(f, w1), Ok(()));
    assert_eq!(traffic_of(&map, "F", "W1"), 4);
}

#[test]
fn dispatches_less_completions_is_the_traffic() {
    let mut map = FunctionWorkerMap::new();
    let f = static_name_from_str("F");
    let g = static_name_from_str("G");
    let w1 = static_name_from_str("W1");
    let w2 = static_name_from_str("W2");
    map.insert_worker_config(f, config("F", "W1", 0, 100)).unwrap();
    map.insert_worker_config(f, config("F", "W2", 0, 100)).unwrap();
    map.insert_worker_config(g, config("G", "W1", 0, 100)).unwrap();
    for round in 0..60u32 {
        assert_eq!(map.record_dispatch(f, w1), Ok(()));
        assert_eq!(map.record_dispatch(g, w1), Ok(()));
        if round % 2 == 0 {
            assert_eq!(map.record_dispatch(f, w2), Ok(()));
        }
        if round % 3 == 0 {
            assert_eq!(map.record_completion(f, w1), Ok(()));
        }
        if round % 4 == 0 {
            assert_eq!(map.record_completion(g, w1), Ok(()));
        }
    }
    assert_eq!(traffic_of(&map, "F", "W1"), 60 - 20);
    assert_eq!(traffic_of(&map, "F", "W2"), 30);
    assert_eq!(traffic_of(&map, "G", "W1"), 60 - 15);
}

#[test]
fn ranking_agrees_with_sorting_after_many_changes() {
    let workers = ["a", "b", "c", "d", "e", "f", "g"];
    let f = static_name_from_str("F");
    let mut map = FunctionWorkerMap::new();
    // What the registry should hold, in order of first registration.
    let mut expected: Vec<FunctionWorkerConfig> = Vec::new();
    let mut state: u32 = 12345;
    for _ in 0..4000 {
        state = state.wrapping_mul(1664525).wrapping_add(1013904223);
        let worker = workers[((state >> 8) % 7) as usize];
        let uuid = static_name_from_str(worker);
        let at = expected.iter().position(|c| c.worker_uuid == uuid);
        match (state >> 24) % 5 {
            0 => {
                let max = (state >> 16) % 4 + 1;
                let c = config("F", worker, (state >> 20) % (max + 1), max);
                assert_eq!(map.insert_worker_config(f, c.copy()), Ok(()));
                match at {
                    Some(i) => expected[i] = c,
                    None => expected.push(c),
                }
            }
            1 => {
                assert_eq!(map.deregister(f, uuid), at.is_some());
                if let Some(i) = at {
                    expected.remove(i);
                }
            }
            2 | 3 => {
                let answer = map.record_dispatch(f, uuid);
                match at {
                    None => assert_eq!(answer, Err(LoadError::NotFound)),
                    Some(i) if expected[i].traffic >= expected[i].max_concurrency => {
                        assert_eq!(answer, Err(LoadError::AtCapacity))
                    }
                    Some(i) => {
                        assert_eq!(answer, Ok(()));
                        expected[i].traffic += 1;
                    }
                }
            }
            _ => {
                let answer = map.record_completion(f, uuid);
                match at {
                    None => assert_eq!(answer, Err(LoadError::NotFound)),
                    Some(i) if expected[i].traffic == 0 => {
                        assert_eq!(answer, Err(LoadError::Underflow))
                    }
                    Some(i) => {
                        assert_eq!(answer, Ok(()));
                        expected[i].traffic -= 1;
                    }
                }
            }
        }
        // A stable sort by spare capacity keeps equals in registration order.
        let mut sorted = expected.clone();
        sorted.sort_by(|x, y| {
            (y.max_concurrency - y.traffic).cmp(&(x.max_concurrency - x.traffic))
        });
        if sorted.is_empty() {
            assert_eq!(map.ranked_workers(f), None);
            assert_eq!(map.get_least_busy_worker(f), Err(SelectionError::UnknownFunction));
        } else {
            assert_eq!(map.ranked_workers(f), Some(sorted.clone()));
            if sorted[0].max_concurrency == sorted[0].traffic {
                assert_eq!(map.get_least_busy_worker(f), Err(SelectionError::NoEligibleWorker));
            } else {
                assert_eq!(map.get_least_busy_worker(f), Ok(sorted[0].copy()));
            }
        }
    }
}
