use shortest_paths::dijkstra::Dijkstra;
use shortest_paths::shortest_path_algo::{EdgeInfo, PathTrace, ShortestPathAlgo};

fn line(n: usize) -> Vec<EdgeInfo<u128>> {
    let mut edges = Vec::new();
    for i in 1..n {
        edges.push(EdgeInfo { u: i - 1, v: i, w: i as u128 });
    }
    edges
}

#[test]
fn a_new_engine_keeps_nothing() {
    let dijkstra = Dijkstra::new(6, &line(6), 1000, 3);
    assert_eq!(dijkstra.cached_count(), 0);
    for s in 0..8 {
        assert_eq!(dijkstra.usage_count(s), 0);
    }
}

#[test]
fn a_search_is_kept_and_serves_again() {
    let mut dijkstra = Dijkstra::new(6, &line(6), 1000, 3);
    assert_eq!(dijkstra.find(1, 5, false).unwrap().dist, 14);
    assert_eq!(dijkstra.cached_count(), 1);
    assert_eq!(dijkstra.usage_count(1), 1);
    assert_eq!(dijkstra.find(1, 3, true), Some(PathTrace { dist: 5, path: Some(vec![1, 2, 3]) }));
    assert_eq!(dijkstra.cached_count(), 1);
    assert_eq!(dijkstra.usage_count(1), 2);
}

#[test]
fn the_result_of_the_target_serves_backwards() {
    let mut dijkstra = Dijkstra::new(6, &line(6), 1000, 3);
    assert_eq!(dijkstra.find(0, 4, false).unwrap().dist, 10);
    assert_eq!(dijkstra.find(3, 0, true), Some(PathTrace { dist: 6, path: Some(vec![3, 2, 1, 0]) }));
    assert_eq!(dijkstra.cached_count(), 1);
    assert_eq!(dijkstra.usage_count(0), 2);
    assert_eq!(dijkstra.usage_count(3), 0);
}

#[test]
fn an_unreachable_target_is_answered_from_the_kept_result() {
    let edges = vec![EdgeInfo { u: 0, v: 1, w: 1u128 }];
    let mut dijkstra = Dijkstra::new(3, &edges, 1000, 2);
    assert_eq!(dijkstra.find(0, 2, true), None);
    assert_eq!(dijkstra.cached_count(), 1);
    assert_eq!(dijkstra.usage_count(0), 1);
    assert_eq!(dijkstra.find(0, 2, true), None);
    assert_eq!(dijkstra.usage_count(0), 2);
    assert_eq!(dijkstra.cached_count(), 1);
}

#[test]
fn no_more_results_are_kept_than_the_capacity() {
    for capacity in 0..5 {
        let mut dijkstra = Dijkstra::new(8, &line(8), 1000, capacity);
        for s in 0..=capacity {
            assert_eq!(dijkstra.find(s, 7, false).unwrap().dist, (s + 1..8).sum::<usize>() as u128);
            assert!(dijkstra.cached_count() <= capacity);
        }
        assert_eq!(dijkstra.cached_count(), capacity);
    }
}

#[test]
fn the_least_used_result_gives_way() {
    let mut dijkstra = Dijkstra::new(8, &line(8), 1000, 3);
    dijkstra.find(0, 7, false);
    dijkstra.find(0, 6, false);
    dijkstra.find(0, 5, false);
    dijkstra.find(1, 7, false);
    dijkstra.find(2, 7, false);
    dijkstra.find(2, 6, false);
    assert_eq!(
        [dijkstra.usage_count(0), dijkstra.usage_count(1), dijkstra.usage_count(2)],
        [3, 1, 2]
    );
    dijkstra.find(3, 7, false);
    assert_eq!(dijkstra.cached_count(), 3);
    assert_eq!(
        [
            dijkstra.usage_count(0),
            dijkstra.usage_count(1),
            dijkstra.usage_count(2),
            dijkstra.usage_count(3)
        ],
        [3, 0, 2, 1]
    );
    dijkstra.find(4, 7, false);
    assert_eq!(
        [
            dijkstra.usage_count(0),
            dijkstra.usage_count(2),
            dijkstra.usage_count(3),
            dijkstra.usage_count(4)
        ],
        [3, 2, 0, 1]
    );
    assert_eq!(dijkstra.find(1, 7, true).unwrap().dist, 27);
    assert_eq!(dijkstra.cached_count(), 3);
    assert_eq!(dijkstra.usage_count(4), 0);
    assert_eq!(dijkstra.usage_count(1), 1);
}

#[test]
fn without_capacity_every_query_searches() {
    let mut dijkstra = Dijkstra::new(4, &line(4), 1000, 0);
    for _ in 0..3 {
        assert_eq!(dijkstra.find(0, 3, true), Some(PathTrace { dist: 6, path: Some(vec![0, 1, 2, 3]) }));
        assert_eq!(dijkstra.cached_count(), 0);
        assert_eq!(dijkstra.usage_count(0), 0);
    }
}

#[test]
fn adding_edges_drops_every_kept_result() {
    let mut dijkstra = Dijkstra::new(6, &line(6), 1000, 3);
    dijkstra.find(0, 5, false);
    dijkstra.find(1, 5, false);
    assert_eq!(dijkstra.cached_count(), 2);
    dijkstra.add_edges(&vec![EdgeInfo { u: 0, v: 5, w: 1u128 }]);
    assert_eq!(dijkstra.cached_count(), 0);
    assert_eq!(dijkstra.usage_count(0), 0);
    assert_eq!(dijkstra.usage_count(1), 0);
    assert_eq!(dijkstra.find(0, 5, true), Some(PathTrace { dist: 1, path: Some(vec![0, 5]) }));
    assert_eq!(dijkstra.find(1, 5, true), Some(PathTrace { dist: 2, path: Some(vec![1, 0, 5]) }));
    assert_eq!(dijkstra.cached_count(), 2);
    dijkstra.add_edges(&vec![]);
    assert_eq!(dijkstra.cached_count(), 0);
}

#[test]
fn an_evicted_source_is_searched_again_after_an_update() {
    let mut dijkstra = Dijkstra::new(5, &line(5), 1000, 1);
    assert_eq!(dijkstra.find(0, 4, false).unwrap().dist, 10);
    assert_eq!(dijkstra.find(1, 3, false).unwrap().dist, 5);
    assert_eq!(dijkstra.usage_count(0), 0);
    dijkstra.add_edges(&vec![EdgeInfo { u: 0, v: 4, w: 2u128 }]);
    assert_eq!(dijkstra.find(0, 4, false).unwrap().dist, 2);
    assert_eq!(dijkstra.find(1, 3, false).unwrap().dist, 5);
    assert_eq!(dijkstra.find(1, 4, true), Some(PathTrace { dist: 3, path: Some(vec![1, 0, 4]) }));
}
