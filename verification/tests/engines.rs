use shortest_paths::dijkstra::Dijkstra;
use shortest_paths::floyd_warshall::FloydWarshall;
use shortest_paths::shortest_path_algo::{EdgeInfo, PathTrace, ShortestPathAlgo};

#[test]
fn test_all() {
    // 1 2 3
    // 2 3 1
    // 1 3 5
    let max_node_id = 3;
    let edges = vec![
        EdgeInfo { u: 0, v: 1, w: 3 },
        EdgeInfo { u: 1, v: 2, w: 1 },
        EdgeInfo { u: 0, v: 2, w: 5 },
    ];
    let additional_edges = vec![EdgeInfo { u: 0, v: 2, w: 3 }];

    let case_1 = Some(PathTrace {
        dist: 4,
        path: Some(vec![0, 1, 2]),
    });
    let case_2 = Some(PathTrace {
        dist: 3,
        path: Some(vec![0, 2]),
    });

    let mut floyd = FloydWarshall::new(max_node_id, &edges, u128::MAX / 2).unwrap();
    let mut dijkstra = Dijkstra::new(max_node_id, &edges, u128::MAX / 2, max_node_id);

    assert_eq!(floyd.find(0, 2, true), case_1);
    assert_eq!(dijkstra.find(0, 2, true), case_1);

    floyd.add_edges(&additional_edges);
    dijkstra.add_edges(&additional_edges);

    assert_eq!(floyd.find(0, 2, true), case_2);
    assert_eq!(dijkstra.find(0, 2, true), case_2);
}

fn sample_edges() -> Vec<EdgeInfo<u128>> {
    vec![
        EdgeInfo { u: 0, v: 1, w: 7 },
        EdgeInfo { u: 0, v: 2, w: 9 },
        EdgeInfo { u: 0, v: 5, w: 14 },
        EdgeInfo { u: 1, v: 2, w: 10 },
        EdgeInfo { u: 1, v: 3, w: 15 },
        EdgeInfo { u: 2, v: 3, w: 11 },
        EdgeInfo { u: 2, v: 5, w: 2 },
        EdgeInfo { u: 3, v: 4, w: 6 },
        EdgeInfo { u: 4, v: 5, w: 9 },
    ]
}

fn lightest_link(edges: &Vec<EdgeInfo<u128>>, a: usize, b: usize) -> Option<u128> {
    let mut best: Option<u128> = None;
    for e in edges {
        if (e.u == a && e.v == b) || (e.u == b && e.v == a) {
            best = match best {
                Some(w) if w <= e.w => Some(w),
                _ => Some(e.w),
            };
        }
    }
    best
}

fn path_cost(edges: &Vec<EdgeInfo<u128>>, path: &Vec<usize>) -> Option<u128> {
    let mut total: u128 = 0;
    for i in 1..path.len() {
        total += lightest_link(edges, path[i - 1], path[i])?;
    }
    Some(total)
}

#[test]
fn scenario_three_nodes() {
    let edges = vec![
        EdgeInfo { u: 0, v: 1, w: 3u128 },
        EdgeInfo { u: 1, v: 2, w: 1 },
        EdgeInfo { u: 0, v: 2, w: 5 },
    ];
    let mut floyd = FloydWarshall::new(3, &edges, 1000).unwrap();
    let mut dijkstra = Dijkstra::new(3, &edges, 1000, 2);
    let first = Some(PathTrace { dist: 4, path: Some(vec![0, 1, 2]) });
    assert_eq!(floyd.find(0, 2, true), first);
    assert_eq!(dijkstra.find(0, 2, true), first);
    let more = vec![EdgeInfo { u: 0, v: 2, w: 3u128 }];
    floyd.add_edges(&more);
    dijkstra.add_edges(&more);
    let second = Some(PathTrace { dist: 3, path: Some(vec![0, 2]) });
    assert_eq!(floyd.find(0, 2, true), second);
    assert_eq!(dijkstra.find(0, 2, true), second);
}

#[test]
fn known_distances() {
    let edges = sample_edges();
    let mut floyd = FloydWarshall::new(6, &edges, 1_000_000).unwrap();
    let mut dijkstra = Dijkstra::new(6, &edges, 1_000_000, 3);
    let expected: [u128; 6] = [0, 7, 9, 20, 20, 11];
    for t in 0..6 {
        assert_eq!(floyd.find(0, t, false), Some(PathTrace { dist: expected[t], path: None }));
        assert_eq!(dijkstra.find(0, t, false), Some(PathTrace { dist: expected[t], path: None }));
    }
    assert_eq!(
        dijkstra.find(0, 4, true),
        Some(PathTrace { dist: 20, path: Some(vec![0, 2, 5, 4]) })
    );
    assert_eq!(
        floyd.find(0, 4, true),
        Some(PathTrace { dist: 20, path: Some(vec![0, 2, 5, 4]) })
    );
}

#[test]
fn engines_agree_on_every_pair() {
    let edges = sample_edges();
    let mut floyd = FloydWarshall::new(7, &edges, 1_000_000).unwrap();
    let mut dijkstra = Dijkstra::new(7, &edges, 1_000_000, 2);
    for s in 0..7 {
        for t in 0..7 {
            let a = floyd.find(s, t, true);
            let b = dijkstra.find(s, t, true);
            match (a, b) {
                (None, None) => assert!(s == 6 || t == 6),
                (Some(x), Some(y)) => {
                    assert_eq!(x.dist, y.dist);
                    let p = x.path.unwrap();
                    let q = y.path.unwrap();
                    assert_eq!(path_cost(&edges, &p), Some(x.dist));
                    assert_eq!(path_cost(&edges, &q), Some(y.dist));
                }
                _ => panic!("one engine found a path and the other none"),
            }
        }
    }
}

#[test]
fn returned_paths_are_valid() {
    let edges = sample_edges();
    let mut floyd = FloydWarshall::new(6, &edges, 1_000_000).unwrap();
    let mut dijkstra = Dijkstra::new(6, &edges, 1_000_000, 6);
    for s in 0..6 {
        for t in 0..6 {
            for found in [floyd.find(s, t, true), dijkstra.find(s, t, true)] {
                let found = found.unwrap();
                let path = found.path.unwrap();
                assert_eq!(path[0], s);
                assert_eq!(path[path.len() - 1], t);
                for i in 1..path.len() {
                    assert!(lightest_link(&edges, path[i - 1], path[i]).is_some());
                }
                assert_eq!(path_cost(&edges, &path), Some(found.dist));
            }
        }
    }
}

#[test]
fn path_only_on_request() {
    let edges = sample_edges();
    let mut floyd = FloydWarshall::new(6, &edges, 1_000_000).unwrap();
    let mut dijkstra = Dijkstra::new(6, &edges, 1_000_000, 6);
    assert_eq!(floyd.find(1, 5, false), Some(PathTrace { dist: 12, path: None }));
    assert_eq!(dijkstra.find(1, 5, false), Some(PathTrace { dist: 12, path: None }));
    assert_eq!(dijkstra.find(1, 5, true), Some(PathTrace { dist: 12, path: Some(vec![1, 2, 5]) }));
    assert_eq!(floyd.find(1, 5, true), Some(PathTrace { dist: 12, path: Some(vec![1, 2, 5]) }));
}

#[test]
fn unconnected_nodes_have_no_answer() {
    let edges = vec![EdgeInfo { u: 0, v: 1, w: 4u128 }, EdgeInfo { u: 2, v: 3, w: 1 }];
    let mut floyd = FloydWarshall::new(5, &edges, u128::MAX / 2).unwrap();
    let mut dijkstra = Dijkstra::new(5, &edges, u128::MAX / 2, 2);
    for (s, t) in [(0, 2), (0, 3), (1, 3), (4, 0), (0, 4), (3, 1)] {
        assert_eq!(floyd.find(s, t, true), None);
        assert_eq!(dijkstra.find(s, t, true), None);
        assert_eq!(dijkstra.find(s, t, false), None);
    }
    assert_eq!(floyd.find(2, 3, false), Some(PathTrace { dist: 1, path: None }));
    assert_eq!(dijkstra.find(2, 3, false), Some(PathTrace { dist: 1, path: None }));
}

#[test]
fn a_node_reaches_itself_at_no_cost() {
    let edges = vec![EdgeInfo { u: 0, v: 1, w: 4u128 }];
    let mut floyd = FloydWarshall::new(3, &edges, 100).unwrap();
    let mut dijkstra = Dijkstra::new(3, &edges, 100, 2);
    let here = Some(PathTrace { dist: 0, path: Some(vec![2]) });
    assert_eq!(floyd.find(2, 2, true), here);
    assert_eq!(dijkstra.find(2, 2, true), here);
    assert_eq!(dijkstra.find(2, 2, true), here);
}

#[test]
fn distances_are_symmetric() {
    let edges = sample_edges();
    let mut floyd = FloydWarshall::new(6, &edges, 1_000_000).unwrap();
    for s in 0..6 {
        for t in 0..6 {
            let mut dijkstra = Dijkstra::new(6, &edges, 1_000_000, 0);
            let forth = dijkstra.find(s, t, false).unwrap().dist;
            let back = dijkstra.find(t, s, false).unwrap().dist;
            assert_eq!(forth, back);
            assert_eq!(floyd.find(s, t, false).unwrap().dist, floyd.find(t, s, false).unwrap().dist);
        }
    }
}

#[test]
fn update_is_seen_by_the_next_query() {
    let edges = sample_edges();
    let mut floyd = FloydWarshall::new(6, &edges, 1_000_000).unwrap();
    let mut dijkstra = Dijkstra::new(6, &edges, 1_000_000, 4);
    assert_eq!(dijkstra.find(0, 4, false).unwrap().dist, 20);
    assert_eq!(dijkstra.find(4, 0, false).unwrap().dist, 20);
    assert_eq!(floyd.find(0, 4, false).unwrap().dist, 20);
    let more = vec![EdgeInfo { u: 0, v: 3, w: 1u128 }, EdgeInfo { u: 1, v: 4, w: 30 }];
    floyd.add_edges(&more);
    dijkstra.add_edges(&more);
    let fresh = Some(PathTrace { dist: 7, path: Some(vec![0, 3, 4]) });
    assert_eq!(dijkstra.find(0, 4, true), fresh);
    assert_eq!(floyd.find(0, 4, true), fresh);
    assert_eq!(dijkstra.find(4, 0, true), Some(PathTrace { dist: 7, path: Some(vec![4, 3, 0]) }));
    assert_eq!(floyd.find(4, 0, true), Some(PathTrace { dist: 7, path: Some(vec![4, 3, 0]) }));
    assert_eq!(dijkstra.find(5, 3, false).unwrap().dist, 12);
    assert_eq!(floyd.find(5, 3, false).unwrap().dist, 12);
}

#[test]
fn edge_that_improves_nothing_changes_nothing() {
    let edges = sample_edges();
    let mut floyd = FloydWarshall::new(6, &edges, 1_000_000).unwrap();
    let mut before = Vec::new();
    for s in 0..6 {
        for t in 0..6 {
            before.push(floyd.find(s, t, true));
        }
    }
    floyd.add_edges(&vec![
        EdgeInfo { u: 0, v: 4, w: 20u128 },
        EdgeInfo { u: 3, v: 3, w: 5 },
        EdgeInfo { u: 5, v: 2, w: 2 },
        EdgeInfo { u: 1, v: 5, w: 400 },
    ]);
    let mut after = Vec::new();
    for s in 0..6 {
        for t in 0..6 {
            after.push(floyd.find(s, t, true));
        }
    }
    assert_eq!(before, after);
}

#[test]
fn lightest_of_parallel_edges_counts() {
    let heavy_last = vec![EdgeInfo { u: 0, v: 1, w: 3u128 }, EdgeInfo { u: 1, v: 0, w: 5 }];
    let heavy_first = vec![EdgeInfo { u: 0, v: 1, w: 5u128 }, EdgeInfo { u: 1, v: 0, w: 3 }];
    for edges in [heavy_last, heavy_first] {
        let mut floyd = FloydWarshall::new(2, &edges, 100).unwrap();
        let mut dijkstra = Dijkstra::new(2, &edges, 100, 1);
        assert_eq!(floyd.find(0, 1, false).unwrap().dist, 3);
        assert_eq!(dijkstra.find(0, 1, false).unwrap().dist, 3);
        assert_eq!(floyd.find(1, 0, false).unwrap().dist, 3);
    }
}

#[test]
fn loops_and_free_edges_do_no_harm() {
    let edges = vec![
        EdgeInfo { u: 0, v: 0, w: 9u128 },
        EdgeInfo { u: 0, v: 1, w: 0 },
        EdgeInfo { u: 1, v: 2, w: 0 },
        EdgeInfo { u: 2, v: 0, w: 0 },
        EdgeInfo { u: 2, v: 3, w: 4 },
    ];
    let mut floyd = FloydWarshall::new(4, &edges, 50).unwrap();
    let mut dijkstra = Dijkstra::new(4, &edges, 50, 4);
    for s in 0..4 {
        for t in 0..4 {
            let a = floyd.find(s, t, true).unwrap();
            let b = dijkstra.find(s, t, true).unwrap();
            let expected: u128 = if s == t || (s < 3 && t < 3) { 0 } else { 4 };
            assert_eq!(a.dist, expected);
            assert_eq!(b.dist, expected);
            assert_eq!(path_cost(&edges, &a.path.unwrap()), Some(expected));
            assert_eq!(path_cost(&edges, &b.path.unwrap()), Some(expected));
        }
    }
}

#[test]
fn cost_at_or_above_the_sentinel_is_no_path() {
    let edges = vec![
        EdgeInfo { u: 0, v: 1, w: 3u128 },
        EdgeInfo { u: 1, v: 2, w: 3 },
        EdgeInfo { u: 2, v: 3, w: 7 },
    ];
    let mut floyd = FloydWarshall::new(4, &edges, 6).unwrap();
    let mut dijkstra = Dijkstra::new(4, &edges, 6, 4);
    assert_eq!(floyd.find(0, 1, false).unwrap().dist, 3);
    assert_eq!(dijkstra.find(0, 1, false).unwrap().dist, 3);
    assert_eq!(floyd.find(0, 2, false), None);
    assert_eq!(dijkstra.find(0, 2, false), None);
    assert_eq!(floyd.find(2, 3, false), None);
    assert_eq!(dijkstra.find(2, 3, false), None);
    assert_eq!(dijkstra.find(3, 2, false), None);
}

#[test]
fn sums_beyond_the_machine_range_are_no_path() {
    let big = u128::MAX - 1;
    let edges = vec![EdgeInfo { u: 0, v: 1, w: big }, EdgeInfo { u: 1, v: 2, w: big }];
    let mut floyd = FloydWarshall::new(3, &edges, u128::MAX).unwrap();
    let mut dijkstra = Dijkstra::new(3, &edges, u128::MAX, 3);
    assert_eq!(floyd.find(0, 1, false).unwrap().dist, big);
    assert_eq!(dijkstra.find(0, 1, false).unwrap().dist, big);
    assert_eq!(floyd.find(0, 2, true), None);
    assert_eq!(dijkstra.find(0, 2, true), None);
}

#[test]
fn a_sentinel_of_zero_finds_nothing() {
    let edges = vec![EdgeInfo { u: 0, v: 1, w: 0u128 }];
    let mut floyd = FloydWarshall::new(2, &edges, 0).unwrap();
    let mut dijkstra = Dijkstra::new(2, &edges, 0, 1);
    assert_eq!(floyd.find(0, 0, true), None);
    assert_eq!(dijkstra.find(0, 0, true), None);
    assert_eq!(floyd.find(0, 1, true), None);
    assert_eq!(dijkstra.find(0, 1, true), None);
}

#[test]
fn engines_have_names() {
    assert_eq!(<Dijkstra<u128> as ShortestPathAlgo<u128>>::NAME, "Dijkstra");
    assert_eq!(<FloydWarshall<u128> as ShortestPathAlgo<u128>>::NAME, "Floyd-Warshall");
}
