use shortest_paths::errors::Error;
use shortest_paths::floyd_warshall::{FloydWarshall, MAX_NODE_ID};
use shortest_paths::shortest_path_algo::{EdgeInfo, PathTrace, ShortestPathAlgo};

#[test]
fn too_many_nodes_are_refused() {
    let edges: Vec<EdgeInfo<u128>> = vec![];
    assert_eq!(MAX_NODE_ID, 500);
    assert!(matches!(FloydWarshall::new(501, &edges, 10u128), Err(Error::GraphTooLarge)));
    assert!(matches!(FloydWarshall::new(usize::MAX, &edges, 10u128), Err(Error::GraphTooLarge)));
    assert!(FloydWarshall::new(500, &edges, 10u128).is_ok());
    assert!(FloydWarshall::new(0, &edges, 10u128).is_ok());
}

#[test]
fn too_many_nodes_are_refused_whatever_the_edges() {
    let edges = vec![EdgeInfo { u: 700, v: 900, w: 1u128 }];
    assert_eq!(FloydWarshall::new(1000, &edges, 10u128).err(), Some(Error::GraphTooLarge));
}

#[test]
fn fresh_predecessors_are_the_sources() {
    let trace = FloydWarshall::<u128>::init_trace(3);
    assert_eq!(
        trace,
        vec![
            vec![Some(0), Some(0), Some(0)],
            vec![Some(1), Some(1), Some(1)],
            vec![Some(2), Some(2), Some(2)],
        ]
    );
    assert_eq!(FloydWarshall::<u128>::init_trace(0), Vec::<Vec<Option<usize>>>::new());
}

#[test]
fn fresh_distances_are_the_lightest_edges() {
    let edges = vec![
        EdgeInfo { u: 0, v: 1, w: 3u128 },
        EdgeInfo { u: 1, v: 0, w: 2 },
        EdgeInfo { u: 0, v: 1, w: 4 },
        EdgeInfo { u: 1, v: 2, w: 9 },
        EdgeInfo { u: 2, v: 2, w: 1 },
        EdgeInfo { u: 2, v: 3, w: 12 },
    ];
    let dist = FloydWarshall::<u128>::init_dist(4, &edges, 9);
    assert_eq!(
        dist,
        vec![vec![0, 2, 9, 9], vec![2, 0, 9, 9], vec![9, 9, 0, 9], vec![9, 9, 9, 0]]
    );
    let wide = FloydWarshall::<u128>::init_dist(4, &edges, 100);
    assert_eq!(
        wide,
        vec![vec![0, 2, 100, 100], vec![2, 0, 9, 100], vec![100, 9, 0, 12], vec![100, 100, 12, 0]]
    );
}

#[test]
fn relaxation_goes_through_every_node() {
    let edges = vec![
        EdgeInfo { u: 0, v: 4, w: 1u128 },
        EdgeInfo { u: 4, v: 1, w: 1 },
        EdgeInfo { u: 1, v: 3, w: 1 },
        EdgeInfo { u: 3, v: 2, w: 1 },
        EdgeInfo { u: 0, v: 2, w: 10 },
    ];
    let mut floyd = FloydWarshall::new(5, &edges, 1000).unwrap();
    assert_eq!(floyd.find(0, 2, true), Some(PathTrace { dist: 4, path: Some(vec![0, 4, 1, 3, 2]) }));
    assert_eq!(floyd.find(2, 0, true), Some(PathTrace { dist: 4, path: Some(vec![2, 3, 1, 4, 0]) }));
    assert_eq!(floyd.find(4, 3, true), Some(PathTrace { dist: 2, path: Some(vec![4, 1, 3]) }));
}

#[test]
fn added_edges_join_what_was_apart() {
    let edges = vec![EdgeInfo { u: 0, v: 1, w: 2u128 }, EdgeInfo { u: 2, v: 3, w: 5 }];
    let mut floyd = FloydWarshall::new(4, &edges, 1000).unwrap();
    assert_eq!(floyd.find(0, 3, true), None);
    floyd.add_edges(&vec![EdgeInfo { u: 2, v: 1, w: 1u128 }]);
    assert_eq!(floyd.find(0, 3, true), Some(PathTrace { dist: 8, path: Some(vec![0, 1, 2, 3]) }));
    floyd.add_edges(&vec![]);
    assert_eq!(floyd.find(3, 0, true), Some(PathTrace { dist: 8, path: Some(vec![3, 2, 1, 0]) }));
    floyd.add_edges(&vec![EdgeInfo { u: 3, v: 0, w: 8u128 }]);
    assert_eq!(floyd.find(0, 3, false), Some(PathTrace { dist: 8, path: None }));
    floyd.add_edges(&vec![EdgeInfo { u: 3, v: 0, w: 7u128 }]);
    assert_eq!(floyd.find(0, 3, true), Some(PathTrace { dist: 7, path: Some(vec![0, 3]) }));
}
