use shortest_paths::dijkstra::Dijkstra;
use shortest_paths::record::{filled, reversed_path, trace_path};
use shortest_paths::shortest_path_algo::{EdgeWeight, ZeroWeight};

#[test]
fn links_are_followed_back_to_the_source() {
    let trace = vec![None, Some(0), Some(1), Some(1)];
    assert_eq!(trace_path(0, 2, &trace), Some(vec![0, 1, 2]));
    assert_eq!(trace_path(0, 3, &trace), Some(vec![0, 1, 3]));
    assert_eq!(trace_path(0, 1, &trace), Some(vec![0, 1]));
    assert_eq!(trace_path(1, 3, &trace), Some(vec![1, 3]));
    assert_eq!(Dijkstra::<u128>::get_trace_path(0, 2, &trace), Some(vec![0, 1, 2]));
}

#[test]
fn the_source_is_its_own_path() {
    let trace = vec![None, Some(0)];
    assert_eq!(trace_path(0, 0, &trace), Some(vec![0]));
    assert_eq!(trace_path(1, 1, &trace), Some(vec![1]));
    assert_eq!(trace_path(9, 9, &trace), Some(vec![9]));
    assert_eq!(trace_path(0, 0, &[]), Some(vec![0]));
}

#[test]
fn links_that_miss_the_source_give_no_path() {
    let broken = vec![None, None, Some(1)];
    assert_eq!(trace_path(0, 2, &broken), None);
    assert_eq!(trace_path(0, 1, &broken), None);
    assert_eq!(Dijkstra::<u128>::get_trace_path(0, 2, &broken), None);
    let elsewhere = vec![None, Some(0), Some(1)];
    assert_eq!(trace_path(2, 1, &elsewhere), None);
}

#[test]
fn links_in_a_circle_give_no_path() {
    let circle = vec![None, Some(2), Some(1)];
    assert_eq!(trace_path(0, 2, &circle), None);
    let to_itself = vec![None, Some(1)];
    assert_eq!(trace_path(0, 1, &to_itself), None);
}

#[test]
fn links_out_of_range_give_no_path() {
    let trace = vec![None, Some(7)];
    assert_eq!(trace_path(0, 1, &trace), None);
    assert_eq!(trace_path(0, 5, &trace), None);
    assert_eq!(trace_path(0, 1, &[]), None);
}

#[test]
fn the_longest_chain_is_followed_to_its_end() {
    let trace = vec![None, Some(0), Some(1), Some(2), Some(3)];
    assert_eq!(trace_path(0, 4, &trace), Some(vec![0, 1, 2, 3, 4]));
}

#[test]
fn paths_are_turned_round() {
    assert_eq!(reversed_path(&vec![3, 1, 2]), vec![2, 1, 3]);
    assert_eq!(reversed_path(&vec![4]), vec![4]);
    assert_eq!(reversed_path(&vec![]), Vec::<usize>::new());
}

#[test]
fn vectors_are_filled() {
    assert_eq!(filled(7u128, 3), vec![7, 7, 7]);
    assert_eq!(filled(Some(2usize), 2), vec![Some(2), Some(2)]);
    assert_eq!(filled(1u8, 0), Vec::<u8>::new());
}

#[test]
fn machine_integers_are_weights() {
    assert_eq!(<u128 as ZeroWeight>::zero(), 0);
    assert_eq!(5u128.magnitude(), 5);
    assert_eq!(u128::MAX.magnitude(), u128::MAX);
    assert_eq!(3u128.capped_sum(&4, &10), 7);
    assert_eq!(3u128.capped_sum(&4, &8), 7);
    assert_eq!(3u128.capped_sum(&4, &7), 7);
    assert_eq!(3u128.capped_sum(&4, &5), 5);
    assert_eq!(0u128.capped_sum(&0, &0), 0);
    assert_eq!(u128::MAX.capped_sum(&1, &9), 9);
    assert_eq!(u128::MAX.capped_sum(&u128::MAX, &u128::MAX), u128::MAX);
    assert_eq!((u128::MAX - 1).capped_sum(&1, &u128::MAX), u128::MAX);
    assert_eq!((u128::MAX - 2).capped_sum(&1, &u128::MAX), u128::MAX - 1);
}
