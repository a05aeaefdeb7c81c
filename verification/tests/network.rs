use pickup_delivery_problem::model::{Edge, Station};
use pickup_delivery_problem::network::{Network, NetworkError};

fn st(name: &str) -> Station {
    Station::new(name.to_string())
}

fn edge(name: &str, from: &str, to: &str, distance: u32) -> Edge {
    Edge::new(name.to_string(), st(from), st(to), distance)
}

fn line() -> Network {
    Network::build(
        vec![st("A"), st("B"), st("C")],
        &vec![edge("E1", "A", "B", 30), edge("E2", "B", "C", 10)],
    )
    .expect("a connected network")
}

#[test]
fn distances_follow_the_shortest_way() {
    let network = line();
    assert_eq!(network.distance(&st("A"), &st("B")), 30);
    assert_eq!(network.distance(&st("B"), &st("C")), 10);
    assert_eq!(network.distance(&st("A"), &st("C")), 40);
    assert_eq!(network.distance(&st("A"), &st("A")), 0);
    assert_eq!(network.longest(), 40);
}

#[test]
fn shortcut_beats_the_direct_edge() {
    let network = Network::build(
        vec![st("A"), st("B"), st("C")],
        &vec![edge("E1", "A", "B", 1), edge("E2", "B", "C", 2), edge("E3", "A", "C", 10)],
    )
    .expect("a connected network");
    assert_eq!(network.distance(&st("A"), &st("C")), 3);
    assert_eq!(network.distance(&st("C"), &st("A")), 3);
}

#[test]
fn distance_is_symmetric() {
    let network = line();
    let names = ["A", "B", "C"];
    for a in names {
        for b in names {
            assert_eq!(network.distance(&st(a), &st(b)), network.distance(&st(b), &st(a)));
        }
    }
}

#[test]
fn distance_obeys_the_triangle_inequality() {
    let network = Network::build(
        vec![st("A"), st("B"), st("C"), st("D")],
        &vec![
            edge("E1", "A", "B", 7),
            edge("E2", "B", "C", 2),
            edge("E3", "C", "D", 4),
            edge("E4", "A", "D", 20),
            edge("E5", "A", "C", 8),
        ],
    )
    .expect("a connected network");
    let names = ["A", "B", "C", "D"];
    for a in names {
        for b in names {
            for c in names {
                let direct = network.distance(&st(a), &st(c)) as u64;
                let around = network.distance(&st(a), &st(b)) as u64 + network.distance(&st(b), &st(c)) as u64;
                assert!(direct <= around);
            }
        }
    }
    assert_eq!(network.distance(&st("A"), &st("D")), 12);
}

#[test]
fn edge_to_an_unlisted_station_is_refused() {
    let built = Network::build(vec![st("A"), st("B")], &vec![edge("E1", "A", "Z", 3)]);
    assert_eq!(built.err(), Some(NetworkError::UnknownStation));
}

#[test]
fn unreachable_station_is_refused() {
    let built = Network::build(vec![st("A"), st("B"), st("C")], &vec![edge("E1", "A", "B", 3)]);
    assert_eq!(built.err(), Some(NetworkError::Disconnected));
}

#[test]
fn distances_that_overflow_are_refused() {
    let built = Network::build(
        vec![st("A"), st("B"), st("C")],
        &vec![edge("E1", "A", "B", 3_000_000_000), edge("E2", "B", "C", 3_000_000_000)],
    );
    assert_eq!(built.err(), Some(NetworkError::Disconnected));
}

#[test]
fn table_that_is_not_square_is_refused() {
    let built = Network::from_table(vec![st("A"), st("B")], vec![vec![0, 1], vec![1]]);
    assert_eq!(built.err(), Some(NetworkError::Inconsistent));
}

#[test]
fn table_that_is_not_symmetric_is_refused() {
    let built = Network::from_table(vec![st("A"), st("B")], vec![vec![0, 1], vec![2, 0]]);
    assert_eq!(built.err(), Some(NetworkError::Inconsistent));
}

#[test]
fn table_with_a_shortcut_is_refused() {
    let built = Network::from_table(
        vec![st("A"), st("B"), st("C")],
        vec![vec![0, 1, 5], vec![1, 0, 1], vec![5, 1, 0]],
    );
    assert_eq!(built.err(), Some(NetworkError::Inconsistent));
}

#[test]
fn table_with_an_unreachable_pair_is_refused() {
    let built = Network::from_table(vec![st("A"), st("B")], vec![vec![0, u32::MAX], vec![u32::MAX, 0]]);
    assert_eq!(built.err(), Some(NetworkError::Disconnected));
}

#[test]
fn good_table_is_accepted() {
    let network = Network::from_table(vec![st("A"), st("B")], vec![vec![0, 4], vec![4, 0]]).expect("a metric");
    assert_eq!(network.distance(&st("A"), &st("B")), 4);
    assert!(network.contains(&st("A")));
    assert!(!network.contains(&st("Z")));
}
