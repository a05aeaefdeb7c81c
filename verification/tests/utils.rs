use pickup_delivery_problem::model::{Edge, Order, Station, Train};
use pickup_delivery_problem::network::Network;
use pickup_delivery_problem::solver::utils::{
    calculate_best_route_for_collection, calculate_best_route_for_distribution, find_nearest_train,
    group_orders_by_destination, group_orders_by_location, route_length,
};

fn st(name: &str) -> Station {
    Station::new(name.to_string())
}

fn edge(name: &str, from: &str, to: &str, distance: u32) -> Edge {
    Edge::new(name.to_string(), st(from), st(to), distance)
}

fn order(name: &str, weight: u32, from: &str, to: &str) -> Order {
    Order::new(name.to_string(), weight, st(from), st(to))
}

fn train(name: &str, capacity: u32, at: &str) -> Train {
    Train::new(name.to_string(), capacity, st(at))
}

fn ring() -> Network {
    Network::build(
        vec![st("N0"), st("N1"), st("N2"), st("N3"), st("N4")],
        &vec![
            edge("E0", "N0", "N1", 4),
            edge("E1", "N1", "N2", 3),
            edge("E2", "N2", "N3", 5),
            edge("E3", "N3", "N4", 2),
            edge("E4", "N4", "N0", 6),
            edge("E5", "N0", "N2", 1),
        ],
    )
    .expect("a connected network")
}

fn walk(network: &Network, start: &Station, stops: &[Station]) -> u32 {
    let mut at = start.clone();
    let mut total = 0;
    for stop in stops {
        total += network.distance(&at, stop);
        at = stop.clone();
    }
    total
}

fn permutations(items: &[Station]) -> Vec<Vec<Station>> {
    if items.len() <= 1 {
        return vec![items.to_vec()];
    }
    let mut all = Vec::new();
    for i in 0..items.len() {
        let mut rest = items.to_vec();
        let head = rest.remove(i);
        for mut tail in permutations(&rest) {
            tail.insert(0, head.clone());
            all.push(tail);
        }
    }
    all
}

#[test]
fn nearest_train_is_the_one_that_arrives_first() {
    let network = ring();
    let trains = vec![train("T0", 5, "N3"), train("T1", 5, "N1"), train("T2", 5, "N4")];
    assert_eq!(find_nearest_train(&network, &trains, &st("N0"), 3), Some((1, 4)));
}

#[test]
fn nearest_train_counts_the_time_already_traveled() {
    let network = ring();
    let near = train("T0", 5, "N2").move_to(&st("N2"), 10);
    let trains = vec![near, train("T1", 5, "N1")];
    assert_eq!(find_nearest_train(&network, &trains, &st("N0"), 3), Some((1, 4)));
}

#[test]
fn nearest_train_needs_the_capacity() {
    let network = ring();
    let trains = vec![train("T0", 2, "N0"), train("T1", 9, "N4")];
    assert_eq!(find_nearest_train(&network, &trains, &st("N0"), 3), Some((1, 6)));
    assert_eq!(find_nearest_train(&network, &trains, &st("N0"), 10), None);
    assert_eq!(find_nearest_train(&network, &Vec::new(), &st("N0"), 1), None);
}

#[test]
fn nearest_train_takes_the_first_of_a_tie() {
    let network = ring();
    let trains = vec![train("T0", 5, "N3"), train("T1", 5, "N1"), train("T2", 5, "N1")];
    assert_eq!(find_nearest_train(&network, &trains, &st("N0"), 3), Some((1, 4)));
}

#[test]
fn route_length_adds_every_leg() {
    let network = ring();
    let stops = vec![st("N1"), st("N2"), st("N3")];
    assert_eq!(route_length(&network, &st("N0"), &stops, &vec![0, 1, 2]), 4 + 3 + 5);
    assert_eq!(route_length(&network, &st("N0"), &stops, &vec![1, 0, 2]), 1 + 3 + 8);
    assert_eq!(route_length(&network, &st("N0"), &stops, &vec![]), 0);
}

#[test]
fn best_distribution_route_is_the_shortest() {
    let network = ring();
    let stops = vec![st("N3"), st("N1"), st("N2")];
    let (route, length) = calculate_best_route_for_distribution(&network, &st("N0"), &stops);
    assert_eq!(length, 12);
    assert_eq!(route, vec![st("N1"), st("N2"), st("N3")]);
    assert_eq!(walk(&network, &st("N0"), &route), length);
}

#[test]
fn best_distribution_route_matches_brute_force() {
    let network = ring();
    let stops = vec![st("N4"), st("N1"), st("N3"), st("N2"), st("N1"), st("N0")];
    let (route, length) = calculate_best_route_for_distribution(&network, &st("N2"), &stops);
    let least = permutations(&stops).iter().map(|p| walk(&network, &st("N2"), p)).min().unwrap();
    assert_eq!(length, least);
    assert_eq!(walk(&network, &st("N2"), &route), least);
    let mut sorted_route = route.clone();
    sorted_route.sort();
    let mut sorted_stops = stops.clone();
    sorted_stops.sort();
    assert_eq!(sorted_route, sorted_stops);
}

#[test]
fn best_distribution_route_does_not_depend_on_the_order_of_the_stops() {
    let network = ring();
    let stops = vec![st("N4"), st("N1"), st("N3"), st("N2")];
    let (_, length) = calculate_best_route_for_distribution(&network, &st("N0"), &stops);
    for p in permutations(&stops) {
        let (_, other) = calculate_best_route_for_distribution(&network, &st("N0"), &p);
        assert_eq!(other, length);
    }
}

#[test]
fn best_distribution_route_of_nothing_is_empty() {
    let network = ring();
    let (route, length) = calculate_best_route_for_distribution(&network, &st("N0"), &Vec::new());
    assert!(route.is_empty());
    assert_eq!(length, 0);
}

#[test]
fn best_distribution_route_takes_the_first_of_a_tie() {
    let network = Network::build(
        vec![st("A"), st("B"), st("C")],
        &vec![edge("E1", "A", "B", 5), edge("E2", "A", "C", 5), edge("E3", "B", "C", 5)],
    )
    .expect("a connected network");
    let (route, length) = calculate_best_route_for_distribution(&network, &st("A"), &vec![st("B"), st("C")]);
    assert_eq!(length, 10);
    assert_eq!(route, vec![st("B"), st("C")]);
}

#[test]
fn best_collection_route_ends_next_to_the_destination() {
    let network = ring();
    let stops = vec![st("N3"), st("N1"), st("N2")];
    let (route, length) = calculate_best_route_for_collection(&network, &stops, &st("N0"));
    assert_eq!(length, 12);
    assert_eq!(route, vec![st("N3"), st("N2"), st("N1")]);
    let mut way = route.clone();
    way.push(st("N0"));
    assert_eq!(walk(&network, &way[0], &way[1..]), length);
}

#[test]
fn orders_are_grouped_by_location() {
    let orders = vec![
        order("K0", 2, "N0", "N1"),
        order("K1", 4, "N1", "N2"),
        order("K2", 3, "N0", "N3"),
        order("K3", 1, "N2", "N3"),
    ];
    let groups = group_orders_by_location(&orders);
    assert_eq!(groups.len(), 3);
    assert_eq!(groups[0], (st("N0"), 5, vec![orders[0].clone(), orders[2].clone()]));
    assert_eq!(groups[1], (st("N1"), 4, vec![orders[1].clone()]));
    assert_eq!(groups[2], (st("N2"), 1, vec![orders[3].clone()]));
}

#[test]
fn orders_are_grouped_by_destination() {
    let orders = vec![
        order("K0", 2, "N0", "N1"),
        order("K1", 4, "N1", "N2"),
        order("K2", 3, "N0", "N3"),
        order("K3", 1, "N2", "N3"),
    ];
    let groups = group_orders_by_destination(&orders);
    assert_eq!(groups.len(), 3);
    assert_eq!(groups[0], (st("N3"), 4, vec![orders[2].clone(), orders[3].clone()]));
    assert_eq!(groups[1], (st("N2"), 4, vec![orders[1].clone()]));
    assert_eq!(groups[2], (st("N1"), 2, vec![orders[0].clone()]));
}

#[test]
fn no_orders_make_no_groups() {
    assert!(group_orders_by_location(&Vec::new()).is_empty());
    assert!(group_orders_by_destination(&Vec::new()).is_empty());
}

#[test]
fn test_calculate_best_route_for_distribution() {
    let network = ring();
    let orders = vec![
        order("K0", 1, "N0", "N3"),
        order("K1", 1, "N1", "N4"),
        order("K2", 1, "N0", "N1"),
        order("K3", 1, "N2", "N0"),
        order("K4", 1, "N1", "N2"),
    ];

    let result: Vec<(Station, Vec<Station>, u32)> = group_orders_by_location(&orders)
        .iter()
        .filter(|(_, _, group)| group.len() > 1)
        .map(|(start, _, group)| {
            let destinations: Vec<Station> = group.iter().map(|o| o.destination()).collect();
            let (route, distance) = calculate_best_route_for_distribution(&network, start, &destinations);
            (start.clone(), route, distance)
        })
        .collect();

    assert_eq!(result.len(), 2);
    assert_eq!(result[0], (st("N1"), vec![st("N2"), st("N4")], 10));
    assert_eq!(result[1], (st("N0"), vec![st("N1"), st("N3")], 12));
}

#[test]
fn test_calculate_best_route_for_collection() {
    let network = ring();
    let orders = vec![
        order("K0", 1, "N4", "N0"),
        order("K1", 1, "N0", "N1"),
        order("K2", 1, "N2", "N0"),
        order("K3", 1, "N3", "N4"),
        order("K4", 1, "N2", "N1"),
    ];

    let result: Vec<(Station, Vec<Station>, u32)> = group_orders_by_destination(&orders)
        .iter()
        .filter(|(_, _, group)| group.len() > 1)
        .map(|(destination, _, group)| {
            let pickup: Vec<Station> = group.iter().map(|o| o.location()).collect();
            let (route, distance) = calculate_best_route_for_collection(&network, &pickup, destination);
            (destination.clone(), route, distance)
        })
        .collect();

    assert_eq!(result.len(), 2);
    assert_eq!(result[0], (st("N1"), vec![st("N0"), st("N2")], 4));
    assert_eq!(result[1], (st("N0"), vec![st("N4"), st("N2")], 8));
}

#[test]
fn groups_of_one_weight_come_by_station_name_last_first() {
    let orders = vec![order("K0", 1, "X", "A"), order("K1", 1, "Y", "A")];
    let groups = group_orders_by_location(&orders);
    assert_eq!(groups.len(), 2);
    assert_eq!(groups[0].0, st("Y"));
    assert_eq!(groups[1].0, st("X"));
}
