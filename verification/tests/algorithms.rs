use pickup_delivery_problem::model::{Edge, Order, Station, Train};
use pickup_delivery_problem::network::Network;
use pickup_delivery_problem::output::{Move, Output};
use pickup_delivery_problem::solver::algorithms::nearest_train_order_collection::deliver_order_by_nearest_train_multiload_collection;
use pickup_delivery_problem::solver::algorithms::nearest_train_order_distribution::deliver_order_by_nearest_train_multiload_distribution;
use pickup_delivery_problem::solver::algorithms::nearest_train_single_order::deliver_with_nearest_train;
use pickup_delivery_problem::solver::algorithms::{is_ready, is_stuck};
use pickup_delivery_problem::solver::{
    Algorithm, NearestTrainOrderCollectionAlgorithm, NearestTrainOrderDistributionAlgorithm,
    NearestTrainSingleOrderAlgorithm, SolveError,
};

fn st(name: &str) -> Station {
    Station::new(name.to_string())
}

fn edge(name: &str, from: &str, to: &str, distance: u32) -> Edge {
    Edge::new(name.to_string(), st(from), st(to), distance)
}

fn order(name: &str, weight: u32, from: &str, to: &str) -> Order {
    Order::new(name.to_string(), weight, st(from), st(to))
}

fn train(name: &str, capacity: u32, at: &str) -> Train {
    Train::new(name.to_string(), capacity, st(at))
}

fn leg(time: u32, train: &str, from: &str, load: &[&str], to: &str, unload: &[&str]) -> Move {
    Move::new(
        time,
        train.to_string(),
        from.to_string(),
        load.iter().map(|s| s.to_string()).collect(),
        to.to_string(),
        unload.iter().map(|s| s.to_string()).collect(),
    )
}

fn line() -> Network {
    Network::build(
        vec![st("A"), st("B"), st("C")],
        &vec![edge("E1", "A", "B", 30), edge("E2", "B", "C", 10)],
    )
    .expect("a connected network")
}

fn ring() -> Network {
    Network::build(
        vec![st("N0"), st("N1"), st("N2"), st("N3"), st("N4")],
        &vec![
            edge("E0", "N0", "N1", 4),
            edge("E1", "N1", "N2", 3),
            edge("E2", "N2", "N3", 5),
            edge("E3", "N3", "N4", 2),
            edge("E4", "N4", "N0", 6),
            edge("E5", "N0", "N2", 1),
        ],
    )
    .expect("a connected network")
}

fn busy_orders() -> Vec<Order> {
    vec![
        order("K0", 3, "N0", "N1"),
        order("K1", 4, "N0", "N2"),
        order("K2", 5, "N3", "N4"),
        order("K3", 2, "N1", "N4"),
        order("K4", 6, "N2", "N0"),
        order("K5", 1, "N4", "N4"),
        order("K6", 2, "N3", "N0"),
    ]
}

fn busy_trains() -> Vec<Train> {
    vec![train("T0", 6, "N0"), train("T1", 9, "N3"), train("T2", 4, "N2")]
}

fn capacity_of(trains: &[Train], name: &str) -> u32 {
    trains.iter().find(|t| t.name() == name).expect("a train of the fleet").capacity()
}

fn weight_of(orders: &[Order], name: &str) -> u32 {
    orders.iter().find(|o| o.name() == name).expect("an order of the input").weight()
}

fn check_plan(network: &Network, orders: &[Order], trains: &[Train], plan: &Output) {
    // No leg takes more on board than its train has room for.
    for m in &plan.moves {
        let load: u32 = m.load.iter().map(|n| weight_of(orders, n)).sum();
        assert!(load <= capacity_of(trains, &m.train));
    }
    // Every order that has to travel is set down exactly once.
    let mut unloaded: Vec<String> = plan.moves.iter().flat_map(|m| m.unload.clone()).collect();
    unloaded.sort();
    let mut due: Vec<String> =
        orders.iter().filter(|o| !o.is_delivered()).map(|o| o.name().to_string()).collect();
    due.sort();
    assert_eq!(unloaded, due);
    // Every order is taken on board exactly once, before it is set down.
    let mut loaded: Vec<String> = plan.moves.iter().flat_map(|m| m.load.clone()).collect();
    loaded.sort();
    assert_eq!(loaded, due);
    // The legs of one train follow one another, and each starts when the last ended.
    for t in trains {
        let mut at = t.location().name().to_string();
        let mut clock = t.traveled_time();
        for m in plan.moves.iter().filter(|m| m.train == t.name()) {
            assert_eq!(m.from, at);
            assert_eq!(m.time, clock);
            assert_ne!(m.from, m.to);
            clock += network.distance(&st(&m.from), &st(&m.to));
            at = m.to.clone();
        }
    }
    // Orders are taken on board where they wait and set down where they have to go.
    for m in &plan.moves {
        for n in &m.load {
            let o = orders.iter().find(|o| o.name() == n).unwrap();
            assert_eq!(o.location().name(), m.from);
        }
        for n in &m.unload {
            let o = orders.iter().find(|o| o.name() == n).unwrap();
            assert_eq!(o.destination().name(), m.to);
        }
    }
    // The total time is the latest moment at which a train comes to rest.
    let latest = plan
        .moves
        .iter()
        .map(|m| m.time + network.distance(&st(&m.from), &st(&m.to)))
        .chain(trains.iter().map(|t| t.traveled_time()))
        .max()
        .unwrap();
    assert_eq!(plan.total_time(), latest);
}

#[test]
fn single_order_end_to_end() {
    let network = line();
    let plan = deliver_with_nearest_train(&network, vec![train("Q1", 6, "B")], vec![order("K1", 5, "A", "C")])
        .expect("a plan");
    assert_eq!(
        plan.moves,
        vec![leg(0, "Q1", "B", &[], "A", &[]), leg(30, "Q1", "A", &["K1"], "C", &["K1"])]
    );
    assert_eq!(plan.total_time(), 70);
}

#[test]
fn distribution_end_to_end() {
    let network = line();
    let plan = deliver_order_by_nearest_train_multiload_distribution(
        &network,
        vec![train("Q1", 6, "B")],
        vec![order("K1", 5, "A", "C")],
    )
    .expect("a plan");
    assert_eq!(
        plan.moves,
        vec![leg(0, "Q1", "B", &[], "A", &[]), leg(30, "Q1", "A", &["K1"], "C", &["K1"])]
    );
    assert_eq!(plan.total_time(), 70);
}

#[test]
fn collection_end_to_end() {
    let network = line();
    let plan = deliver_order_by_nearest_train_multiload_collection(
        &network,
        vec![train("Q1", 6, "B")],
        vec![order("K1", 5, "A", "C")],
    )
    .expect("a plan");
    assert_eq!(
        plan.moves,
        vec![leg(0, "Q1", "B", &[], "A", &[]), leg(30, "Q1", "A", &["K1"], "C", &["K1"])]
    );
    assert_eq!(plan.total_time(), 70);
}

#[test]
fn order_too_heavy_for_every_train_fails() {
    let network = line();
    let orders = vec![order("K1", 20, "A", "C")];
    let trains = vec![train("Q1", 6, "B"), train("Q2", 4, "A")];
    assert!(is_stuck(&orders, &trains));
    assert_eq!(
        deliver_with_nearest_train(&network, trains.clone(), orders.clone()).err(),
        Some(SolveError::NoCapacity)
    );
    assert_eq!(
        deliver_order_by_nearest_train_multiload_distribution(&network, trains.clone(), orders.clone()).err(),
        Some(SolveError::NoProgress)
    );
    assert_eq!(
        deliver_order_by_nearest_train_multiload_collection(&network, trains, orders).err(),
        Some(SolveError::NoProgress)
    );
}

#[test]
fn one_order_too_heavy_fails_after_the_others_went() {
    let network = ring();
    let orders = vec![order("K0", 3, "N0", "N1"), order("K1", 30, "N0", "N2")];
    let trains = vec![train("T0", 10, "N0")];
    assert!(is_stuck(&orders, &trains));
    assert_eq!(
        deliver_order_by_nearest_train_multiload_distribution(&network, trains.clone(), orders.clone()).err(),
        Some(SolveError::NoProgress)
    );
    assert_eq!(
        deliver_order_by_nearest_train_multiload_collection(&network, trains.clone(), orders.clone()).err(),
        Some(SolveError::NoProgress)
    );
    assert_eq!(deliver_with_nearest_train(&network, trains, orders).err(), Some(SolveError::NoCapacity));
}

#[test]
fn delivered_orders_are_left_alone() {
    let network = line();
    let orders = vec![order("K1", 50, "A", "A")];
    let trains = vec![train("Q1", 6, "B")];
    assert!(!is_stuck(&orders, &trains));
    for plan in [
        deliver_with_nearest_train(&network, trains.clone(), orders.clone()),
        deliver_order_by_nearest_train_multiload_distribution(&network, trains.clone(), orders.clone()),
        deliver_order_by_nearest_train_multiload_collection(&network, trains.clone(), orders.clone()),
    ] {
        let plan = plan.expect("a plan");
        assert!(plan.moves.is_empty());
        assert_eq!(plan.total_time(), 0);
    }
}

#[test]
fn train_at_the_pickup_station_does_not_reposition() {
    let network = line();
    let plan = deliver_with_nearest_train(&network, vec![train("Q1", 6, "A")], vec![order("K1", 5, "A", "B")])
        .expect("a plan");
    assert_eq!(plan.moves, vec![leg(0, "Q1", "A", &["K1"], "B", &["K1"])]);
    assert_eq!(plan.total_time(), 30);
}

#[test]
fn single_order_takes_orders_in_turn() {
    let network = ring();
    let orders = vec![order("K0", 3, "N0", "N1"), order("K1", 4, "N0", "N2"), order("K2", 5, "N0", "N3")];
    let trains = vec![train("T0", 10, "N0")];
    let plan = deliver_with_nearest_train(&network, trains.clone(), orders.clone()).expect("a plan");
    assert_eq!(
        plan.moves,
        vec![
            leg(0, "T0", "N0", &["K0"], "N1", &["K0"]),
            leg(4, "T0", "N1", &[], "N0", &[]),
            leg(8, "T0", "N0", &["K1"], "N2", &["K1"]),
            leg(9, "T0", "N2", &[], "N0", &[]),
            leg(10, "T0", "N0", &["K2"], "N3", &["K2"]),
        ]
    );
    assert_eq!(plan.total_time(), 16);
    check_plan(&network, &orders, &trains, &plan);
}

#[test]
fn distribution_leaves_the_heaviest_for_the_next_pass() {
    let network = ring();
    let orders = vec![order("K0", 3, "N0", "N1"), order("K1", 4, "N0", "N2"), order("K2", 5, "N0", "N3")];
    let trains = vec![train("T0", 10, "N0")];
    let plan = deliver_order_by_nearest_train_multiload_distribution(&network, trains.clone(), orders.clone())
        .expect("a plan");
    assert_eq!(
        plan.moves,
        vec![
            leg(0, "T0", "N0", &["K1", "K0"], "N2", &["K1"]),
            leg(1, "T0", "N2", &[], "N1", &["K0"]),
            leg(4, "T0", "N1", &[], "N0", &[]),
            leg(8, "T0", "N0", &["K2"], "N3", &["K2"]),
        ]
    );
    assert_eq!(plan.total_time(), 14);
    check_plan(&network, &orders, &trains, &plan);
}

#[test]
fn collection_picks_up_on_the_way() {
    let network = ring();
    let orders = vec![order("K0", 3, "N1", "N0"), order("K1", 4, "N2", "N0")];
    let trains = vec![train("T0", 10, "N3")];
    let plan = deliver_order_by_nearest_train_multiload_collection(&network, trains.clone(), orders.clone())
        .expect("a plan");
    assert_eq!(
        plan.moves,
        vec![
            leg(0, "T0", "N3", &[], "N1", &[]),
            leg(8, "T0", "N1", &["K0"], "N2", &[]),
            leg(11, "T0", "N2", &["K1"], "N0", &["K1", "K0"]),
        ]
    );
    assert_eq!(plan.total_time(), 12);
    check_plan(&network, &orders, &trains, &plan);
}

#[test]
fn orders_with_one_destination_are_set_down_together() {
    let network = ring();
    let orders = vec![order("K0", 3, "N0", "N3"), order("K1", 4, "N0", "N3"), order("K2", 1, "N0", "N1")];
    let trains = vec![train("T0", 10, "N0")];
    let plan = deliver_order_by_nearest_train_multiload_distribution(&network, trains.clone(), orders.clone())
        .expect("a plan");
    check_plan(&network, &orders, &trains, &plan);
    assert_eq!(plan.moves.len(), 2);
}

#[test]
fn orders_at_one_station_are_picked_up_together() {
    let network = ring();
    let orders = vec![order("K0", 3, "N1", "N3"), order("K1", 4, "N1", "N3"), order("K2", 1, "N2", "N3")];
    let trains = vec![train("T0", 10, "N0")];
    let plan = deliver_order_by_nearest_train_multiload_collection(&network, trains.clone(), orders.clone())
        .expect("a plan");
    check_plan(&network, &orders, &trains, &plan);
}

#[test]
fn plans_are_sound_on_a_busy_network() {
    let network = ring();
    let orders = busy_orders();
    let trains = busy_trains();
    assert!(is_ready(&network, &orders, &trains));
    let single = NearestTrainSingleOrderAlgorithm.solve(orders.clone(), trains.clone(), &network).expect("a plan");
    check_plan(&network, &orders, &trains, &single);
    let distribution =
        NearestTrainOrderDistributionAlgorithm.solve(orders.clone(), trains.clone(), &network).expect("a plan");
    check_plan(&network, &orders, &trains, &distribution);
    let collection =
        NearestTrainOrderCollectionAlgorithm.solve(orders.clone(), trains.clone(), &network).expect("a plan");
    check_plan(&network, &orders, &trains, &collection);
}

#[test]
fn same_input_gives_the_same_plan() {
    let network = ring();
    let orders = busy_orders();
    let trains = busy_trains();
    assert_eq!(
        deliver_with_nearest_train(&network, trains.clone(), orders.clone()).ok(),
        deliver_with_nearest_train(&network, trains.clone(), orders.clone()).ok()
    );
    assert_eq!(
        deliver_order_by_nearest_train_multiload_distribution(&network, trains.clone(), orders.clone()).ok(),
        deliver_order_by_nearest_train_multiload_distribution(&network, trains.clone(), orders.clone()).ok()
    );
    assert_eq!(
        deliver_order_by_nearest_train_multiload_collection(&network, trains.clone(), orders.clone()).ok(),
        deliver_order_by_nearest_train_multiload_collection(&network, trains.clone(), orders.clone()).ok()
    );
}

#[test]
fn train_that_never_moves_adds_nothing_to_the_total_time() {
    let network = line();
    let trains = vec![train("Q1", 6, "A"), train("Q2", 6, "C")];
    let plan = deliver_with_nearest_train(&network, trains, vec![order("K1", 5, "A", "B")]).expect("a plan");
    assert!(plan.moves.iter().all(|m| m.train == "Q1"));
    assert_eq!(plan.total_time(), 30);
}

#[test]
fn sort_sensitivity_of_the_algorithms() {
    assert!(NearestTrainSingleOrderAlgorithm.sort_sensitive());
    assert!(!NearestTrainOrderDistributionAlgorithm.sort_sensitive());
    assert!(!NearestTrainOrderCollectionAlgorithm.sort_sensitive());
}

#[test]
fn readiness_is_checked() {
    let network = line();
    let orders = vec![order("K1", 5, "A", "C")];
    assert!(is_ready(&network, &orders, &vec![train("Q1", 6, "B")]));
    assert!(!is_ready(&network, &orders, &Vec::new()));
    assert!(!is_ready(&network, &orders, &vec![train("Q1", 6, "Z")]));
    assert!(!is_ready(&network, &vec![order("K1", 5, "A", "Z")], &vec![train("Q1", 6, "B")]));
    let late = train("Q1", 6, "B").move_to(&st("B"), u32::MAX - 79);
    assert!(!is_ready(&network, &orders, &vec![late]));
    let in_time = train("Q1", 6, "B").move_to(&st("B"), u32::MAX - 80);
    assert!(is_ready(&network, &orders, &vec![in_time]));
}

fn triangle() -> Network {
    Network::build(
        vec![st("A"), st("B"), st("C")],
        &vec![edge("E1", "A", "B", 10), edge("E2", "B", "C", 10), edge("E3", "A", "C", 10)],
    )
    .expect("a connected network")
}

#[test]
fn distribution_carries_the_lighter_order_first_when_both_do_not_fit() {
    let network = triangle();
    let orders = vec![order("K1", 5, "A", "C"), order("K2", 3, "A", "C")];
    let trains = vec![train("Q1", 6, "A")];
    let plan = deliver_order_by_nearest_train_multiload_distribution(&network, trains.clone(), orders.clone())
        .expect("a plan");
    assert_eq!(
        plan.moves,
        vec![
            leg(0, "Q1", "A", &["K2"], "C", &["K2"]),
            leg(10, "Q1", "C", &[], "A", &[]),
            leg(20, "Q1", "A", &["K1"], "C", &["K1"]),
        ]
    );
    assert_eq!(plan.total_time(), 30);
    check_plan(&network, &orders, &trains, &plan);
}

#[test]
fn collection_carries_the_lighter_order_first_when_both_do_not_fit() {
    let network = triangle();
    let orders = vec![order("K1", 5, "A", "C"), order("K2", 3, "A", "C")];
    let trains = vec![train("Q1", 6, "A")];
    let plan = deliver_order_by_nearest_train_multiload_collection(&network, trains.clone(), orders.clone())
        .expect("a plan");
    assert_eq!(
        plan.moves,
        vec![
            leg(0, "Q1", "A", &["K2"], "C", &["K2"]),
            leg(10, "Q1", "C", &[], "A", &[]),
            leg(20, "Q1", "A", &["K1"], "C", &["K1"]),
        ]
    );
    assert_eq!(plan.total_time(), 30);
    check_plan(&network, &orders, &trains, &plan);
}

#[test]
fn single_order_leaves_out_the_order_at_its_destination() {
    let network = line();
    let orders = vec![order("K1", 5, "A", "C"), order("K2", 1, "B", "B")];
    let trains = vec![train("Q1", 6, "A")];
    let plan = NearestTrainSingleOrderAlgorithm.solve(orders.clone(), trains.clone(), &network).expect("a plan");
    assert_eq!(plan.moves, vec![leg(0, "Q1", "A", &["K1"], "C", &["K1"])]);
    assert_eq!(plan.total_time(), 40);
}

#[test]
fn empty_legs_only_fetch_a_train() {
    let network = ring();
    let orders = busy_orders();
    let trains = busy_trains();
    for plan in [
        deliver_with_nearest_train(&network, trains.clone(), orders.clone()),
        deliver_order_by_nearest_train_multiload_distribution(&network, trains.clone(), orders.clone()),
        deliver_order_by_nearest_train_multiload_collection(&network, trains.clone(), orders.clone()),
    ] {
        let plan = plan.expect("a plan");
        for m in plan.moves.iter().filter(|m| m.load.is_empty() && m.unload.is_empty()) {
            assert!(orders.iter().any(|o| !o.is_delivered() && o.location().name() == m.to));
        }
    }
}
