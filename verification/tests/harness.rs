use pickup_delivery_problem::model::{Edge, Order, Station, Train};
use pickup_delivery_problem::network::Network;
use pickup_delivery_problem::output::{Move, Output};
use pickup_delivery_problem::solver::{AlgorithmKind, Solver, SorterKind};
use pickup_delivery_problem::Input;

fn st(name: &str) -> Station {
    Station::new(name.to_string())
}

fn order(name: &str, weight: u32, from: &str, to: &str) -> Order {
    Order::new(name.to_string(), weight, st(from), st(to))
}

fn train(name: &str, capacity: u32, at: &str) -> Train {
    Train::new(name.to_string(), capacity, st(at))
}

fn line() -> Network {
    Network::build(
        vec![st("A"), st("B"), st("C")],
        &vec![
            Edge::new("E1".to_string(), st("A"), st("B"), 30),
            Edge::new("E2".to_string(), st("B"), st("C"), 10),
        ],
    )
    .expect("a connected network")
}

fn algorithms() -> Vec<AlgorithmKind> {
    vec![AlgorithmKind::SingleOrder, AlgorithmKind::Distribution, AlgorithmKind::Collection]
}

fn sorters() -> Vec<SorterKind> {
    vec![
        SorterKind::Unsorted,
        SorterKind::WeightAsc,
        SorterKind::WeightDesc,
        SorterKind::NameAsc,
        SorterKind::NameDesc,
        SorterKind::DistanceAsc,
        SorterKind::DistanceDesc,
        SorterKind::Random,
    ]
}

#[test]
fn every_algorithm_runs_on_every_ordering() {
    let network = line();
    let solver = Solver::new(algorithms(), sorters(), &network);
    let results = solver.solve(vec![order("K1", 5, "A", "C")], vec![train("Q1", 6, "B")]);
    assert_eq!(results.len(), 7 + 100 + 2);
    assert!(results.iter().all(|r| r.solution.total_time() == 70));
    assert_eq!(results.iter().filter(|r| r.order_sorter.is_none()).count(), 2);
    assert_eq!(results.iter().filter(|r| r.order_sorter == Some(SorterKind::Random)).count(), 100);
    assert!(results
        .iter()
        .all(|r| r.order_sorter.is_some() == (r.algorithm == AlgorithmKind::SingleOrder)));
}

#[test]
fn results_come_smallest_total_time_first() {
    let network = line();
    let orders = vec![order("K1", 5, "A", "C"), order("K2", 5, "C", "A"), order("K3", 1, "B", "A")];
    let trains = vec![train("Q1", 6, "B"), train("Q2", 6, "C")];
    let solver = Solver::new(algorithms(), sorters(), &network);
    let results = solver.solve(orders.clone(), trains.clone());
    assert!(results.windows(2).all(|w| w[0].solution.total_time() <= w[1].solution.total_time()));
    let best = solver.best(orders, trains).expect("a plan");
    assert_eq!(best.total_time(), results[0].solution.total_time());
}

#[test]
fn failed_runs_are_kept_with_the_largest_total_time() {
    let network = line();
    let solver = Solver::new(algorithms(), vec![SorterKind::Unsorted], &network);
    let orders = vec![order("K1", 20, "A", "C")];
    let trains = vec![train("Q1", 6, "B")];
    let results = solver.solve(orders.clone(), trains.clone());
    assert_eq!(results.len(), 3);
    for r in &results {
        assert_eq!(r.solution.total_time(), u32::MAX);
        assert!(r.solution.moves.is_empty());
    }
    assert_eq!(solver.best(orders, trains), None);
}

#[test]
fn runs_with_equal_total_time_keep_their_order() {
    let network = line();
    let solver = Solver::new(algorithms(), vec![SorterKind::Unsorted, SorterKind::NameAsc], &network);
    let results = solver.solve(vec![order("K1", 5, "A", "C")], vec![train("Q1", 6, "B")]);
    let who: Vec<(AlgorithmKind, Option<SorterKind>)> = results.iter().map(|r| (r.algorithm, r.order_sorter)).collect();
    assert_eq!(
        who,
        vec![
            (AlgorithmKind::SingleOrder, Some(SorterKind::Unsorted)),
            (AlgorithmKind::SingleOrder, Some(SorterKind::NameAsc)),
            (AlgorithmKind::Distribution, None),
            (AlgorithmKind::Collection, None),
        ]
    );
}

#[test]
fn nothing_to_run_gives_no_plan() {
    let network = line();
    let solver = Solver::new(Vec::new(), sorters(), &network);
    assert!(solver.solve(vec![order("K1", 5, "A", "C")], vec![train("Q1", 6, "B")]).is_empty());
    assert_eq!(solver.best(vec![order("K1", 5, "A", "C")], vec![train("Q1", 6, "B")]), None);
}

#[test]
fn best_plan_of_the_simple_input() {
    let input = Input::new(
        vec![st("A"), st("B"), st("C")],
        vec![
            Edge::new("E1".to_string(), st("A"), st("B"), 30),
            Edge::new("E2".to_string(), st("B"), st("C"), 10),
        ],
        vec![order("K1", 5, "A", "C")],
        vec![train("Q1", 6, "B")],
    );
    let network = Network::build(input.stations().clone(), input.edges()).expect("a connected network");
    let solver = Solver::new(algorithms(), sorters(), &network);
    let best = solver.best(input.orders().clone(), input.trains().clone()).expect("a plan");
    assert_eq!(best.total_time(), 70);
    assert_eq!(
        best.moves,
        vec![
            Move::new(0, "Q1".to_string(), "B".to_string(), vec![], "A".to_string(), vec![]),
            Move::new(30, "Q1".to_string(), "A".to_string(), vec!["K1".to_string()], "C".to_string(), vec!["K1".to_string()]),
        ]
    );
}

#[test]
fn plan_is_lined_up_by_time_and_by_train() {
    let leg = |time: u32, train: &str| {
        Move::new(time, train.to_string(), "A".to_string(), vec![], "B".to_string(), vec![])
    };
    let plan = Output::new(vec![leg(30, "Q2"), leg(0, "Q2"), leg(30, "Q1"), leg(10, "Q10")], 70);
    let by_time = plan.sort_by_time();
    assert_eq!(by_time.moves, vec![leg(0, "Q2"), leg(10, "Q10"), leg(30, "Q2"), leg(30, "Q1")]);
    assert_eq!(by_time.total_time(), 70);
    let by_train = plan.sort_by_train();
    assert_eq!(by_train.moves, vec![leg(30, "Q1"), leg(10, "Q10"), leg(30, "Q2"), leg(0, "Q2")]);
    assert_eq!(by_train.total_time(), 70);
}

fn simple_input(weight: u32, train_at: &str) -> Input {
    Input::new(
        vec![st("A"), st("B"), st("C")],
        vec![
            Edge::new("E1".to_string(), st("A"), st("B"), 30),
            Edge::new("E2".to_string(), st("B"), st("C"), 10),
        ],
        vec![order("K1", weight, "A", "C")],
        vec![train("Q1", 6, train_at)],
    )
}

#[test]
fn simple_input_is_solved() {
    let plan = pickup_delivery_problem::solve(&simple_input(5, "B")).expect("a plan");
    assert_eq!(plan.total_time(), 70);
    assert_eq!(plan.moves.len(), 2);
}

#[test]
fn input_with_an_order_too_heavy_has_no_plan() {
    assert_eq!(
        pickup_delivery_problem::solve(&simple_input(20, "B")).err(),
        Some(pickup_delivery_problem::PlanError::NoPlan)
    );
}

#[test]
fn input_with_a_train_nowhere_is_not_ready() {
    assert_eq!(
        pickup_delivery_problem::solve(&simple_input(5, "Z")).err(),
        Some(pickup_delivery_problem::PlanError::NotReady)
    );
}

#[test]
fn input_with_a_split_network_has_no_index() {
    let input = Input::new(
        vec![st("A"), st("B"), st("C")],
        vec![Edge::new("E1".to_string(), st("A"), st("B"), 30)],
        vec![order("K1", 5, "A", "B")],
        vec![train("Q1", 6, "B")],
    );
    assert_eq!(
        pickup_delivery_problem::solve(&input).err(),
        Some(pickup_delivery_problem::PlanError::Network(
            pickup_delivery_problem::NetworkError::Disconnected
        ))
    );
}

#[test]
fn every_run_says_how_long_it_took() {
    let network = line();
    let solver = Solver::new(algorithms(), vec![SorterKind::Unsorted], &network);
    let results = solver.solve(vec![order("K1", 5, "A", "C")], vec![train("Q1", 6, "B")]);
    assert_eq!(results.len(), 3);
    assert!(results.iter().all(|r| r.elapsed.as_secs() < 3600));
}

#[test]
fn searching_twice_gives_the_same_plans() {
    let network = line();
    let orders = vec![order("K1", 5, "A", "C"), order("K2", 5, "C", "A"), order("K3", 1, "B", "A")];
    let trains = vec![train("Q1", 6, "B"), train("Q2", 6, "C")];
    let repeatable = vec![
        SorterKind::Unsorted,
        SorterKind::WeightAsc,
        SorterKind::WeightDesc,
        SorterKind::NameAsc,
        SorterKind::NameDesc,
        SorterKind::DistanceAsc,
        SorterKind::DistanceDesc,
    ];
    let solver = Solver::new(algorithms(), repeatable, &network);
    let once = solver.solve(orders.clone(), trains.clone());
    let twice = solver.solve(orders, trains);
    assert_eq!(once.len(), twice.len());
    for (a, b) in once.iter().zip(twice.iter()) {
        assert_eq!(a.algorithm, b.algorithm);
        assert_eq!(a.order_sorter, b.order_sorter);
        assert_eq!(a.solution, b.solution);
    }
}
