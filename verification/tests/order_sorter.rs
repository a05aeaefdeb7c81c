use pickup_delivery_problem::model::{Edge, Order, Station};
use pickup_delivery_problem::network::Network;
use pickup_delivery_problem::solver::order_sorter::{reversed_orders, sort_by_key, SortKey};
use pickup_delivery_problem::solver::{
    DoNotSortOrders, OrderSorter, SortOrdersByDistanceAsc, SortOrdersByDistanceDesc, SortOrdersByNameAsc,
    SortOrdersByNameDesc, SortOrdersByWeightAsc, SortOrdersByWeightDesc, SortOrdersRandomly,
};

fn st(name: &str) -> Station {
    Station::new(name.to_string())
}

fn order(name: &str, weight: u32, from: &str, to: &str) -> Order {
    Order::new(name.to_string(), weight, st(from), st(to))
}

fn names(orders: &[Order]) -> Vec<String> {
    orders.iter().map(|o| o.name().to_string()).collect()
}

fn mixed() -> Vec<Order> {
    vec![
        order("b", 3, "A", "C"),
        order("a", 1, "A", "B"),
        order("d", 3, "B", "C"),
        order("c", 2, "C", "A"),
        order("B", 1, "B", "A"),
    ]
}

fn line() -> Network {
    Network::build(
        vec![st("A"), st("B"), st("C")],
        &vec![
            Edge::new("E1".to_string(), st("A"), st("B"), 30),
            Edge::new("E2".to_string(), st("B"), st("C"), 10),
        ],
    )
    .expect("a connected network")
}

#[test]
fn test_random_sorter() {
    let orders: [Order; 5] = [
        ("a", 1, "b", "c").into(),
        ("b", 2, "c", "d").into(),
        ("c", 3, "d", "e").into(),
        ("d", 4, "e", "f").into(),
        ("e", 5, "f", "g").into(),
    ];

    // It is highly unlikely that the same order will be returned twice.
    assert!(orders != SortOrdersRandomly.sort(&orders.to_vec()).as_slice());
}

#[test]
fn random_sorter_keeps_the_orders() {
    let orders = mixed();
    for _ in 0..20 {
        let shuffled = SortOrdersRandomly.sort(&orders);
        let mut got = names(&shuffled);
        got.sort();
        let mut want = names(&orders);
        want.sort();
        assert_eq!(got, want);
    }
    assert!(!SortOrdersRandomly.stable());
}

#[test]
fn by_weight_lightest_first_keeps_ties_in_order() {
    assert_eq!(names(&SortOrdersByWeightAsc.sort(&mixed())), ["a", "B", "c", "b", "d"]);
    assert!(SortOrdersByWeightAsc.stable());
}

#[test]
fn by_weight_heaviest_first_is_the_reverse() {
    assert_eq!(names(&SortOrdersByWeightDesc.sort(&mixed())), ["d", "b", "c", "B", "a"]);
    assert!(SortOrdersByWeightDesc.stable());
}

#[test]
fn by_name_goes_by_bytes() {
    assert_eq!(names(&SortOrdersByNameAsc.sort(&mixed())), ["B", "a", "b", "c", "d"]);
    assert_eq!(names(&SortOrdersByNameDesc.sort(&mixed())), ["d", "c", "b", "a", "B"]);
    assert!(SortOrdersByNameAsc.stable());
    assert!(SortOrdersByNameDesc.stable());
}

#[test]
fn by_name_puts_a_prefix_first() {
    let orders = vec![order("K10", 1, "A", "B"), order("K1", 1, "A", "B"), order("K", 1, "A", "B")];
    assert_eq!(names(&SortOrdersByNameAsc.sort(&orders)), ["K", "K1", "K10"]);
}

#[test]
fn by_distance_uses_the_network() {
    let network = line();
    // b: 40, a: 30, d: 10, c: 40, B: 30
    assert_eq!(names(&SortOrdersByDistanceAsc::new(&network).sort(&mixed())), ["d", "a", "B", "b", "c"]);
    assert_eq!(names(&SortOrdersByDistanceDesc::new(&network).sort(&mixed())), ["c", "b", "B", "a", "d"]);
    assert!(SortOrdersByDistanceAsc::new(&network).stable());
    assert!(SortOrdersByDistanceDesc::new(&network).stable());
}

#[test]
fn unsorted_keeps_the_order() {
    assert_eq!(DoNotSortOrders.sort(&mixed()), mixed());
    assert!(DoNotSortOrders.stable());
}

#[test]
fn sorting_nothing_gives_nothing() {
    assert!(SortOrdersByWeightAsc.sort(&Vec::new()).is_empty());
    assert!(SortOrdersByNameDesc.sort(&Vec::new()).is_empty());
    assert!(SortOrdersRandomly.sort(&Vec::new()).is_empty());
}

#[test]
fn sorting_twice_changes_nothing() {
    let once = sort_by_key(&mixed(), SortKey::Weight, None);
    let twice = sort_by_key(&once, SortKey::Weight, None);
    assert_eq!(once, twice);
    assert_eq!(reversed_orders(reversed_orders(mixed())), mixed());
}
