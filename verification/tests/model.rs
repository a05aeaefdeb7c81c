use pickup_delivery_problem::model::{Edge, Order, Station, Train};
use pickup_delivery_problem::Input;

fn st(name: &str) -> Station {
    Station::new(name.to_string())
}

#[test]
fn station_is_known_by_its_name() {
    let a = st("A");
    assert_eq!(a.name(), "A");
    assert!(a.same(&st("A")));
    assert!(!a.same(&st("B")));
    assert_eq!(a.copy(), a);
}

#[test]
fn edge_keeps_its_ends_and_distance() {
    let e = Edge::new("E1".to_string(), st("A"), st("B"), 30);
    assert_eq!(e.stations(), &(st("A"), st("B")));
    assert_eq!(e.distance(), 30);
}

#[test]
fn order_is_delivered_when_it_is_where_it_has_to_go() {
    let o = Order::new("K1".to_string(), 5, st("A"), st("C"));
    assert_eq!(o.name(), "K1");
    assert_eq!(o.weight(), 5);
    assert_eq!(o.location(), st("A"));
    assert_eq!(o.destination(), st("C"));
    assert!(!o.is_delivered());
    let moved = o.copy().move_to(&st("C"));
    assert!(moved.is_delivered());
    assert_eq!(moved.name(), "K1");
    assert_eq!(moved.weight(), 5);
    assert_eq!(moved.destination(), st("C"));
}

#[test]
fn train_adds_up_the_time_it_travels() {
    let t = Train::new("Q1".to_string(), 6, st("B"));
    assert_eq!(t.name(), "Q1");
    assert_eq!(t.capacity(), 6);
    assert_eq!(t.location(), &st("B"));
    assert_eq!(t.traveled_time(), 0);
    let t = t.move_to(&st("A"), 30).move_to(&st("C"), 40);
    assert_eq!(t.location(), &st("C"));
    assert_eq!(t.traveled_time(), 70);
    assert_eq!(t.capacity(), 6);
    assert_eq!(t.copy(), t);
}

#[test]
fn input_hands_out_what_it_holds() {
    let input = Input::new(
        vec![st("A"), st("B")],
        vec![Edge::new("E1".to_string(), st("A"), st("B"), 30)],
        vec![Order::new("K1".to_string(), 5, st("A"), st("B"))],
        vec![Train::new("Q1".to_string(), 6, st("B"))],
    );
    assert_eq!(input.stations().len(), 2);
    assert_eq!(input.edges()[0].distance(), 30);
    assert_eq!(input.orders()[0].name(), "K1");
    assert_eq!(input.trains()[0].name(), "Q1");
}

#[test]
fn values_are_made_from_tuples() {
    assert_eq!(Station::from("A"), st("A"));
    assert_eq!(Edge::from(("E1", "A", "B", 30)), Edge::new("E1".to_string(), st("A"), st("B"), 30));
    assert_eq!(Order::from(("K1", 5, "A", "C")), Order::new("K1".to_string(), 5, st("A"), st("C")));
    assert_eq!(Train::from(("Q1", 6, "B")), Train::new("Q1".to_string(), 6, st("B")));
}
