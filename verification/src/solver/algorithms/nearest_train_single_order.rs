use vstd::prelude::*;
use crate::model::order::Order;
use crate::model::train::Train;
use crate::network::{lemma_distance_bounded, Network};
use crate::output::{legs, names_in, Leg, Move, Output};
use crate::solver::algorithms::{
    all_rightly_handled, all_within_capacity, allowance, goes, loaded, rightly_handled, waits, waits_at, at_rest, contiguous, descends, distinct_names, distinct_places, due, ends_at,
    ends_by, heir, kept, labels, lemma_back_in_pool, lemma_cycled, lemma_leg_added, lemma_makespan,
    lemma_no_idle_leg_added, lemma_on_course_at_start, lemma_tidy_at_start, lemma_tidy_cycled, makespan, max_time, no_idle_legs,
    on_course, ready, send, stuck, tidy,
    too_heavy, twin, unloaded, weight_of, within_capacity, Algorithm, SolveError,
};
use crate::solver::utils::{arrival, find_nearest_train, nearest};

verus! {

/// Takes the orders one by one, in the order given, and has each carried
/// by the train that can be at its station soonest.
#[derive(Debug)]
pub struct NearestTrainSingleOrderAlgorithm;

/// Two more legs cost no more than the allowance of one more order.
pub(crate) proof fn lemma_allowance_step(longest: int, count: int)
    requires
        longest >= 0,
        count >= 0,
    ensures
        allowance(longest, count + 1) == allowance(longest, count) + 2 * longest,
        allowance(longest, count) >= 0,
{
    assert(2 * longest * (count + 1) == 2 * longest * count + 2 * longest) by (nonlinear_arith);
    assert(2 * longest * count >= 0) by (nonlinear_arith)
        requires
            longest >= 0,
            count >= 0,
    ;
}

/// A train of the pool has the room of a train of the fleet, so a weight
/// that fits into a train of the pool is not too heavy for the fleet.
pub(crate) proof fn lemma_room_in_fleet(fleet: Seq<Train>, train: Train, weight: u32)
    requires
        descends(train, fleet),
        train.capacity >= weight,
    ensures
        !too_heavy(fleet, weight),
{
    reveal(descends);
    let t = choose|t: int| 0 <= t < fleet.len() && #[trigger] twin(train, fleet[t]);
    assert(fleet[t].capacity >= weight);
}

/// When no train of the pool has room for a weight, none of the fleet has.
pub(crate) proof fn lemma_no_room_in_fleet(fleet: Seq<Train>, pool: Seq<Train>, weight: u32)
    requires
        forall|t: int| 0 <= t < fleet.len() ==> kept(#[trigger] fleet[t], pool),
        forall|i: int| 0 <= i < pool.len() ==> (#[trigger] pool[i]).capacity < weight,
    ensures
        too_heavy(fleet, weight),
{
    assert forall|t: int| 0 <= t < fleet.len() implies (#[trigger] fleet[t]).capacity < weight by {
        reveal(kept);
        assert(kept(fleet[t], pool));
        let i = choose|i: int| 0 <= i < pool.len() && #[trigger] heir(pool[i], fleet[t]);
        assert(pool[i].capacity < weight);
    }
}

/// A leg that takes one order on board which fits into its train is within
/// capacity.
pub(crate) proof fn lemma_single_load(leg: Move, orders: Seq<Order>, fleet: Seq<Train>, k: usize, train: Train)
    requires
        k < orders.len(),
        leg.load@.len() == 1,
        leg.load@[0]@ == orders[k as int].name@,
        leg.train@ == train.name@,
        descends(train, fleet),
        orders[k as int].weight <= train.capacity,
    ensures
        within_capacity(leg, orders, fleet),
{
    reveal(descends);
    let t = choose|t: int| 0 <= t < fleet.len() && #[trigger] twin(train, fleet[t]);
    let picks = seq![k];
    assert(picks.drop_last() =~= Seq::<usize>::empty());
    assert(weight_of(orders, picks.drop_last()) == 0);
    assert(weight_of(orders, picks) == orders[k as int].weight);
    assert(distinct_places(orders, picks));
    assert(forall|i: int| 0 <= i < picks.len() ==> orders[#[trigger] picks[i] as int].name@ == leg.load@[i]@);
    assert(weight_of(orders, picks) <= fleet[t].capacity);
}

/// The place in the pool of the train that serves an order of weight
/// `room` that waits at `at`.
pub open spec fn serving_place(network: &Network, pool: Seq<Train>, at: Seq<char>, room: u32) -> int {
    choose|i: int| nearest(network, pool, at, room, i)
}

/// Only one train is the nearest.
pub proof fn lemma_nearest_unique(network: &Network, pool: Seq<Train>, at: Seq<char>, room: u32, i: int, j: int)
    requires
        nearest(network, pool, at, room, i),
        nearest(network, pool, at, room, j),
    ensures
        i == j,
{
    if i < j {
        assert(pool[i].capacity >= room);
    }
    if j < i {
        assert(pool[j].capacity >= room);
    }
}

/// The train after it has carried `order`, which it found at its station
/// at the moment `start`.
pub open spec fn after_delivery(network: &Network, train: Train, order: Order, start: int) -> Train {
    Train {
        name: train.name,
        capacity: train.capacity,
        location: order.destination,
        traveled_time: (start + network.dist(order.location@, order.destination@)) as u32,
    }
}

/// The legs on which `train` carries `order`: one to come over, if it
/// stands elsewhere, and one with the order on board.
pub open spec fn delivery_legs(network: &Network, train: Train, order: Order) -> Seq<Leg> {
    let empty = Seq::<Seq<char>>::empty();
    let away = train.location@ != order.location@;
    let start = if away {
        (train.traveled_time + network.dist(train.location@, order.location@)) as u32
    } else {
        train.traveled_time
    };
    let carry = Leg {
        time: start,
        train: train.name@,
        from: order.location@,
        load: seq![order.name@],
        to: order.destination@,
        unload: seq![order.name@],
    };
    if away {
        seq![
            Leg {
                time: train.traveled_time,
                train: train.name@,
                from: train.location@,
                load: empty,
                to: order.location@,
                unload: empty,
            },
            carry,
        ]
    } else {
        seq![carry]
    }
}

/// The moment at which `train` leaves the station of `order` with it.
pub open spec fn pickup_time(network: &Network, train: Train, order: Order) -> int {
    if train.location@ != order.location@ {
        train.traveled_time + network.dist(train.location@, order.location@)
    } else {
        train.traveled_time as int
    }
}

/// The pool and the legs after the orders have been served one by one,
/// starting from `pool` and no legs. An order that is at its destination
/// changes nothing; any other is carried by the nearest train with room
/// for it, which then goes to the end of the pool.
pub open spec fn served_in_turn(network: &Network, orders: Seq<Order>, pool: Seq<Train>) -> (Seq<Train>, Seq<Leg>)
    decreases orders.len(),
{
    if orders.len() == 0 {
        (pool, Seq::empty())
    } else {
        let (idle, done) = served_in_turn(network, orders.drop_last(), pool);
        let order = orders.last();
        if order.delivered() {
            (idle, done)
        } else {
            let place = serving_place(network, idle, order.location@, order.weight);
            let train = idle[place];
            (
                idle.remove(place).push(after_delivery(network, train, order, pickup_time(network, train, order))),
                done + delivery_legs(network, train, order),
            )
        }
    }
}

/// Delivers the orders one by one, in the order given. Each order that is
/// not yet at its destination is carried by the train that can be at its
/// station soonest among those with room for it: the train first comes
/// over empty if it stands elsewhere, then carries the order to its
/// destination. The run fails exactly when some such order is too heavy
/// for every train.
pub fn deliver_with_nearest_train(network: &Network, trains: Vec<Train>, orders: Vec<Order>) -> (plan: Result<
    Output,
    SolveError,
>)
    requires
        ready(network, orders@, trains@),
    ensures
        plan is Err <==> stuck(orders@, trains@),
        plan matches Err(e) ==> e == SolveError::NoCapacity,
        plan matches Ok(out) ==> {
            &&& makespan(network, trains@, out.moves@, out.total_time as int)
            &&& all_within_capacity(out.moves@, orders@, trains@)
            &&& unloaded(out.moves@) == due(orders@)
            &&& distinct_names(trains@) ==> contiguous(network, trains@, out.moves@)
            &&& legs(out.moves@) == served_in_turn(network, orders@, trains@).1
            &&& no_idle_legs(out.moves@)
            &&& all_rightly_handled(out.moves@, orders@)
            &&& loaded(out.moves@) == due(orders@)
        },
{
    let ghost fleet = trains@;
    let mut pool = trains;
    let mut moves: Vec<Move> = Vec::new();
    let mut k: usize = 0;
    proof {
        lemma_on_course_at_start(network, fleet);
        lemma_tidy_at_start(network, fleet);
        assert(orders@.take(0) =~= Seq::<Order>::empty());
        assert(legs(moves@) =~= Seq::<Leg>::empty());
    }
    while k < orders.len()
        invariant
            k <= orders@.len(),
            fleet == trains@,
            ready(network, orders@, fleet),
            on_course(network, fleet, pool@, moves@),
            forall|i: int|
                0 <= i < pool@.len() ==> (#[trigger] pool@[i]).traveled_time + allowance(
                    network.longest as int,
                    orders@.len() - k,
                ) <= u32::MAX,
            forall|j: int| 0 <= j < k && !(#[trigger] orders@[j]).delivered() ==> !too_heavy(fleet, orders@[j].weight),
            all_within_capacity(moves@, orders@, fleet),
            unloaded(moves@) == due(orders@.take(k as int)),
            tidy(network, fleet, distinct_names(fleet), pool@, moves@),
            no_idle_legs(moves@),
            all_rightly_handled(moves@, orders@),
            loaded(moves@) == due(orders@.take(k as int)),
            pool@ == served_in_turn(network, orders@.take(k as int), fleet).0,
            legs(moves@) == served_in_turn(network, orders@.take(k as int), fleet).1,
        decreases orders@.len() - k,
    {
        let order = &orders[k];
        proof {
            lemma_allowance_step(network.longest as int, orders@.len() - k - 1);
            assert(orders@.take(k + 1).drop_last() =~= orders@.take(k as int));
            assert(orders@.take(k + 1).last() == orders@[k as int]);
        }
        if !order.is_delivered() {
            proof {
                assert forall|i: int| 0 <= i < pool@.len() implies arrival(
                    network,
                    #[trigger] pool@[i],
                    order.location@,
                ) <= u32::MAX by {
                    lemma_distance_bounded(*network, pool@[i].location@, order.location@);
                }
            }
            match find_nearest_train(network, &pool, &order.location, order.weight) {
                None => {
                    proof {
                        lemma_no_room_in_fleet(fleet, pool@, order.weight);
                        assert(!orders@[k as int].delivered() && too_heavy(fleet, orders@[k as int].weight));
                    }
                    return Err(SolveError::NoCapacity);
                },
                Some((place, _)) => {
                    let ghost idle = pool@;
                    let ghost done = moves@;
                    let mut train = pool.remove(place);
                    let ghost taken = train;
                    proof {
                        lemma_room_in_fleet(fleet, taken, order.weight);
                        lemma_nearest_unique(
                            network,
                            idle,
                            order.location@,
                            order.weight,
                            place as int,
                            serving_place(network, idle, order.location@, order.weight),
                        );
                    }
                    if !train.location.same(&order.location) {
                        train = send(network, train, &order.location, Vec::new(), Vec::new(), &mut moves);
                        proof {
                            lemma_no_idle_leg_added(done, moves@);
                            if distinct_names(fleet) {
                                lemma_leg_added(network, fleet, done, moves@, taken, train);
                            }
                            assert(labels(moves@.last().unload@) =~= Seq::<Seq<char>>::empty());
                            assert(unloaded(moves@) =~= unloaded(done));
                            assert(labels(moves@.last().load@) =~= Seq::<Seq<char>>::empty());
                            assert(loaded(moves@) =~= loaded(done));
                            assert(waits_at(orders@[k as int], moves@.last().to@));
                            assert(rightly_handled(moves@.last(), orders@));
                            lemma_distance_bounded(*network, taken.location@, order.location@);
                        }
                    }
                    let ghost early = moves@;
                    let mut load: Vec<String> = Vec::new();
                    load.push(order.name.clone());
                    let mut unload: Vec<String> = Vec::new();
                    unload.push(order.name.clone());
                    let ghost at_pickup = train;
                    train = send(network, train, &order.destination, load, unload, &mut moves);
                    pool.push(train);
                    proof {
                        lemma_no_idle_leg_added(early, moves@);
                        if distinct_names(fleet) {
                            lemma_leg_added(network, fleet, early, moves@, at_pickup, train);
                            assert forall|i: int| 0 <= i < idle.len() && i != place implies at_rest(network, fleet, moves@,
                                #[trigger] idle[i],
                            ) by {
                                if i < place {
                                    assert(idle[i].name@ != idle[place as int].name@);
                                } else {
                                    assert(idle[place as int].name@ != idle[i].name@);
                                }
                                assert(at_rest(network, fleet, done, idle[i]));
                                assert(at_rest(network, fleet, early, idle[i]));
                            }
                        }
                        lemma_cycled(idle, place as int, train);
                        lemma_tidy_cycled(network, fleet, distinct_names(fleet), idle, place as int, train, pool@, moves@);
                        assert(train == after_delivery(network, taken, *order, pickup_time(network, taken, *order)));
                        assert(names_in(moves@.last().load@) =~= seq![order.name@]);
                        assert(names_in(moves@.last().unload@) =~= seq![order.name@]);
                        if early.len() > done.len() {
                            assert(names_in(early.last().load@) =~= Seq::<Seq<char>>::empty());
                            assert(names_in(early.last().unload@) =~= Seq::<Seq<char>>::empty());
                            assert(moves@[done.len() as int] == early.last());
                        }
                        assert(legs(moves@) =~= legs(done) + delivery_legs(network, taken, *order)) by {
                            let added = delivery_legs(network, taken, *order);
                            assert(legs(moves@).len() == legs(done).len() + added.len());
                            assert forall|j: int| 0 <= j < moves@.len() implies legs(moves@)[j] == (legs(done) + added)[j] by {
                                if j < done.len() {
                                    assert(moves@[j] == done[j]);
                                }
                            }
                        }
                        lemma_distance_bounded(*network, at_pickup.location@, order.destination@);
                        assert(labels(moves@.last().unload@) =~= seq![order.name@]);
                        assert(unloaded(moves@) =~= unloaded(early) + seq![order.name@]);
                        assert(unloaded(moves@) =~= due(orders@.take(k + 1)));
                        assert(labels(moves@.last().load@) =~= seq![order.name@]);
                        assert(loaded(moves@) =~= loaded(early) + seq![order.name@]);
                        assert(loaded(moves@) =~= due(orders@.take(k + 1)));
                        assert(rightly_handled(moves@.last(), orders@)) by {
                            assert(waits(orders@[k as int], order.name@, moves@.last().from@));
                            assert(goes(orders@[k as int], order.name@, moves@.last().to@));
                        }
                        assert forall|j: int| 0 <= j < moves@.len() implies rightly_handled(
                            #[trigger] moves@[j],
                            orders@,
                        ) by {
                            if j < early.len() {
                                assert(moves@.drop_last()[j] == moves@[j]);
                                if j < done.len() {
                                    if early.len() > done.len() {
                                        assert(early.drop_last()[j] == early[j]);
                                    }
                                } else {
                                    assert(early[j] == early.last());
                                }
                            }
                        }
                        lemma_cycled(idle, place as int, train);
                        assert forall|j: int| 0 <= j < done.len() implies #[trigger] moves@[j] == done[j] by {
                            if early.len() > done.len() {
                                assert(early.drop_last()[j] == early[j]);
                            }
                            assert(moves@.drop_last()[j] == moves@[j]);
                        }
                        assert forall|j: int| done.len() <= j < moves@.len() implies ends_by(
                            network,
                            #[trigger] moves@[j],
                            train,
                        ) by {
                            if j < moves@.len() - 1 {
                                assert(moves@.drop_last()[j] == moves@[j]);
                                assert(moves@[j] == early.last());
                            }
                        }
                        assert(ends_at(network, moves@[moves@.len() - 1], train));
                        lemma_back_in_pool(network, fleet, idle, done, place as int, train, pool@, moves@);
                        lemma_single_load(moves@.last(), orders@, fleet, k, taken);
                        assert forall|j: int| 0 <= j < moves@.len() implies within_capacity(
                            #[trigger] moves@[j],
                            orders@,
                            fleet,
                        ) by {
                            if j < done.len() {
                                assert(moves@[j] == done[j]);
                            } else if j < moves@.len() - 1 {
                                assert(moves@.drop_last()[j] == moves@[j]);
                                assert(moves@[j] == early.last());
                                assert(moves@[j].load@.len() == 0);
                            }
                        }
                        assert forall|i: int| 0 <= i < pool@.len() implies (#[trigger] pool@[i]).traveled_time
                            + allowance(network.longest as int, orders@.len() - (k + 1)) <= u32::MAX by {
                            if i < pool@.len() - 1 {
                                assert(pool@[i] == idle[if i < place { i } else { i + 1 }]);
                            }
                        }
                    }
                },
            }
        }
        k += 1;
    }
    assert(orders@.take(k as int) =~= orders@);
    let total = max_time(&pool);
    proof {
        lemma_makespan(network, fleet, pool@, moves@, total);
        assert(!stuck(orders@, fleet));
    }
    Ok(Output::new(moves, total))
}

impl Algorithm for NearestTrainSingleOrderAlgorithm {
    open spec fn failure(&self) -> SolveError {
        SolveError::NoCapacity
    }

    open spec fn plans(&self, network: &Network, orders: Seq<Order>, trains: Seq<Train>, out: Output) -> bool {
        &&& legs(out.moves@) == served_in_turn(network, orders, trains).1
        &&& unloaded(out.moves@) == due(orders)
        &&& loaded(out.moves@) == due(orders)
    }

    fn solve(&self, orders: Vec<Order>, trains: Vec<Train>, network: &Network) -> (plan: Result<Output, SolveError>) {
        deliver_with_nearest_train(network, trains, orders)
    }

    fn sort_sensitive(&self) -> (yes: bool)
        ensures
            yes,
    {
        true
    }
}

} // verus!
