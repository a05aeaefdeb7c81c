//! What the delivery algorithms share: when a problem can be worked on,
//! what a sound plan is, and how a train is sent on one leg.

pub mod batched;
pub mod nearest_train_order_collection;
pub mod nearest_train_order_distribution;
pub mod nearest_train_single_order;

pub use nearest_train_order_collection::NearestTrainOrderCollectionAlgorithm;
pub use nearest_train_order_distribution::NearestTrainOrderDistributionAlgorithm;
pub use nearest_train_single_order::NearestTrainSingleOrderAlgorithm;

use vstd::prelude::*;
use crate::model::order::Order;
use crate::model::station::Station;
use crate::model::train::Train;
use crate::network::{Network};
use crate::output::{Move, Output};
use crate::solver::utils::stationed;

verus! {

/// Why an algorithm gave no plan.
#[derive(Debug, Clone, Copy, PartialEq, Eq, Structural)]
pub enum SolveError {
    /// An order is heavier than every train can take.
    NoCapacity,
    /// A whole pass over the waiting orders delivered none of them.
    NoProgress,
}

/// The time that `count` orders can add to a train's clock: two legs each,
/// none longer than `longest`.
pub open spec fn allowance(longest: int, count: int) -> int {
    2 * longest * count
}

/// Whether the problem can be worked on: the stations of all orders and
/// trains are in the network, there is a train, the orders can be counted,
/// and no clock can overflow.
pub open spec fn ready(network: &Network, orders: Seq<Order>, trains: Seq<Train>) -> bool {
    &&& network.wf()
    &&& trains.len() > 0
    &&& orders.len() <= u32::MAX
    &&& stationed(network, trains)
    &&& forall|k: int|
        0 <= k < orders.len() ==> network.has((#[trigger] orders[k]).location@) && network.has(
            orders[k].destination@,
        )
    &&& forall|i: int|
        0 <= i < trains.len() ==> (#[trigger] trains[i]).traveled_time + allowance(
            network.longest as int,
            orders.len() as int,
        ) <= u32::MAX
}

/// Whether no train has room for `weight`.
pub open spec fn too_heavy(trains: Seq<Train>, weight: u32) -> bool {
    forall|i: int| 0 <= i < trains.len() ==> (#[trigger] trains[i]).capacity < weight
}

/// Whether some order that still has to travel is too heavy for every train.
pub open spec fn stuck(orders: Seq<Order>, trains: Seq<Train>) -> bool {
    exists|k: int| 0 <= k < orders.len() && !(#[trigger] orders[k]).delivered() && too_heavy(trains, orders[k].weight)
}

/// The moment at which the leg ends.
pub open spec fn finish(network: &Network, leg: Move) -> int {
    leg.time + network.dist(leg.from@, leg.to@)
}

/// Whether `total` is the latest moment at which a train comes to rest:
/// the largest among the clocks the trains started with and the ends of
/// all legs.
pub open spec fn makespan(network: &Network, trains: Seq<Train>, moves: Seq<Move>, total: int) -> bool {
    &&& forall|i: int| 0 <= i < trains.len() ==> (#[trigger] trains[i]).traveled_time <= total
    &&& forall|j: int| 0 <= j < moves.len() ==> finish(network, #[trigger] moves[j]) <= total
    &&& (exists|i: int| 0 <= i < trains.len() && (#[trigger] trains[i]).traveled_time == total) || (exists|
        j: int,
    | 0 <= j < moves.len() && finish(network, #[trigger] moves[j]) == total)
}

/// The names in a list of strings.
pub open spec fn labels(list: Seq<String>) -> Seq<Seq<char>> {
    Seq::new(list.len(), |i: int| list[i]@)
}

/// The weight of the orders at the places `picks`, taken together.
pub open spec fn weight_of(orders: Seq<Order>, picks: Seq<usize>) -> int
    decreases picks.len(),
{
    if picks.len() == 0 {
        0
    } else {
        weight_of(orders, picks.drop_last()) + orders[picks.last() as int].weight
    }
}

/// Whether `picks` are different places in `orders`.
pub open spec fn distinct_places(orders: Seq<Order>, picks: Seq<usize>) -> bool {
    &&& forall|i: int| 0 <= i < picks.len() ==> #[trigger] picks[i] < orders.len()
    &&& forall|i: int, j: int| 0 <= i < j < picks.len() ==> picks[i] != picks[j]
}

/// Whether what the leg takes on board is a set of orders that its train
/// has room for.
pub open spec fn within_capacity(leg: Move, orders: Seq<Order>, trains: Seq<Train>) -> bool {
    leg.load@.len() > 0 ==> exists|picks: Seq<usize>, t: int|
        {
            &&& 0 <= t < trains.len()
            &&& trains[t].name@ == leg.train@
            &&& #[trigger] distinct_places(orders, picks)
            &&& picks.len() == leg.load@.len()
            &&& forall|i: int| 0 <= i < picks.len() ==> orders[#[trigger] picks[i] as int].name@ == leg.load@[i]@
            &&& weight_of(orders, picks) <= #[trigger] trains[t].capacity
        }
}

/// Whether every leg takes on board no more than its train has room for.
pub open spec fn all_within_capacity(moves: Seq<Move>, orders: Seq<Order>, trains: Seq<Train>) -> bool {
    forall|j: int| 0 <= j < moves.len() ==> within_capacity(#[trigger] moves[j], orders, trains)
}

/// The names that the legs set down, leg after leg.
pub open spec fn unloaded(moves: Seq<Move>) -> Seq<Seq<char>>
    decreases moves.len(),
{
    if moves.len() == 0 {
        Seq::empty()
    } else {
        unloaded(moves.drop_last()) + labels(moves.last().unload@)
    }
}

/// The names that the legs take on board, leg after leg.
pub open spec fn loaded(moves: Seq<Move>) -> Seq<Seq<char>>
    decreases moves.len(),
{
    if moves.len() == 0 {
        Seq::empty()
    } else {
        loaded(moves.drop_last()) + labels(moves.last().load@)
    }
}

/// Whether the order is called `name`, has to travel, and waits at `at`.
pub open spec fn waits(order: Order, name: Seq<char>, at: Seq<char>) -> bool {
    order.name@ == name && order.location@ == at && !order.delivered()
}

/// Whether the order is called `name`, has to travel, and has to go to `to`.
pub open spec fn goes(order: Order, name: Seq<char>, to: Seq<char>) -> bool {
    order.name@ == name && order.destination@ == to && !order.delivered()
}

/// Whether an order called `name` waits at `at`.
pub open spec fn picked_up(orders: Seq<Order>, name: Seq<char>, at: Seq<char>) -> bool {
    exists|k: int| 0 <= k < orders.len() && #[trigger] waits(orders[k], name, at)
}

/// Whether an order called `name` has to go to `to`.
pub open spec fn brought(orders: Seq<Order>, name: Seq<char>, to: Seq<char>) -> bool {
    exists|k: int| 0 <= k < orders.len() && #[trigger] goes(orders[k], name, to)
}

/// Whether the order has to travel and waits at `at`.
pub open spec fn waits_at(order: Order, at: Seq<char>) -> bool {
    !order.delivered() && order.location@ == at
}

/// Whether some order that has to travel waits at `at`.
pub open spec fn fetched(orders: Seq<Order>, at: Seq<char>) -> bool {
    exists|k: int| 0 <= k < orders.len() && #[trigger] waits_at(orders[k], at)
}

/// Whether the leg takes on board only orders that wait where it starts,
/// sets down only orders that have to go where it ends, and, if it does
/// neither, ends where an order waits.
pub open spec fn rightly_handled(leg: Move, orders: Seq<Order>) -> bool {
    &&& forall|i: int| 0 <= i < leg.load@.len() ==> picked_up(orders, (#[trigger] leg.load@[i])@, leg.from@)
    &&& forall|i: int| 0 <= i < leg.unload@.len() ==> brought(orders, (#[trigger] leg.unload@[i])@, leg.to@)
    &&& leg.load@.len() == 0 && leg.unload@.len() == 0 ==> fetched(orders, leg.to@)
}

/// Whether every leg handles the orders rightly.
pub open spec fn all_rightly_handled(moves: Seq<Move>, orders: Seq<Order>) -> bool {
    forall|j: int| 0 <= j < moves.len() ==> rightly_handled(#[trigger] moves[j], orders)
}

/// The names of the orders that still have to travel, in their order.
pub open spec fn due(orders: Seq<Order>) -> Seq<Seq<char>>
    decreases orders.len(),
{
    if orders.len() == 0 {
        Seq::empty()
    } else if orders.last().delivered() {
        due(orders.drop_last())
    } else {
        due(orders.drop_last()).push(orders.last().name@)
    }
}

/// Whether every leg goes from one station to another.
pub open spec fn no_idle_legs(moves: Seq<Move>) -> bool {
    forall|j: int| 0 <= j < moves.len() ==> (#[trigger] moves[j]).from@ != moves[j].to@
}

/// A leg from one station to another keeps the legs free of idle ones.
pub(crate) proof fn lemma_no_idle_leg_added(moves: Seq<Move>, later: Seq<Move>)
    requires
        later.len() == moves.len() + 1,
        later.drop_last() == moves,
        no_idle_legs(moves),
        later.last().from@ != later.last().to@,
    ensures
        no_idle_legs(later),
{
    assert forall|j: int| 0 <= j < later.len() implies (#[trigger] later[j]).from@ != later[j].to@ by {
        if j < moves.len() {
            assert(later[j] == moves[j]);
        }
    }
}

/// Where and when the last leg of the train called `name` ends, if it has
/// a leg.
pub open spec fn last_stop(network: &Network, moves: Seq<Move>, name: Seq<char>) -> Option<(Seq<char>, int)>
    decreases moves.len(),
{
    if moves.len() == 0 {
        None
    } else if moves.last().train@ == name {
        Some((moves.last().to@, finish(network, moves.last())))
    } else {
        last_stop(network, moves.drop_last(), name)
    }
}

/// Whether `train` is called `name`, stands at `at` and has the clock
/// `clock`.
pub open spec fn begins(train: Train, name: Seq<char>, at: Seq<char>, clock: int) -> bool {
    train.name@ == name && train.location@ == at && train.traveled_time == clock
}

/// Whether a train called `name` that has had no leg is at `at` at the
/// moment `clock`, or one that has had legs is where and when its last leg
/// ended.
pub open spec fn follows(
    network: &Network,
    fleet: Seq<Train>,
    moves: Seq<Move>,
    name: Seq<char>,
    at: Seq<char>,
    clock: int,
) -> bool {
    match last_stop(network, moves, name) {
        Some((stop, end)) => at == stop && clock == end,
        None => exists|t: int| 0 <= t < fleet.len() && #[trigger] begins(fleet[t], name, at, clock),
    }
}

/// Whether leg `j` starts where and when the leg of its train before it
/// ends or, if it is the first leg of its train, where and when a train of
/// that name in the fleet starts.
pub open spec fn hooked(network: &Network, fleet: Seq<Train>, moves: Seq<Move>, j: int) -> bool {
    follows(network, fleet, moves.take(j), moves[j].train@, moves[j].from@, moves[j].time as int)
}

/// Whether every leg starts where and when the leg of its train before it
/// ends, and the first leg of a train where and when the train starts.
pub open spec fn contiguous(network: &Network, fleet: Seq<Train>, moves: Seq<Move>) -> bool {
    forall|j: int| 0 <= j < moves.len() ==> #[trigger] hooked(network, fleet, moves, j)
}

/// Whether the train stands where and when its last leg ends or, if it has
/// had no leg, where and when it started.
pub open spec fn at_rest(network: &Network, fleet: Seq<Train>, moves: Seq<Move>, train: Train) -> bool {
    follows(network, fleet, moves, train.name@, train.location@, train.traveled_time as int)
}

/// Whether no two trains have the same name.
pub open spec fn distinct_names(trains: Seq<Train>) -> bool {
    forall|i: int, j: int| 0 <= i < j < trains.len() ==> (#[trigger] trains[i]).name@ != (#[trigger] trains[j]).name@
}

/// Whether, if the trains of the fleet can be told apart by name, those of
/// the pool can, the legs are contiguous, and every train of the pool is at
/// rest.
pub open spec fn tidy(network: &Network, fleet: Seq<Train>, told_apart: bool, pool: Seq<Train>, moves: Seq<Move>) -> bool {
    told_apart ==> {
        &&& distinct_names(pool)
        &&& contiguous(network, fleet, moves)
        &&& forall|i: int| 0 <= i < pool.len() ==> at_rest(network, fleet, moves, #[trigger] pool[i])
    }
}

/// At the start, with no legs, the fleet is tidy.
pub(crate) proof fn lemma_tidy_at_start(network: &Network, fleet: Seq<Train>)
    ensures
        tidy(network, fleet, distinct_names(fleet), fleet, Seq::<Move>::empty()),
{
    assert forall|i: int| 0 <= i < fleet.len() implies at_rest(
        network,
        fleet,
        Seq::<Move>::empty(),
        #[trigger] fleet[i],
    ) by {
        assert(begins(fleet[i], fleet[i].name@, fleet[i].location@, fleet[i].traveled_time as int));
    }
}

/// A leg of a train that was at rest keeps the legs contiguous; afterwards
/// the train is at rest where this leg ends, and trains of another name
/// are at rest as they were.
pub(crate) proof fn lemma_leg_added(
    network: &Network,
    fleet: Seq<Train>,
    moves: Seq<Move>,
    later: Seq<Move>,
    before: Train,
    after: Train,
)
    requires
        later.len() == moves.len() + 1,
        later.drop_last() == moves,
        contiguous(network, fleet, moves),
        at_rest(network, fleet, moves, before),
        later.last().train@ == before.name@,
        after.name@ == before.name@,
        later.last().from@ == before.location@,
        later.last().time == before.traveled_time,
        later.last().to@ == after.location@,
        finish(network, later.last()) == after.traveled_time,
    ensures
        contiguous(network, fleet, later),
        at_rest(network, fleet, later, after),
        forall|other: Train|
            other.name@ != before.name@ && at_rest(network, fleet, moves, other) ==> #[trigger] at_rest(
                network,
                fleet,
                later,
                other,
            ),
{
    assert forall|j: int| 0 <= j < later.len() implies #[trigger] hooked(network, fleet, later, j) by {
        if j < moves.len() {
            assert(later.take(j) =~= moves.take(j));
            assert(later[j] == moves[j]);
            assert(hooked(network, fleet, moves, j));
        } else {
            assert(later.take(j) =~= moves);
        }
    }
}

/// A cycled pool whose train came back under its name and stands where its
/// last leg ends is tidy when the pool was and the other trains stand
/// where they stood.
pub(crate) proof fn lemma_tidy_cycled(
    network: &Network,
    fleet: Seq<Train>,
    told_apart: bool,
    pool: Seq<Train>,
    place: int,
    back: Train,
    next: Seq<Train>,
    later: Seq<Move>,
)
    requires
        told_apart ==> distinct_names(pool),
        cycled(pool, place, back, next),
        back.name@ == pool[place].name@,
        told_apart ==> contiguous(network, fleet, later) && at_rest(network, fleet, later, back),
        told_apart ==> forall|i: int|
            0 <= i < pool.len() && i != place ==> at_rest(network, fleet, later, #[trigger] pool[i]),
    ensures
        tidy(network, fleet, told_apart, next, later),
{
    if told_apart {
        let last = next.len() - 1;
        assert forall|i: int, j: int| 0 <= i < j < next.len() implies (#[trigger] next[i]).name@ != (
        #[trigger] next[j]).name@ by {
            let fi = if i < place { i } else { i + 1 };
            let fj = if j == last { place } else if j < place { j } else { j + 1 };
            assert(next[i] == pool[fi]);
            if j < last {
                assert(next[j] == pool[fj]);
                assert(pool[fi].name@ != pool[fj].name@);
            } else {
                if fi < place {
                    assert(pool[fi].name@ != pool[place].name@);
                } else {
                    assert(pool[place].name@ != pool[fi].name@);
                }
            }
        }
        assert forall|i: int| 0 <= i < next.len() implies at_rest(network, fleet, later, #[trigger] next[i]) by {
            if i < last {
                let fi = if i < place { i } else { i + 1 };
                assert(next[i] == pool[fi]);
                assert(at_rest(network, fleet, later, pool[fi]));
            }
        }
    }
}

/// Whether two values describe one train: the same name and capacity.
pub open spec fn twin(a: Train, b: Train) -> bool {
    a.name@ == b.name@ && a.capacity == b.capacity
}

/// Whether `later` is `earlier` with a clock that is no earlier.
pub open spec fn heir(later: Train, earlier: Train) -> bool {
    twin(later, earlier) && later.traveled_time >= earlier.traveled_time
}

/// Whether `train` is one of the trains of `fleet`.
#[verifier::opaque]
pub open spec fn descends(train: Train, fleet: Seq<Train>) -> bool {
    exists|t: int| 0 <= t < fleet.len() && #[trigger] twin(train, fleet[t])
}

/// Whether `train` is still in `pool`, with a clock that is no earlier.
#[verifier::opaque]
pub open spec fn kept(train: Train, pool: Seq<Train>) -> bool {
    exists|i: int| 0 <= i < pool.len() && #[trigger] heir(pool[i], train)
}

/// Whether the leg ends no later than the train's clock.
pub open spec fn ends_by(network: &Network, leg: Move, train: Train) -> bool {
    finish(network, leg) <= train.traveled_time
}

/// Whether the leg ends no later than some clock in `pool`.
#[verifier::opaque]
pub open spec fn covered(network: &Network, leg: Move, pool: Seq<Train>) -> bool {
    exists|i: int| 0 <= i < pool.len() && #[trigger] ends_by(network, leg, pool[i])
}

/// Whether the leg ends at the value of the train's clock.
pub open spec fn ends_at(network: &Network, leg: Move, train: Train) -> bool {
    finish(network, leg) == train.traveled_time
}

/// Whether both trains have the same clock.
pub open spec fn same_clock(a: Train, b: Train) -> bool {
    a.traveled_time == b.traveled_time
}

/// Whether the train's clock is a clock of `fleet` or the end of a leg.
#[verifier::opaque]
pub open spec fn explained(network: &Network, train: Train, fleet: Seq<Train>, moves: Seq<Move>) -> bool {
    ||| exists|t: int| 0 <= t < fleet.len() && #[trigger] same_clock(train, fleet[t])
    ||| exists|j: int| 0 <= j < moves.len() && #[trigger] ends_at(network, moves[j], train)
}

/// Whether the pool of idle trains and the legs decided so far fit the
/// fleet that the run started with: the pool holds the fleet's trains, each
/// with a clock no earlier than at the start, every leg ends no later than
/// some clock, and every clock is a starting clock or the end of a leg.
pub open spec fn on_course(network: &Network, fleet: Seq<Train>, pool: Seq<Train>, moves: Seq<Move>) -> bool {
    &&& pool.len() == fleet.len()
    &&& stationed(network, pool)
    &&& forall|i: int| 0 <= i < pool.len() ==> descends(#[trigger] pool[i], fleet)
    &&& forall|t: int| 0 <= t < fleet.len() ==> kept(#[trigger] fleet[t], pool)
    &&& forall|j: int| 0 <= j < moves.len() ==> covered(network, #[trigger] moves[j], pool)
    &&& forall|i: int| 0 <= i < pool.len() ==> explained(network, #[trigger] pool[i], fleet, moves)
}

/// Whether the plan delivers the orders with the trains. Its total time
/// is the latest moment at which a train comes to rest. No leg takes more
/// on board than its train can carry. The names that the legs take on
/// board, and those that they set down, are the names of the orders that
/// had to travel, each as often as it occurs among them. A leg takes on
/// board only orders that wait where it starts and sets down only orders
/// that have to go where it ends, and goes from one station to another.
/// Where no two trains share a name, every leg starts where and when the
/// leg of its train before it ends, and the first leg of a train where and
/// when the train starts.
pub open spec fn sound(network: &Network, orders: Seq<Order>, trains: Seq<Train>, out: Output) -> bool {
    &&& makespan(network, trains, out.moves@, out.total_time as int)
    &&& all_within_capacity(out.moves@, orders, trains)
    &&& unloaded(out.moves@).to_multiset() =~= due(orders).to_multiset()
    &&& loaded(out.moves@).to_multiset() =~= due(orders).to_multiset()
    &&& all_rightly_handled(out.moves@, orders)
    &&& no_idle_legs(out.moves@)
    &&& distinct_names(trains) ==> contiguous(network, trains, out.moves@)
}

/// What the delivery algorithms have in common.
pub trait Algorithm {
    /// The error with which this algorithm fails.
    spec fn failure(&self) -> SolveError;

    /// Whether `out` is the plan that this algorithm makes for the orders
    /// and trains.
    spec fn plans(&self, network: &Network, orders: Seq<Order>, trains: Seq<Train>, out: Output) -> bool;

    /// Plans the delivery of `orders` with `trains`. There is a plan
    /// exactly when no order that has to travel is too heavy for every
    /// train; it is sound, and it is the plan of this algorithm.
    fn solve(&self, orders: Vec<Order>, trains: Vec<Train>, network: &Network) -> (plan: Result<Output, SolveError>)
        requires
            ready(network, orders@, trains@),
        ensures
            plan is Err <==> stuck(orders@, trains@),
            plan matches Err(e) ==> e == self.failure(),
            plan matches Ok(out) ==> sound(network, orders@, trains@, out) && self.plans(
                network,
                orders@,
                trains@,
                out,
            ),
    ;

    /// Whether the order in which the orders are handed over can change
    /// the plan.
    fn sort_sensitive(&self) -> bool;
}

/// Whether some order that still has to travel is too heavy for every
/// train.
pub fn is_stuck(orders: &Vec<Order>, trains: &Vec<Train>) -> (yes: bool)
    ensures
        yes == stuck(orders@, trains@),
{
    let mut most: u32 = 0;
    let mut i: usize = 0;
    while i < trains.len()
        invariant
            i <= trains@.len(),
            forall|j: int| 0 <= j < i ==> (#[trigger] trains@[j]).capacity <= most,
            most == 0 || exists|j: int| 0 <= j < i && (#[trigger] trains@[j]).capacity == most,
        decreases trains@.len() - i,
    {
        if trains[i].capacity > most {
            most = trains[i].capacity;
        }
        i += 1;
    }
    let mut k: usize = 0;
    while k < orders.len()
        invariant
            k <= orders@.len(),
            forall|j: int| 0 <= j < trains@.len() ==> (#[trigger] trains@[j]).capacity <= most,
            most == 0 || exists|j: int| 0 <= j < trains@.len() && (#[trigger] trains@[j]).capacity == most,
            forall|j: int|
                0 <= j < k ==> (#[trigger] orders@[j]).delivered() || !too_heavy(trains@, orders@[j].weight),
        decreases orders@.len() - k,
    {
        let order = &orders[k];
        if !order.is_delivered() {
            if order.weight > most {
                assert(too_heavy(trains@, order.weight));
                return true;
            }
            if trains.len() == 0 || order.weight == 0 && most == 0 {
                if trains.len() == 0 {
                    assert(too_heavy(trains@, order.weight));
                    return true;
                }
                assert(trains@[0].capacity >= order.weight);
            } else {
                proof {
                    if most > 0 {
                        let j = choose|j: int| 0 <= j < trains@.len() && (#[trigger] trains@[j]).capacity == most;
                        assert(trains@[j].capacity >= order.weight);
                    } else {
                        assert(trains@[0].capacity >= order.weight);
                    }
                }
            }
        }
        k += 1;
    }
    false
}

/// Whether the problem can be worked on.
pub fn is_ready(network: &Network, orders: &Vec<Order>, trains: &Vec<Train>) -> (yes: bool)
    requires
        network.wf(),
    ensures
        yes == ready(network, orders@, trains@),
{
    if trains.len() == 0 || orders.len() > u32::MAX as usize {
        return false;
    }
    let longest: u64 = network.longest() as u64;
    let count: u64 = orders.len() as u64;
    assert(longest * count <= 0xffff_ffff * 0xffff_ffff) by (nonlinear_arith)
        requires
            0 <= longest <= 0xffff_ffff,
            0 <= count <= 0xffff_ffff,
    ;
    let legs: u64 = longest * count;
    assert(allowance(network.longest as int, orders@.len() as int) == 2 * legs) by (nonlinear_arith)
        requires
            legs == longest * count,
            longest == network.longest as int,
            count == orders@.len() as int,
    ;
    if legs > u32::MAX as u64 {
        assert(!(trains@[0].traveled_time + allowance(network.longest as int, orders@.len() as int) <= u32::MAX));
        return false;
    }
    let most: u64 = 2 * legs;
    let mut i: usize = 0;
    while i < trains.len()
        invariant
            i <= trains@.len(),
            most == allowance(network.longest as int, orders@.len() as int),
            most <= 2 * 0xffff_ffff,
            forall|j: int| 0 <= j < i ==> network.has((#[trigger] trains@[j]).location@) && trains@[j].traveled_time + most <= u32::MAX,
        decreases trains@.len() - i,
    {
        if !network.contains(&trains[i].location) || trains[i].traveled_time as u64 + most > u32::MAX as u64 {
            return false;
        }
        i += 1;
    }
    let mut k: usize = 0;
    while k < orders.len()
        invariant
            k <= orders@.len(),
            forall|j: int|
                0 <= j < k ==> network.has((#[trigger] orders@[j]).location@) && network.has(orders@[j].destination@),
        decreases orders@.len() - k,
    {
        if !network.contains(&orders[k].location) || !network.contains(&orders[k].destination) {
            return false;
        }
        k += 1;
    }
    true
}

/// Sends `train` to `to`, with `load` taken on board before it leaves and
/// `unload` set down when it arrives, and writes the leg down.
pub(crate) fn send(
    network: &Network,
    train: Train,
    to: &Station,
    load: Vec<String>,
    unload: Vec<String>,
    moves: &mut Vec<Move>,
) -> (moved: Train)
    requires
        network.wf(),
        network.has(train.location@),
        network.has(to@),
        train.traveled_time + network.longest <= u32::MAX,
    ensures
        moved.name == train.name,
        moved.capacity == train.capacity,
        moved.location == *to,
        moved.traveled_time == train.traveled_time + network.dist(train.location@, to@),
        final(moves)@.len() == old(moves)@.len() + 1,
        final(moves)@.drop_last() == old(moves)@,
        final(moves)@.last().time == train.traveled_time,
        final(moves)@.last().train@ == train.name@,
        final(moves)@.last().from@ == train.location@,
        final(moves)@.last().to@ == to@,
        final(moves)@.last().load == load,
        final(moves)@.last().unload == unload,
        finish(network, final(moves)@.last()) == moved.traveled_time,
{
    let length = network.distance(&train.location, to);
    let leg = Move::new(
        train.traveled_time,
        train.name.clone(),
        train.location.name.clone(),
        load,
        to.name.clone(),
        unload,
    );
    let ghost before = moves@;
    moves.push(leg);
    assert(moves@.drop_last() =~= before);
    train.move_to(to, length)
}

/// The largest clock among `trains`.
pub(crate) fn max_time(trains: &Vec<Train>) -> (top: u32)
    requires
        trains@.len() > 0,
    ensures
        forall|i: int| 0 <= i < trains@.len() ==> (#[trigger] trains@[i]).traveled_time <= top,
        exists|i: int| 0 <= i < trains@.len() && (#[trigger] trains@[i]).traveled_time == top,
{
    let mut top: u32 = trains[0].traveled_time;
    let ghost mut at: int = 0;
    let mut i: usize = 1;
    while i < trains.len()
        invariant
            1 <= i <= trains@.len(),
            0 <= at < i,
            trains@[at].traveled_time == top,
            forall|j: int| 0 <= j < i ==> (#[trigger] trains@[j]).traveled_time <= top,
        decreases trains@.len() - i,
    {
        if trains[i].traveled_time > top {
            top = trains[i].traveled_time;
            proof {
                at = i as int;
            }
        }
        i += 1;
    }
    top
}

/// Whether `next` is `pool` without the train at `place` and with `back`
/// at its end.
pub open spec fn cycled(pool: Seq<Train>, place: int, back: Train, next: Seq<Train>) -> bool {
    &&& 0 <= place < pool.len()
    &&& next.len() == pool.len()
    &&& next[pool.len() - 1] == back
    &&& forall|i: int| 0 <= i < pool.len() - 1 ==> #[trigger] next[i] == pool[if i < place { i } else { i + 1 }]
}

/// Taking a train out of the pool and putting one at its end gives the
/// pool cycled.
pub(crate) proof fn lemma_cycled(pool: Seq<Train>, place: int, back: Train)
    requires
        0 <= place < pool.len(),
    ensures
        cycled(pool, place, back, pool.remove(place).push(back)),
{
}

/// The trains of a cycled pool still stand at stations of the network.
proof fn lemma_cycled_stationed(network: &Network, pool: Seq<Train>, place: int, back: Train, next: Seq<Train>)
    requires
        stationed(network, pool),
        cycled(pool, place, back, next),
        network.has(back.location@),
    ensures
        stationed(network, next),
{
    let last = next.len() - 1;
    assert forall|i: int| 0 <= i < next.len() implies network.has((#[trigger] next[i]).location@) by {
        if i < last {
            assert(next[i] == pool[if i < place { i } else { i + 1 }]);
        }
    }
}

/// A cycled pool still holds trains of the fleet only.
proof fn lemma_cycled_descends(fleet: Seq<Train>, pool: Seq<Train>, place: int, back: Train, next: Seq<Train>)
    requires
        forall|i: int| 0 <= i < pool.len() ==> descends(#[trigger] pool[i], fleet),
        cycled(pool, place, back, next),
        twin(back, pool[place]),
    ensures
        forall|i: int| 0 <= i < next.len() ==> descends(#[trigger] next[i], fleet),
{
    reveal(descends);
    let last = next.len() - 1;
    assert forall|i: int| 0 <= i < next.len() implies descends(#[trigger] next[i], fleet) by {
        let from = if i == last { place } else if i < place { i } else { i + 1 };
        assert(descends(pool[from], fleet));
        let t = choose|t: int| 0 <= t < fleet.len() && #[trigger] twin(pool[from], fleet[t]);
        assert(twin(next[i], fleet[t]));
    }
}

/// A cycled pool still holds every train of the fleet.
proof fn lemma_cycled_kept(fleet: Seq<Train>, pool: Seq<Train>, place: int, back: Train, next: Seq<Train>)
    requires
        forall|t: int| 0 <= t < fleet.len() ==> kept(#[trigger] fleet[t], pool),
        cycled(pool, place, back, next),
        heir(back, pool[place]),
    ensures
        forall|t: int| 0 <= t < fleet.len() ==> kept(#[trigger] fleet[t], next),
{
    reveal(kept);
    let last = next.len() - 1;
    assert forall|t: int| 0 <= t < fleet.len() implies kept(#[trigger] fleet[t], next) by {
        assert(kept(fleet[t], pool));
        let from = choose|i: int| 0 <= i < pool.len() && #[trigger] heir(pool[i], fleet[t]);
        let i = if from == place { last } else if from < place { from } else { from - 1 };
        assert(next[i] == if from == place { back } else { pool[from] });
        assert(heir(next[i], fleet[t]));
    }
}

/// The clocks of a cycled pool still are no earlier than the end of any leg.
proof fn lemma_cycled_covered(
    network: &Network,
    pool: Seq<Train>,
    moves: Seq<Move>,
    place: int,
    back: Train,
    next: Seq<Train>,
    later: Seq<Move>,
)
    requires
        forall|j: int| 0 <= j < moves.len() ==> covered(network, #[trigger] moves[j], pool),
        cycled(pool, place, back, next),
        back.traveled_time >= pool[place].traveled_time,
        moves.len() <= later.len(),
        forall|j: int| 0 <= j < moves.len() ==> #[trigger] later[j] == moves[j],
        forall|j: int| moves.len() <= j < later.len() ==> ends_by(network, #[trigger] later[j], back),
    ensures
        forall|j: int| 0 <= j < later.len() ==> covered(network, #[trigger] later[j], next),
{
    reveal(covered);
    let last = next.len() - 1;
    assert forall|j: int| 0 <= j < later.len() implies covered(network, #[trigger] later[j], next) by {
        if j < moves.len() {
            assert(later[j] == moves[j]);
            assert(covered(network, moves[j], pool));
            let from = choose|i: int| 0 <= i < pool.len() && #[trigger] ends_by(network, moves[j], pool[i]);
            let i = if from == place { last } else if from < place { from } else { from - 1 };
            assert(next[i] == if from == place { back } else { pool[from] });
            assert(ends_by(network, later[j], next[i]));
        } else {
            assert(ends_by(network, later[j], next[last]));
        }
    }
}

/// Every clock of a cycled pool still is a starting clock or the end of a leg.
proof fn lemma_cycled_explained(
    network: &Network,
    fleet: Seq<Train>,
    pool: Seq<Train>,
    moves: Seq<Move>,
    place: int,
    back: Train,
    next: Seq<Train>,
    later: Seq<Move>,
)
    requires
        forall|i: int| 0 <= i < pool.len() ==> explained(network, #[trigger] pool[i], fleet, moves),
        cycled(pool, place, back, next),
        moves.len() <= later.len(),
        forall|j: int| 0 <= j < moves.len() ==> #[trigger] later[j] == moves[j],
        back.traveled_time == pool[place].traveled_time || exists|j: int|
            moves.len() <= j < later.len() && #[trigger] ends_at(network, later[j], back),
    ensures
        forall|i: int| 0 <= i < next.len() ==> explained(network, #[trigger] next[i], fleet, later),
{
    reveal(explained);
    let last = next.len() - 1;
    assert forall|i: int| 0 <= i < next.len() implies explained(network, #[trigger] next[i], fleet, later) by {
        let from = if i == last { place } else if i < place { i } else { i + 1 };
        if i == last && back.traveled_time != pool[place].traveled_time {
            let j = choose|j: int| moves.len() <= j < later.len() && #[trigger] ends_at(network, later[j], back);
            assert(ends_at(network, later[j], next[i]));
        } else {
            assert(next[i].traveled_time == pool[from].traveled_time);
            assert(explained(network, pool[from], fleet, moves));
            if exists|t: int| 0 <= t < fleet.len() && #[trigger] same_clock(pool[from], fleet[t]) {
                let t = choose|t: int| 0 <= t < fleet.len() && #[trigger] same_clock(pool[from], fleet[t]);
                assert(same_clock(next[i], fleet[t]));
            } else {
                let j = choose|j: int| 0 <= j < moves.len() && #[trigger] ends_at(network, moves[j], pool[from]);
                assert(later[j] == moves[j]);
                assert(ends_at(network, later[j], next[i]));
            }
        }
    }
}

/// When a train leaves the pool and comes back with a later clock, after
/// legs that end no later than that clock, pool and legs still fit the
/// fleet.
pub(crate) proof fn lemma_back_in_pool(
    network: &Network,
    fleet: Seq<Train>,
    pool: Seq<Train>,
    moves: Seq<Move>,
    place: int,
    back: Train,
    next: Seq<Train>,
    later: Seq<Move>,
)
    requires
        on_course(network, fleet, pool, moves),
        cycled(pool, place, back, next),
        twin(back, pool[place]),
        back.traveled_time >= pool[place].traveled_time,
        network.has(back.location@),
        moves.len() <= later.len(),
        forall|j: int| 0 <= j < moves.len() ==> #[trigger] later[j] == moves[j],
        forall|j: int| moves.len() <= j < later.len() ==> ends_by(network, #[trigger] later[j], back),
        back.traveled_time == pool[place].traveled_time || exists|j: int|
            moves.len() <= j < later.len() && #[trigger] ends_at(network, later[j], back),
    ensures
        on_course(network, fleet, next, later),
{
    lemma_cycled_stationed(network, pool, place, back, next);
    lemma_cycled_descends(fleet, pool, place, back, next);
    lemma_cycled_kept(fleet, pool, place, back, next);
    lemma_cycled_covered(network, pool, moves, place, back, next, later);
    lemma_cycled_explained(network, fleet, pool, moves, place, back, next, later);
}

/// When all trains are back in the pool, the largest clock in the pool is
/// the makespan of the legs.
pub(crate) proof fn lemma_makespan(network: &Network, fleet: Seq<Train>, pool: Seq<Train>, moves: Seq<Move>, top: u32)
    requires
        on_course(network, fleet, pool, moves),
        forall|i: int| 0 <= i < pool.len() ==> (#[trigger] pool[i]).traveled_time <= top,
        exists|i: int| 0 <= i < pool.len() && (#[trigger] pool[i]).traveled_time == top,
    ensures
        makespan(network, fleet, moves, top as int),
{
    assert forall|t: int| 0 <= t < fleet.len() implies (#[trigger] fleet[t]).traveled_time <= top by {
        reveal(kept);
        assert(kept(fleet[t], pool));
        let i = choose|i: int| 0 <= i < pool.len() && #[trigger] heir(pool[i], fleet[t]);
        assert(pool[i].traveled_time <= top);
    }
    assert forall|j: int| 0 <= j < moves.len() implies finish(network, #[trigger] moves[j]) <= top by {
        reveal(covered);
        assert(covered(network, moves[j], pool));
        let i = choose|i: int| 0 <= i < pool.len() && #[trigger] ends_by(network, moves[j], pool[i]);
        assert(pool[i].traveled_time <= top);
    }
    let i = choose|i: int| 0 <= i < pool.len() && (#[trigger] pool[i]).traveled_time == top;
    assert(explained(network, pool[i], fleet, moves));
    reveal(explained);
    if exists|t: int| 0 <= t < fleet.len() && #[trigger] same_clock(pool[i], fleet[t]) {
        let t = choose|t: int| 0 <= t < fleet.len() && #[trigger] same_clock(pool[i], fleet[t]);
        assert(fleet[t].traveled_time == top);
    } else {
        let j = choose|j: int| 0 <= j < moves.len() && #[trigger] ends_at(network, moves[j], pool[i]);
        assert(finish(network, moves[j]) == top);
    }
}

/// At the start the pool is the fleet.
pub(crate) proof fn lemma_on_course_at_start(network: &Network, fleet: Seq<Train>)
    requires
        stationed(network, fleet),
    ensures
        on_course(network, fleet, fleet, Seq::<Move>::empty()),
{
    assert forall|i: int| 0 <= i < fleet.len() implies descends(#[trigger] fleet[i], fleet) by {
        reveal(descends);
        assert(twin(fleet[i], fleet[i]));
    }
    assert forall|t: int| 0 <= t < fleet.len() implies kept(#[trigger] fleet[t], fleet) by {
        reveal(kept);
        assert(heir(fleet[t], fleet[t]));
    }
    assert forall|i: int| 0 <= i < fleet.len() implies explained(
        network,
        #[trigger] fleet[i],
        fleet,
        Seq::<Move>::empty(),
    ) by {
        reveal(explained);
        assert(same_clock(fleet[i], fleet[i]));
    }
}

} // verus!
