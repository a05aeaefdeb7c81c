//! The routing and assignment engine, and the search over algorithms and
//! orderings.

pub mod algorithms;
pub mod grouping;
pub mod order_sorter;
pub mod utils;

pub use algorithms::{
    Algorithm, NearestTrainOrderCollectionAlgorithm, NearestTrainOrderDistributionAlgorithm,
    NearestTrainSingleOrderAlgorithm, SolveError,
};
pub use order_sorter::{
    DoNotSortOrders, OrderSorter, SortOrdersByDistanceAsc, SortOrdersByDistanceDesc, SortOrdersByNameAsc,
    SortOrdersByNameDesc, SortOrdersByWeightAsc, SortOrdersByWeightDesc, SortOrdersRandomly,
};

use std::time::{Duration, Instant};
use vstd::prelude::*;
use vstd::seq_lib::{to_multiset_build, to_multiset_contains, to_multiset_len};
use crate::model::order::Order;
use crate::model::train::Train;
use crate::network::Network;
use crate::output::{Move, Output};
use crate::solver::algorithms::batched::orders_known;
use crate::solver::algorithms::{
    all_within_capacity, distinct_places, weight_of, within_capacity, all_rightly_handled, brought, due,
    goes, is_stuck, picked_up, ready, rightly_handled, sound, stuck, too_heavy, waits, waits_at,
};
use crate::solver::order_sorter::{in_a_row, SortKey};

verus! {

/// The delivery algorithms.
#[derive(Debug, Clone, Copy, PartialEq, Eq, Structural)]
pub enum AlgorithmKind {
    /// One order at a time.
    SingleOrder,
    /// Batches that share the station where they wait.
    Distribution,
    /// Batches that share a destination.
    Collection,
}

/// The ways to put the orders in a row.
#[derive(Debug, Clone, Copy, PartialEq, Eq, Structural)]
pub enum SorterKind {
    WeightAsc,
    WeightDesc,
    NameAsc,
    NameDesc,
    DistanceAsc,
    DistanceDesc,
    Unsorted,
    Random,
}

/// How often a sorter that leaves the order to chance is tried.
pub const SAMPLES: usize = 100;

/// `std::time::Instant`, a reading of the clock.
#[verifier::external_type_specification]
#[verifier::external_body]
pub struct ExInstant(Instant);

/// Reads the clock with `std::time::Instant::now`. Nothing is known of the
/// reading.
#[verifier::external_body]
fn now() -> Instant {
    Instant::now()
}

/// The time since `start`, by `std::time::Instant::elapsed`. Nothing is
/// known of it.
#[verifier::external_body]
fn since(start: &Instant) -> Duration {
    start.elapsed()
}

/// One run of the search: how long it took, which algorithm ran on which
/// ordering, and what came of it. A run that failed has no legs and the
/// largest total time.
#[derive(Debug)]
pub struct SolverResult {
    pub elapsed: Duration,
    pub algorithm: AlgorithmKind,
    pub order_sorter: Option<SorterKind>,
    pub solution: Output,
}

/// Runs every algorithm on every ordering of the orders and ranks the
/// plans.
pub struct Solver<'s> {
    pub algorithms: Vec<AlgorithmKind>,
    pub order_sorters: Vec<SorterKind>,
    pub network: &'s Network,
}

/// Whether the ordering can change what the algorithm plans.
pub open spec fn sensitive(kind: AlgorithmKind) -> bool {
    kind == AlgorithmKind::SingleOrder
}

/// Whether the sorter gives the same row for the same orders.
pub open spec fn repeatable(kind: SorterKind) -> bool {
    kind != SorterKind::Random
}

/// The row in which a repeatable sorter puts the orders.
pub open spec fn arranged(kind: SorterKind, network: &Network, orders: Seq<Order>) -> Seq<Order> {
    match kind {
        SorterKind::WeightAsc => in_a_row(orders, SortKey::Weight, None),
        SorterKind::WeightDesc => in_a_row(orders, SortKey::Weight, None).reverse(),
        SorterKind::NameAsc => in_a_row(orders, SortKey::Name, None),
        SorterKind::NameDesc => in_a_row(orders, SortKey::Name, None).reverse(),
        SorterKind::DistanceAsc => in_a_row(orders, SortKey::Distance, Some(network)),
        SorterKind::DistanceDesc => in_a_row(orders, SortKey::Distance, Some(network)).reverse(),
        _ => orders,
    }
}

/// The error with which the algorithm of the kind fails.
pub open spec fn failure_of(kind: AlgorithmKind) -> SolveError {
    match kind {
        AlgorithmKind::SingleOrder => NearestTrainSingleOrderAlgorithm.failure(),
        AlgorithmKind::Distribution => NearestTrainOrderDistributionAlgorithm.failure(),
        AlgorithmKind::Collection => NearestTrainOrderCollectionAlgorithm.failure(),
    }
}

/// Whether `out` is a sound plan for the orders and trains, and the plan
/// that the algorithm of the kind makes for them.
pub open spec fn planned(kind: AlgorithmKind, network: &Network, orders: Seq<Order>, trains: Seq<Train>, out: Output) -> bool {
    &&& sound(network, orders, trains, out)
    &&& match kind {
        AlgorithmKind::SingleOrder => NearestTrainSingleOrderAlgorithm.plans(network, orders, trains, out),
        AlgorithmKind::Distribution => NearestTrainOrderDistributionAlgorithm.plans(network, orders, trains, out),
        AlgorithmKind::Collection => NearestTrainOrderCollectionAlgorithm.plans(network, orders, trains, out),
    }
}

/// Whether `given` is how the orders are handed to an algorithm: as they
/// come where there is no sorter, in the row of a repeatable sorter, and
/// in some order with a sorter that leaves it to chance.
pub open spec fn handed(network: &Network, orders: Seq<Order>, sorter: Option<SorterKind>, given: Seq<Order>) -> bool {
    &&& given.to_multiset() == orders.to_multiset()
    &&& match sorter {
        None => given == orders,
        Some(kind) => repeatable(kind) ==> given == arranged(kind, network, orders),
    }
}

/// Whether the result is what a run on these orders and trains gives. A
/// run has an ordering exactly when its algorithm depends on one. When some
/// order is too heavy for every train the run has no legs and the largest
/// total time. Otherwise its plan is the plan of its algorithm for the
/// orders as they were handed to it.
pub open spec fn outcome(network: &Network, orders: Seq<Order>, trains: Seq<Train>, result: SolverResult) -> bool {
    &&& result.order_sorter is Some <==> sensitive(result.algorithm)
    &&& if stuck(orders, trains) {
        result.solution.moves@.len() == 0 && result.solution.total_time == u32::MAX
    } else {
        exists|given: Seq<Order>| #[trigger]
            handed(network, orders, result.order_sorter, given) && planned(
                result.algorithm,
                network,
                given,
                trains,
                result.solution,
            )
    }
}

/// The runs of one algorithm that depends on the ordering, in the order in
/// which they are made: for each sorter in turn one run if it is
/// repeatable, and else as many as there are samples.
pub open spec fn schedule_on(algorithm: AlgorithmKind, sorters: Seq<SorterKind>) -> Seq<(AlgorithmKind, Option<SorterKind>)>
    decreases sorters.len(),
{
    if sorters.len() == 0 {
        Seq::empty()
    } else {
        schedule_on(algorithm, sorters.drop_last()) + Seq::new(
            if repeatable(sorters.last()) {
                1nat
            } else {
                SAMPLES as nat
            },
            |i: int| (algorithm, Some(sorters.last())),
        )
    }
}

/// The runs of the search, in the order in which they are made.
pub open spec fn schedule(algorithms: Seq<AlgorithmKind>, sorters: Seq<SorterKind>) -> Seq<(AlgorithmKind, Option<SorterKind>)>
    decreases algorithms.len(),
{
    if algorithms.len() == 0 {
        Seq::empty()
    } else {
        schedule(algorithms.drop_last(), sorters) + if sensitive(algorithms.last()) {
            schedule_on(algorithms.last(), sorters)
        } else {
            seq![(algorithms.last(), None)]
        }
    }
}

/// The algorithm and the sorter of each run.
pub open spec fn kinds(results: Seq<SolverResult>) -> Seq<(AlgorithmKind, Option<SorterKind>)> {
    Seq::new(results.len(), |i: int| (results[i].algorithm, results[i].order_sorter))
}

/// `row` with `x` put behind the last run whose total time is no larger.
pub open spec fn slotted(row: Seq<SolverResult>, x: SolverResult) -> Seq<SolverResult>
    decreases row.len(),
{
    if row.len() == 0 {
        seq![x]
    } else if row.last().solution.total_time <= x.solution.total_time {
        row.push(x)
    } else {
        slotted(row.drop_last(), x).push(row.last())
    }
}

/// The runs by their total time, smallest first; runs of one total time
/// keep the order in which they were made.
pub open spec fn ranking(made: Seq<SolverResult>) -> Seq<SolverResult>
    decreases made.len(),
{
    if made.len() == 0 {
        made
    } else {
        slotted(ranking(made.drop_last()), made.last())
    }
}

/// Putting `x` at the place behind the last run whose total time is no
/// larger is slotting it in.
pub(crate) proof fn lemma_slotted_at(row: Seq<SolverResult>, x: SolverResult, at: int)
    requires
        0 <= at <= row.len(),
        forall|j: int| at <= j < row.len() ==> (#[trigger] row[j]).solution.total_time > x.solution.total_time,
        at > 0 ==> row[at - 1].solution.total_time <= x.solution.total_time,
    ensures
        slotted(row, x) == row.insert(at, x),
    decreases row.len(),
{
    if row.len() == 0 {
        assert(row.insert(0, x) =~= seq![x]);
    } else if at == row.len() {
        assert(row.insert(at, x) =~= row.push(x));
    } else {
        assert(row[row.len() - 1].solution.total_time > x.solution.total_time);
        lemma_slotted_at(row.drop_last(), x, at);
        assert(row.drop_last().insert(at, x).push(row.last()) =~= row.insert(at, x));
    }
}

/// How often an algorithm that depends on the ordering runs on the
/// orderings of these sorters.
pub open spec fn runs_on(sorters: Seq<SorterKind>) -> nat
    decreases sorters.len(),
{
    if sorters.len() == 0 {
        0
    } else {
        runs_on(sorters.drop_last()) + if repeatable(sorters.last()) {
            1nat
        } else {
            SAMPLES as nat
        }
    }
}

/// How many runs the search makes.
pub open spec fn runs(algorithms: Seq<AlgorithmKind>, sorters: Seq<SorterKind>) -> nat
    decreases algorithms.len(),
{
    if algorithms.len() == 0 {
        0
    } else {
        runs(algorithms.drop_last(), sorters) + if sensitive(algorithms.last()) {
            runs_on(sorters)
        } else {
            1nat
        }
    }
}

/// Whether the result is a run of one of the algorithms, on the ordering
/// of one of the sorters if it has an ordering.
pub open spec fn listed_run(algorithms: Seq<AlgorithmKind>, sorters: Seq<SorterKind>, result: SolverResult) -> bool {
    &&& algorithms.contains(result.algorithm)
    &&& result.order_sorter matches Some(sorter) ==> sorters.contains(sorter)
}

/// Whether `results` can be what a search with these algorithms and
/// sorters gives for these orders and trains: the runs of the schedule,
/// each with its outcome, by their total time and, where that is the same,
/// in the order in which they were made.
pub open spec fn searched(
    network: &Network,
    algorithms: Seq<AlgorithmKind>,
    sorters: Seq<SorterKind>,
    orders: Seq<Order>,
    trains: Seq<Train>,
    results: Seq<SolverResult>,
) -> bool {
    &&& ranked(results)
    &&& results.len() == runs(algorithms, sorters)
    &&& forall|i: int| 0 <= i < results.len() ==> outcome(network, orders, trains, #[trigger] results[i])
    &&& forall|i: int| 0 <= i < results.len() ==> listed_run(algorithms, sorters, #[trigger] results[i])
    &&& exists|made: Seq<SolverResult>|
        {
            &&& #[trigger] ranking(made) == results
            &&& kinds(made) == schedule(algorithms, sorters)
            &&& forall|i: int| 0 <= i < made.len() ==> outcome(network, orders, trains, #[trigger] made[i])
        }
}

/// Whether `results` are the runs `made`, each with its outcome, by their
/// total time and else in the order in which they were made.
pub open spec fn logged(
    network: &Network,
    orders: Seq<Order>,
    trains: Seq<Train>,
    made: Seq<SolverResult>,
    results: Seq<SolverResult>,
) -> bool {
    &&& ranking(made) == results
    &&& forall|i: int| 0 <= i < made.len() ==> outcome(network, orders, trains, #[trigger] made[i])
}

/// One more run is logged behind the others.
pub(crate) proof fn lemma_logged_more(
    network: &Network,
    orders: Seq<Order>,
    trains: Seq<Train>,
    made: Seq<SolverResult>,
    results: Seq<SolverResult>,
    run: SolverResult,
    after: Seq<SolverResult>,
)
    requires
        logged(network, orders, trains, made, results),
        outcome(network, orders, trains, run),
        after == slotted(results, run),
    ensures
        logged(network, orders, trains, made.push(run), after),
        kinds(made.push(run)) == kinds(made).push((run.algorithm, run.order_sorter)),
{
    assert(made.push(run).drop_last() =~= made);
    assert(kinds(made.push(run)) =~= kinds(made).push((run.algorithm, run.order_sorter)));
    assert forall|i: int| 0 <= i < made.push(run).len() implies outcome(
        network,
        orders,
        trains,
        #[trigger] made.push(run)[i],
    ) by {
        if i < made.len() {
            assert(made.push(run)[i] == made[i]);
        }
    }
}

/// Whether no result has a larger total time than one behind it.
pub open spec fn ranked(results: Seq<SolverResult>) -> bool {
    forall|i: int, j: int|
        0 <= i < j < results.len() ==> (#[trigger] results[i]).solution.total_time <= (#[trigger] results[j]).solution.total_time
}

/// The same orders in another order are stuck exactly when these are.
pub proof fn lemma_stuck_rearranged(orders: Seq<Order>, sorted: Seq<Order>, trains: Seq<Train>)
    requires
        sorted.to_multiset() == orders.to_multiset(),
    ensures
        stuck(sorted, trains) == stuck(orders, trains),
        sorted.len() == orders.len(),
{
    to_multiset_len(orders);
    to_multiset_len(sorted);
    if stuck(sorted, trains) {
        let k = choose|k: int| 0 <= k < sorted.len() && !(#[trigger] sorted[k]).delivered() && too_heavy(trains, sorted[k].weight);
        to_multiset_contains(sorted, sorted[k]);
        to_multiset_contains(orders, sorted[k]);
        assert(sorted.contains(sorted[k]));
        let j = choose|j: int| 0 <= j < orders.len() && orders[j] == sorted[k];
        assert(!orders[j].delivered() && too_heavy(trains, orders[j].weight));
    }
    if stuck(orders, trains) {
        let k = choose|k: int| 0 <= k < orders.len() && !(#[trigger] orders[k]).delivered() && too_heavy(trains, orders[k].weight);
        to_multiset_contains(orders, orders[k]);
        to_multiset_contains(sorted, orders[k]);
        assert(orders.contains(orders[k]));
        let j = choose|j: int| 0 <= j < sorted.len() && sorted[j] == orders[k];
        assert(!sorted[j].delivered() && too_heavy(trains, sorted[j].weight));
    }
}

/// What an order adds to the names that are due.
pub open spec fn share(order: Order) -> vstd::multiset::Multiset<Seq<char>> {
    if order.delivered() {
        vstd::multiset::Multiset::empty()
    } else {
        vstd::multiset::Multiset::singleton(order.name@)
    }
}

/// The names that are due are those due without one order, and its share.
pub(crate) proof fn lemma_due_without(orders: Seq<Order>, i: int)
    requires
        0 <= i < orders.len(),
    ensures
        due(orders).to_multiset() =~= due(orders.remove(i)).to_multiset().add(share(orders[i])),
    decreases orders.len(),
{
    let rest = orders.remove(i);
    if i == orders.len() - 1 {
        assert(rest =~= orders.drop_last());
        if !orders.last().delivered() {
            to_multiset_build(due(orders.drop_last()), orders.last().name@);
        }
    } else {
        lemma_due_without(orders.drop_last(), i);
        assert(rest.drop_last() =~= orders.drop_last().remove(i));
        assert(rest.last() == orders.last());
        if !orders.last().delivered() {
            to_multiset_build(due(orders.drop_last()), orders.last().name@);
            to_multiset_build(due(rest.drop_last()), orders.last().name@);
        }
    }
}

/// The same orders in another order have the same names due.
pub proof fn lemma_due_rearranged(orders: Seq<Order>, given: Seq<Order>)
    requires
        given.to_multiset() == orders.to_multiset(),
    ensures
        due(given).to_multiset() =~= due(orders).to_multiset(),
    decreases orders.len(),
{
    to_multiset_len(orders);
    to_multiset_len(given);
    if orders.len() == 0 {
        assert(given =~= orders);
    } else {
        let x = orders.last();
        to_multiset_contains(orders, x);
        to_multiset_contains(given, x);
        assert(orders[orders.len() - 1] == x);
        assert(orders.contains(x));
        let i = choose|i: int| 0 <= i < given.len() && given[i] == x;
        vstd::seq_lib::to_multiset_remove(given, i);
        vstd::seq_lib::to_multiset_remove(orders, orders.len() - 1);
        assert(orders.remove(orders.len() - 1) =~= orders.drop_last());
        lemma_due_rearranged(orders.drop_last(), given.remove(i));
        lemma_due_without(given, i);
        lemma_due_without(orders, orders.len() - 1);
    }
}

/// Legs that handle the orders rightly do so whatever the order of the
/// orders.
pub(crate) proof fn lemma_handled_rearranged(moves: Seq<Move>, orders: Seq<Order>, given: Seq<Order>)
    requires
        given.to_multiset() == orders.to_multiset(),
        all_rightly_handled(moves, given),
    ensures
        all_rightly_handled(moves, orders),
{
    assert forall|j: int| 0 <= j < moves.len() implies rightly_handled(#[trigger] moves[j], orders) by {
        let leg = moves[j];
        assert(rightly_handled(leg, given));
        assert forall|i: int| 0 <= i < leg.load@.len() implies picked_up(orders, (#[trigger] leg.load@[i])@, leg.from@) by {
            assert(picked_up(given, leg.load@[i]@, leg.from@));
            let k = choose|k: int| 0 <= k < given.len() && #[trigger] waits(given[k], leg.load@[i]@, leg.from@);
            to_multiset_contains(given, given[k]);
            to_multiset_contains(orders, given[k]);
            assert(given.contains(given[k]));
            let m = choose|m: int| 0 <= m < orders.len() && orders[m] == given[k];
            assert(waits(orders[m], leg.load@[i]@, leg.from@));
        }
        if leg.load@.len() == 0 && leg.unload@.len() == 0 {
            let k = choose|k: int| 0 <= k < given.len() && #[trigger] waits_at(given[k], leg.to@);
            to_multiset_contains(given, given[k]);
            to_multiset_contains(orders, given[k]);
            assert(given.contains(given[k]));
            let m = choose|m: int| 0 <= m < orders.len() && orders[m] == given[k];
            assert(waits_at(orders[m], leg.to@));
        }
        assert forall|i: int| 0 <= i < leg.unload@.len() implies brought(orders, (#[trigger] leg.unload@[i])@, leg.to@) by {
            assert(brought(given, leg.unload@[i]@, leg.to@));
            let k = choose|k: int| 0 <= k < given.len() && #[trigger] goes(given[k], leg.unload@[i]@, leg.to@);
            to_multiset_contains(given, given[k]);
            to_multiset_contains(orders, given[k]);
            assert(given.contains(given[k]));
            let m = choose|m: int| 0 <= m < orders.len() && orders[m] == given[k];
            assert(goes(orders[m], leg.unload@[i]@, leg.to@));
        }
    }
}

/// Whether `map` says for each place in `given` where the same order
/// stands in `orders`, no two places sharing one.
pub open spec fn maps_onto(orders: Seq<Order>, given: Seq<Order>, map: Seq<usize>) -> bool {
    &&& map.len() == given.len()
    &&& forall|k: int| 0 <= k < map.len() ==> #[trigger] map[k] < orders.len() && orders[map[k] as int] == given[k]
    &&& forall|j: int, k: int| 0 <= j < k < map.len() ==> map[j] != map[k]
}

/// The same orders in another order can be matched place by place.
pub(crate) proof fn lemma_matching(orders: Seq<Order>, given: Seq<Order>) -> (map: Seq<usize>)
    requires
        given.to_multiset() == orders.to_multiset(),
        orders.len() <= usize::MAX,
    ensures
        maps_onto(orders, given, map),
    decreases given.len(),
{
    to_multiset_len(orders);
    to_multiset_len(given);
    if given.len() == 0 {
        Seq::empty()
    } else {
        let x = given.last();
        to_multiset_contains(orders, x);
        to_multiset_contains(given, x);
        assert(given[given.len() - 1] == x);
        assert(given.contains(x));
        let i = choose|i: int| 0 <= i < orders.len() && orders[i] == x;
        vstd::seq_lib::to_multiset_remove(orders, i);
        vstd::seq_lib::to_multiset_remove(given, given.len() - 1);
        assert(given.remove(given.len() - 1) =~= given.drop_last());
        let rest = lemma_matching(orders.remove(i), given.drop_last());
        let map = Seq::new(
            given.len(),
            |k: int|
                if k == given.len() - 1 {
                    i as usize
                } else if rest[k] < i {
                    rest[k]
                } else {
                    (rest[k] + 1) as usize
                },
        );
        assert forall|k: int| 0 <= k < map.len() implies #[trigger] map[k] < orders.len() && orders[map[k] as int]
            == given[k] by {
            if k < given.len() - 1 {
                assert(rest[k] < orders.remove(i).len());
                assert(orders.remove(i)[rest[k] as int] == given.drop_last()[k]);
            }
        }
        assert forall|j: int, k: int| 0 <= j < k < map.len() implies map[j] != map[k] by {
            assert(rest[j] < orders.remove(i).len());
            if k < given.len() - 1 {
                assert(rest[j] != rest[k]);
            }
        }
        map
    }
}

/// Orders that are matched place by place weigh the same.
pub(crate) proof fn lemma_weight_matched(orders: Seq<Order>, given: Seq<Order>, map: Seq<usize>, picks: Seq<usize>)
    requires
        maps_onto(orders, given, map),
        forall|i: int| 0 <= i < picks.len() ==> #[trigger] picks[i] < given.len(),
    ensures
        weight_of(orders, Seq::new(picks.len(), |i: int| map[picks[i] as int])) == weight_of(given, picks),
    decreases picks.len(),
{
    let moved = Seq::new(picks.len(), |i: int| map[picks[i] as int]);
    if picks.len() > 0 {
        lemma_weight_matched(orders, given, map, picks.drop_last());
        assert(moved.drop_last() =~= Seq::new(picks.drop_last().len(), |i: int| map[picks.drop_last()[i] as int]));
        assert(orders[map[picks.last() as int] as int] == given[picks.last() as int]);
    }
}

/// Legs that are within capacity are so whatever the order of the orders.
pub(crate) proof fn lemma_capacity_rearranged(moves: Seq<Move>, orders: Seq<Order>, given: Seq<Order>, trains: Seq<Train>)
    requires
        given.to_multiset() == orders.to_multiset(),
        orders.len() <= usize::MAX,
        all_within_capacity(moves, given, trains),
    ensures
        all_within_capacity(moves, orders, trains),
{
    let map = lemma_matching(orders, given);
    assert forall|j: int| 0 <= j < moves.len() implies within_capacity(#[trigger] moves[j], orders, trains) by {
        let leg = moves[j];
        assert(within_capacity(leg, given, trains));
        if leg.load@.len() > 0 {
            let (picks, t) = choose|picks: Seq<usize>, t: int|
                {
                    &&& 0 <= t < trains.len()
                    &&& trains[t].name@ == leg.train@
                    &&& #[trigger] distinct_places(given, picks)
                    &&& picks.len() == leg.load@.len()
                    &&& forall|i: int| 0 <= i < picks.len() ==> given[#[trigger] picks[i] as int].name@ == leg.load@[i]@
                    &&& weight_of(given, picks) <= #[trigger] trains[t].capacity
                };
            let moved = Seq::new(picks.len(), |i: int| map[picks[i] as int]);
            lemma_weight_matched(orders, given, map, picks);
            assert(distinct_places(orders, moved)) by {
                assert forall|i: int| 0 <= i < moved.len() implies #[trigger] moved[i] < orders.len() by {
                    assert(picks[i] < given.len());
                    assert(map[picks[i] as int] < orders.len());
                }
                assert forall|a: int, b: int| 0 <= a < b < moved.len() implies moved[a] != moved[b] by {
                    assert(picks[a] != picks[b]);
                    assert(picks[a] < given.len() && picks[b] < given.len());
                    if picks[a] < picks[b] {
                        assert(map[picks[a] as int] != map[picks[b] as int]);
                    } else {
                        assert(map[picks[b] as int] != map[picks[a] as int]);
                    }
                }
            }
            assert forall|i: int| 0 <= i < moved.len() implies orders[#[trigger] moved[i] as int].name@ == leg.load@[i]@ by {
                assert(picks[i] < given.len());
                assert(orders[map[picks[i] as int] as int] == given[picks[i] as int]);
            }
            assert(weight_of(orders, moved) <= trains[t].capacity);
        }
    }
}

/// Whether the plan delivers the orders, said of the orders as they come,
/// in whatever order they were handed to the algorithm.
pub open spec fn delivers(network: &Network, orders: Seq<Order>, trains: Seq<Train>, out: Output) -> bool {
    sound(network, orders, trains, out)
}

/// The plan of a run that did not fail delivers the orders.
pub proof fn lemma_outcome_delivers(network: &Network, orders: Seq<Order>, trains: Seq<Train>, result: SolverResult)
    requires
        outcome(network, orders, trains, result),
        !stuck(orders, trains),
        orders.len() <= usize::MAX,
    ensures
        delivers(network, orders, trains, result.solution),
{
    let given = choose|given: Seq<Order>| #[trigger]
        handed(network, orders, result.order_sorter, given) && planned(
            result.algorithm,
            network,
            given,
            trains,
            result.solution,
        );
    lemma_due_rearranged(orders, given);
    lemma_handled_rearranged(result.solution.moves@, orders, given);
    lemma_capacity_rearranged(result.solution.moves@, orders, given, trains);
}

/// The same orders in another order can be worked on when these can.
pub(crate) proof fn lemma_ready_rearranged(network: &Network, orders: Seq<Order>, sorted: Seq<Order>, trains: Seq<Train>)
    requires
        sorted.to_multiset() == orders.to_multiset(),
        ready(network, orders, trains),
    ensures
        ready(network, sorted, trains),
{
    to_multiset_len(orders);
    to_multiset_len(sorted);
    assert forall|k: int| 0 <= k < sorted.len() implies network.has((#[trigger] sorted[k]).location@) && network.has(
        sorted[k].destination@,
    ) by {
        to_multiset_contains(sorted, sorted[k]);
        to_multiset_contains(orders, sorted[k]);
        assert(sorted.contains(sorted[k]));
        let j = choose|j: int| 0 <= j < orders.len() && orders[j] == sorted[k];
        assert(network.has(orders[j].location@));
    }
}

/// Whether the ordering can change what the algorithm plans.
pub fn sort_sensitive(kind: AlgorithmKind) -> (yes: bool)
    ensures
        yes == sensitive(kind),
{
    match kind {
        AlgorithmKind::SingleOrder => NearestTrainSingleOrderAlgorithm.sort_sensitive(),
        AlgorithmKind::Distribution => NearestTrainOrderDistributionAlgorithm.sort_sensitive(),
        AlgorithmKind::Collection => NearestTrainOrderCollectionAlgorithm.sort_sensitive(),
    }
}

/// Runs the algorithm of the given kind.
pub fn run_algorithm(kind: AlgorithmKind, network: &Network, trains: Vec<Train>, orders: Vec<Order>) -> (plan: Result<
    Output,
    SolveError,
>)
    requires
        ready(network, orders@, trains@),
    ensures
        plan is Err <==> stuck(orders@, trains@),
        plan matches Err(e) ==> e == failure_of(kind),
        plan matches Ok(out) ==> planned(kind, network, orders@, trains@, out),
{
    match kind {
        AlgorithmKind::SingleOrder => NearestTrainSingleOrderAlgorithm.solve(orders, trains, network),
        AlgorithmKind::Distribution => NearestTrainOrderDistributionAlgorithm.solve(orders, trains, network),
        AlgorithmKind::Collection => NearestTrainOrderCollectionAlgorithm.solve(orders, trains, network),
    }
}

/// Puts the orders in a row with the sorter of the given kind.
pub fn apply_sorter(kind: SorterKind, network: &Network, orders: &Vec<Order>) -> (sorted: Vec<Order>)
    requires
        network.wf(),
        orders_known(network, orders@),
    ensures
        sorted@.to_multiset() == orders@.to_multiset(),
        repeatable(kind) ==> sorted@ == arranged(kind, network, orders@),
{
    match kind {
        SorterKind::WeightAsc => SortOrdersByWeightAsc.sort(orders),
        SorterKind::WeightDesc => SortOrdersByWeightDesc.sort(orders),
        SorterKind::NameAsc => SortOrdersByNameAsc.sort(orders),
        SorterKind::NameDesc => SortOrdersByNameDesc.sort(orders),
        SorterKind::DistanceAsc => SortOrdersByDistanceAsc::new(network).sort(orders),
        SorterKind::DistanceDesc => SortOrdersByDistanceDesc::new(network).sort(orders),
        SorterKind::Unsorted => DoNotSortOrders.sort(orders),
        SorterKind::Random => SortOrdersRandomly.sort(orders),
    }
}

/// Whether the sorter gives the same row for the same orders.
pub fn is_repeatable(kind: SorterKind) -> (yes: bool)
    ensures
        yes == repeatable(kind),
{
    match kind {
        SorterKind::Random => SortOrdersRandomly.stable(),
        _ => true,
    }
}

/// A copy of the trains.
pub(crate) fn copy_trains(trains: &Vec<Train>) -> (copy: Vec<Train>)
    ensures
        copy@ == trains@,
{
    let mut copy: Vec<Train> = Vec::new();
    let mut k: usize = 0;
    while k < trains.len()
        invariant
            k <= trains@.len(),
            copy@ == trains@.take(k as int),
        decreases trains@.len() - k,
    {
        copy.push(trains[k].copy());
        assert(copy@ =~= trains@.take(k + 1));
        k += 1;
    }
    assert(trains@.take(k as int) =~= trains@);
    copy
}

/// Writes a run down among the results, behind every result whose total
/// time is no larger.
pub(crate) fn record(results: &mut Vec<SolverResult>, result: SolverResult)
    requires
        ranked(old(results)@),
    ensures
        ranked(final(results)@),
        final(results)@ == slotted(old(results)@, result),
        exists|at: int|
            0 <= at <= old(results)@.len() && final(results)@ == #[trigger] old(results)@.insert(at, result),
{
    let mut at: usize = results.len();
    while at > 0 && results[at - 1].solution.total_time > result.solution.total_time
        invariant
            at <= results@.len(),
            results@ == old(results)@,
            ranked(results@),
            forall|h: int|
                at <= h < results@.len() ==> (#[trigger] results@[h]).solution.total_time > result.solution.total_time,
        decreases at,
    {
        at -= 1;
    }
    let ghost before = results@;
    proof {
        assert forall|g: int| 0 <= g < at implies (#[trigger] before[g]).solution.total_time <= result.solution.total_time by {
            assert(before[g].solution.total_time <= before[at - 1].solution.total_time);
        }
    }
    results.insert(at, result);
    proof {
        lemma_slotted_at(before, result, at as int);
        assert forall|i: int, j: int| 0 <= i < j < results@.len() implies (#[trigger] results@[i]).solution.total_time <= (
        #[trigger] results@[j]).solution.total_time by {
            let i0 = if i < at { i } else { i - 1 };
            let j0 = if j < at { j } else { j - 1 };
            if i != at {
                assert(results@[i] == before[i0]);
            }
            if j != at {
                assert(results@[j] == before[j0]);
            }
            if i != at && j != at {
                assert(before[i0].solution.total_time <= before[j0].solution.total_time);
            }
        }
    }
}

/// Runs one algorithm on one ordering and writes the run down. A run that
/// fails is written down without legs and with the largest total time.
pub(crate) fn run_once(
    network: &Network,
    algorithm: AlgorithmKind,
    sorter: Option<SorterKind>,
    orders: &Vec<Order>,
    trains: &Vec<Train>,
    results: &mut Vec<SolverResult>,
    Ghost(algorithms): Ghost<Seq<AlgorithmKind>>,
    Ghost(sorters): Ghost<Seq<SorterKind>>,
) -> (run: Ghost<SolverResult>)
    requires
        ready(network, orders@, trains@),
        sorter is Some <==> sensitive(algorithm),
        algorithms.contains(algorithm),
        sorter matches Some(kind) ==> sorters.contains(kind),
        ranked(old(results)@),
        forall|i: int| 0 <= i < old(results)@.len() ==> outcome(network, orders@, trains@, #[trigger] old(results)@[i]),
        forall|i: int| 0 <= i < old(results)@.len() ==> listed_run(algorithms, sorters, #[trigger] old(results)@[i]),
    ensures
        ranked(final(results)@),
        final(results)@.len() == old(results)@.len() + 1,
        forall|i: int| 0 <= i < final(results)@.len() ==> outcome(network, orders@, trains@, #[trigger] final(results)@[i]),
        forall|i: int| 0 <= i < final(results)@.len() ==> listed_run(algorithms, sorters, #[trigger] final(results)@[i]),
        final(results)@ == slotted(old(results)@, run@),
        run@.algorithm == algorithm,
        run@.order_sorter == sorter,
        outcome(network, orders@, trains@, run@),
{
    let started = now();
    let sorted = match sorter {
        Some(kind) => apply_sorter(kind, network, orders),
        None => order_sorter::copy_orders(orders),
    };
    let ghost sorted_rows = sorted@;
    proof {
        lemma_stuck_rearranged(orders@, sorted@, trains@);
        lemma_ready_rearranged(network, orders@, sorted@, trains@);
    }
    let plan = run_algorithm(algorithm, network, copy_trains(trains), sorted);
    let solution = match plan {
        Ok(out) => out,
        Err(_) => Output::new(Vec::new(), u32::MAX),
    };
    let result = SolverResult { elapsed: since(&started), algorithm, order_sorter: sorter, solution };
    let ghost before = results@;
    let ghost run = result;
    proof {
        if !stuck(orders@, trains@) {
            assert(handed(network, orders@, sorter, sorted_rows));
        }
        assert(outcome(network, orders@, trains@, result));
    }
    record(results, result);
    proof {
        let at = choose|at: int| 0 <= at <= before.len() && results@ == #[trigger] before.insert(at, result);
        assert forall|i: int| 0 <= i < results@.len() implies outcome(network, orders@, trains@, #[trigger] results@[i])
            && listed_run(algorithms, sorters, results@[i]) by {
            if i != at {
                assert(results@[i] == before[if i < at { i } else { i - 1 }]);
            }
        }
    }
    Ghost(run)
}

impl<'s> Solver<'s> {
    pub fn new(algorithms: Vec<AlgorithmKind>, order_sorters: Vec<SorterKind>, network: &'s Network) -> (solver: Self)
        ensures
            solver.algorithms == algorithms,
            solver.order_sorters == order_sorters,
            solver.network == network,
    {
        Self { algorithms, order_sorters, network }
    }

    /// Runs every algorithm: one that depends on the ordering once on
    /// every repeatable ordering and a hundred times on every ordering
    /// left to chance, any other once on the orders as they come. The runs
    /// come back with the smallest total time first; of two runs with the
    /// same total time the earlier comes first.
    pub fn solve(&self, orders: Vec<Order>, trains: Vec<Train>) -> (results: Vec<SolverResult>)
        requires
            ready(self.network, orders@, trains@),
        ensures
            searched(self.network, self.algorithms@, self.order_sorters@, orders@, trains@, results@),
            self.algorithms@.len() > 0 && self.order_sorters@.len() > 0 ==> results@.len() > 0,
    {
        let mut results: Vec<SolverResult> = Vec::new();
        let ghost mut made: Seq<SolverResult> = Seq::empty();
        let mut a: usize = 0;
        assert(self.algorithms@.take(0) =~= Seq::<AlgorithmKind>::empty());
        assert(kinds(made) =~= schedule(self.algorithms@.take(0), self.order_sorters@));
        while a < self.algorithms.len()
            invariant
                a <= self.algorithms@.len(),
                logged(self.network, orders@, trains@, made, results@),
                kinds(made) == schedule(self.algorithms@.take(a as int), self.order_sorters@),
                ready(self.network, orders@, trains@),
                ranked(results@),
                forall|i: int| 0 <= i < results@.len() ==> outcome(self.network, orders@, trains@, #[trigger] results@[i]),
                a > 0 && self.order_sorters@.len() > 0 ==> results@.len() > 0,
                results@.len() == runs(self.algorithms@.take(a as int), self.order_sorters@),
                forall|i: int|
                    0 <= i < results@.len() ==> listed_run(self.algorithms@, self.order_sorters@, #[trigger] results@[i]),
            decreases self.algorithms@.len() - a,
        {
            let algorithm = self.algorithms[a];
            let ghost so_far = results@.len();
            let ghost base = kinds(made);
            assert(self.algorithms@.contains(algorithm));
            proof {
                assert(self.algorithms@.take(a + 1).drop_last() =~= self.algorithms@.take(a as int));
                assert(self.algorithms@.take(a + 1).last() == algorithm);
            }
            if sort_sensitive(algorithm) {
                let mut s: usize = 0;
                assert(self.order_sorters@.take(0) =~= Seq::<SorterKind>::empty());
                assert(kinds(made) =~= base + schedule_on(algorithm, self.order_sorters@.take(0)));
                while s < self.order_sorters.len()
                    invariant
                        s <= self.order_sorters@.len(),
                        logged(self.network, orders@, trains@, made, results@),
                        kinds(made) == base + schedule_on(algorithm, self.order_sorters@.take(s as int)),
                        sensitive(algorithm),
                        ready(self.network, orders@, trains@),
                        ranked(results@),
                        forall|i: int|
                            0 <= i < results@.len() ==> outcome(self.network, orders@, trains@, #[trigger] results@[i]),
                        s > 0 ==> results@.len() > 0,
                        results@.len() == so_far + runs_on(self.order_sorters@.take(s as int)),
                        self.algorithms@.contains(algorithm),
                        forall|i: int|
                            0 <= i < results@.len() ==> listed_run(
                                self.algorithms@,
                                self.order_sorters@,
                                #[trigger] results@[i],
                            ),
                    decreases self.order_sorters@.len() - s,
                {
                    let sorter = self.order_sorters[s];
                    let ghost before_sorter = results@.len();
                    let ghost start = kinds(made);
                    assert(self.order_sorters@.contains(sorter));
                    proof {
                        assert(self.order_sorters@.take(s + 1).drop_last() =~= self.order_sorters@.take(s as int));
                        assert(self.order_sorters@.take(s + 1).last() == sorter);
                    }
                    let times: usize = if is_repeatable(sorter) {
                        1
                    } else {
                        SAMPLES
                    };
                    let mut t: usize = 0;
                    assert(kinds(made) =~= start + Seq::new(0nat, |i: int| (algorithm, Some(sorter))));
                    while t < times
                        invariant
                            t <= times,
                            times > 0,
                            logged(self.network, orders@, trains@, made, results@),
                            kinds(made) == start + Seq::new(t as nat, |i: int| (algorithm, Some(sorter))),
                            sensitive(algorithm),
                            ready(self.network, orders@, trains@),
                            ranked(results@),
                            forall|i: int|
                                0 <= i < results@.len() ==> outcome(
                                    self.network,
                                    orders@,
                                    trains@,
                                    #[trigger] results@[i],
                                ),
                            t > 0 ==> results@.len() > 0,
                            results@.len() == before_sorter + t,
                            self.algorithms@.contains(algorithm),
                            self.order_sorters@.contains(sorter),
                            forall|i: int|
                                0 <= i < results@.len() ==> listed_run(
                                    self.algorithms@,
                                    self.order_sorters@,
                                    #[trigger] results@[i],
                                ),
                        decreases times - t,
                    {
                        let ghost ranked_before = results@;
                        let run = run_once(
                            self.network,
                            algorithm,
                            Some(sorter),
                            &orders,
                            &trains,
                            &mut results,
                            Ghost(self.algorithms@),
                            Ghost(self.order_sorters@),
                        );
                        proof {
                            lemma_logged_more(self.network, orders@, trains@, made, ranked_before, run@, results@);
                            made = made.push(run@);
                            assert(kinds(made) =~= start + Seq::new((t + 1) as nat, |i: int| (algorithm, Some(sorter))));
                        }
                        t += 1;
                    }
                    proof {
                        let more = Seq::new(times as nat, |i: int| (algorithm, Some(sorter)));
                        let earlier = schedule_on(algorithm, self.order_sorters@.take(s as int));
                        assert(schedule_on(algorithm, self.order_sorters@.take(s + 1)) =~= earlier + more);
                        assert(kinds(made) =~= base + (earlier + more));
                    }
                    s += 1;
                }
                assert(self.order_sorters@.take(s as int) =~= self.order_sorters@);
            } else {
                let ghost ranked_before = results@;
                let run = run_once(
                    self.network,
                    algorithm,
                    None,
                    &orders,
                    &trains,
                    &mut results,
                    Ghost(self.algorithms@),
                    Ghost(self.order_sorters@),
                );
                proof {
                    lemma_logged_more(self.network, orders@, trains@, made, ranked_before, run@, results@);
                    made = made.push(run@);
                    assert(kinds(made) =~= base + seq![(algorithm, None::<SorterKind>)]);
                }
            }
            a += 1;
        }
        assert(self.algorithms@.take(a as int) =~= self.algorithms@);
        assert(ranking(made) == results@);
        results
    }

    /// The plan with the smallest total time among all runs, the earliest
    /// of them if there are several. There is none when some order that
    /// has to travel is too heavy for every train, or when nothing ran.
    pub fn best(&self, orders: Vec<Order>, trains: Vec<Train>) -> (plan: Option<Output>)
        requires
            ready(self.network, orders@, trains@),
        ensures
            plan is Some <==> !stuck(orders@, trains@) && self.algorithms@.len() > 0 && self.order_sorters@.len() > 0,
            plan matches Some(out) ==> {
                &&& delivers(self.network, orders@, trains@, out)
                &&& exists|results: Seq<SolverResult>|
                    #[trigger] searched(self.network, self.algorithms@, self.order_sorters@, orders@, trains@, results)
                        && results.len() > 0 && results[0].solution == out
            },
    {
        if self.algorithms.len() == 0 || self.order_sorters.len() == 0 {
            return None;
        }
        if is_stuck(&orders, &trains) {
            return None;
        }
        let ghost asked = orders@;
        let ghost fleet = trains@;
        let mut results = self.solve(orders, trains);
        let ghost all = results@;
        let first = results.remove(0);
        assert(outcome(self.network, asked, fleet, first));
        proof {
            lemma_outcome_delivers(self.network, asked, fleet, first);
        }
        assert(searched(self.network, self.algorithms@, self.order_sorters@, asked, fleet, all) && all[0].solution
            == first.solution);
        Some(first.solution)
    }
}

} // verus!
