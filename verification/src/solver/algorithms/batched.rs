use vstd::multiset::Multiset;
use vstd::prelude::*;
use vstd::seq_lib::{lemma_multiset_commutative, to_multiset_build};
use crate::model::order::Order;
use crate::model::station::Station;
use crate::model::train::Train;
use crate::network::{lemma_distance_bounded, Network};
use crate::output::{legs, names_in, Leg, Move};
use crate::output::Output;
use crate::solver::algorithms::nearest_train_single_order::{
    lemma_nearest_unique, lemma_no_room_in_fleet, lemma_room_in_fleet, serving_place,
};
use crate::solver::algorithms::{
    all_within_capacity, allowance, descends, distinct_places, ends_at, ends_by, lemma_back_in_pool,
    lemma_cycled, lemma_makespan, lemma_on_course_at_start, makespan, max_time, on_course, ready, send,
    stuck, too_heavy, twin, weight_of, within_capacity, SolveError,
};
use crate::solver::grouping::{
    among, anchor, batch_ok, belongs, group_places, grouped, groups, groups_in, housed, Batch, Group,
};
use crate::solver::algorithms::{
    at_rest, contiguous, distinct_names, due, labels, lemma_leg_added, lemma_no_idle_leg_added,
    all_rightly_handled, brought, goes, waits_at, lemma_tidy_at_start, lemma_tidy_cycled, loaded, no_idle_legs, picked_up,
    rightly_handled, tidy, unloaded, waits,
};
use crate::solver::utils::{
    all_known, arrangement, arrival, best_route, calculate_best_route_for_collection,
    calculate_best_route_for_distribution, find_nearest_train, lemma_arrangement_onto, names, nearest, pick,
    stationed, tour,
};

verus! {

/// The length of `count` legs of length `longest`.
pub open spec fn span(longest: int, count: int) -> int {
    longest * count
}

/// One more leg adds one length, and no span is negative.
pub(crate) proof fn lemma_span(longest: int, count: int)
    requires
        longest >= 0,
        count >= 0,
    ensures
        span(longest, count + 1) == span(longest, count) + longest,
        span(longest, count) >= 0,
        span(longest, 0) == 0,
        2 * longest * count == 2 * span(longest, count),
{
    assert(longest * (count + 1) == longest * count + longest) by (nonlinear_arith);
    assert(longest * count >= 0) by (nonlinear_arith)
        requires
            longest >= 0,
            count >= 0,
    ;
    assert(2 * longest * count == 2 * (longest * count)) by (nonlinear_arith);
}

/// More legs make no shorter span.
pub(crate) proof fn lemma_span_grows(longest: int, fewer: int, more: int)
    requires
        longest >= 0,
        0 <= fewer <= more,
    ensures
        span(longest, fewer) <= span(longest, more),
{
    assert(longest * fewer <= longest * more) by (nonlinear_arith)
        requires
            longest >= 0,
            0 <= fewer <= more,
    ;
}

/// No weight is negative.
pub(crate) proof fn lemma_weight_nonnegative(orders: Seq<Order>, picks: Seq<usize>)
    ensures
        weight_of(orders, picks) >= 0,
    decreases picks.len(),
{
    if picks.len() > 0 {
        lemma_weight_nonnegative(orders, picks.drop_last());
    }
}

/// The weight of some orders is the weight of the first and of the rest.
pub(crate) proof fn lemma_weight_first(orders: Seq<Order>, picks: Seq<usize>)
    requires
        picks.len() > 0,
    ensures
        weight_of(orders, picks) == orders[picks[0] as int].weight + weight_of(orders, picks.drop_first()),
    decreases picks.len(),
{
    if picks.len() == 1 {
        assert(picks.drop_last() =~= Seq::<usize>::empty());
        assert(picks.drop_first() =~= Seq::<usize>::empty());
    } else {
        lemma_weight_first(orders, picks.drop_last());
        assert(picks.drop_last().drop_first() =~= picks.drop_first().drop_last());
        assert(picks.drop_first().last() == picks.last());
        assert(picks.drop_last()[0] == picks[0]);
    }
}

/// No way is longer than as many longest legs as it has stops.
pub(crate) proof fn lemma_tour_bounded(network: &Network, start: Seq<char>, stops: Seq<Station>, p: Seq<usize>)
    requires
        network.wf(),
        network.has(start),
        all_known(network, stops),
        forall|i: int| 0 <= i < p.len() ==> #[trigger] p[i] < stops.len(),
    ensures
        tour(network, start, pick(stops, p)) <= span(network.longest as int, p.len() as int),
    decreases p.len(),
{
    let way = pick(stops, p);
    if p.len() == 0 {
        lemma_span(network.longest as int, 0);
    } else {
        lemma_tour_bounded(network, start, stops, p.drop_last());
        assert(way.drop_last() =~= pick(stops, p.drop_last()));
        lemma_span(network.longest as int, p.len() - 1);
        let from = if way.len() == 1 { start } else { way[way.len() - 2] };
        assert(network.has(stops[p[p.len() - 1] as int]@));
        if way.len() > 1 {
            assert(network.has(stops[p[p.len() - 2] as int]@));
        }
        lemma_distance_bounded(*network, from, way.last());
    }
}

/// Whether the places are different waiting orders of the list.
pub open spec fn waiting_places(orders: Seq<Order>, done: Seq<bool>, places: Seq<usize>) -> bool {
    &&& done.len() == orders.len()
    &&& forall|i: int| 0 <= i < places.len() ==> #[trigger] places[i] < orders.len() && !done[places[i] as int]
    &&& forall|i: int, j: int| 0 <= i < j < places.len() ==> places[i] != places[j]
}

/// Whether the orders at the places come heaviest first.
pub open spec fn heaviest_first(orders: Seq<Order>, places: Seq<usize>) -> bool {
    forall|i: int, j: int|
        0 <= i < j < places.len() ==> orders[#[trigger] places[i] as int].weight >= orders[#[trigger] places[j] as int].weight
}

/// `row` with place `x` put behind the last place whose order is no
/// lighter.
pub open spec fn heavy_put(orders: Seq<Order>, row: Seq<usize>, x: usize) -> Seq<usize>
    decreases row.len(),
{
    if row.len() == 0 {
        seq![x]
    } else if orders[row.last() as int].weight >= orders[x as int].weight {
        row.push(x)
    } else {
        heavy_put(orders, row.drop_last(), x).push(row.last())
    }
}

/// The places among `places` of the orders that still wait, heaviest
/// order first; orders of one weight keep their order.
pub open spec fn heaviest_row(orders: Seq<Order>, done: Seq<bool>, places: Seq<usize>) -> Seq<usize>
    decreases places.len(),
{
    if places.len() == 0 {
        places
    } else if !done[places.last() as int] {
        heavy_put(orders, heaviest_row(orders, done, places.drop_last()), places.last())
    } else {
        heaviest_row(orders, done, places.drop_last())
    }
}

/// Putting `x` at the place behind the last place whose order is no
/// lighter is putting it into the row.
pub(crate) proof fn lemma_heavy_put_at(orders: Seq<Order>, row: Seq<usize>, x: usize, at: int)
    requires
        0 <= at <= row.len(),
        forall|j: int| at <= j < row.len() ==> orders[#[trigger] row[j] as int].weight < orders[x as int].weight,
        at > 0 ==> orders[row[at - 1] as int].weight >= orders[x as int].weight,
    ensures
        heavy_put(orders, row, x) == row.insert(at, x),
    decreases row.len(),
{
    if row.len() == 0 {
        assert(row.insert(0, x) =~= seq![x]);
    } else if at == row.len() {
        assert(row.insert(at, x) =~= row.push(x));
    } else {
        assert(orders[row[row.len() - 1] as int].weight < orders[x as int].weight);
        lemma_heavy_put_at(orders, row.drop_last(), x, at);
        assert(row.drop_last().insert(at, x).push(row.last()) =~= row.insert(at, x));
    }
}

/// The places of `places` that still wait, heaviest order first; orders of
/// one weight keep their order.
#[verifier::rlimit(100)]
#[verifier::spinoff_prover]
pub(crate) fn sort_heaviest_first(orders: &Vec<Order>, done: &Vec<bool>, places: &Vec<usize>) -> (sorted: Vec<usize>)
    requires
        done@.len() == orders@.len(),
        forall|i: int| 0 <= i < places@.len() ==> #[trigger] places@[i] < orders@.len(),
        forall|i: int, j: int| 0 <= i < j < places@.len() ==> places@[i] != places@[j],
    ensures
        waiting_places(orders@, done@, sorted@),
        heaviest_first(orders@, sorted@),
        sorted@.len() <= places@.len(),
        forall|i: int| 0 <= i < sorted@.len() ==> places@.contains(#[trigger] sorted@[i]),
        forall|i: int| 0 <= i < places@.len() && !done@[places@[i] as int] ==> sorted@.contains(#[trigger] places@[i]),
        sorted@ == heaviest_row(orders@, done@, places@),
{
    let mut sorted: Vec<usize> = Vec::new();
    let mut k: usize = 0;
    assert(places@.take(0) =~= Seq::<usize>::empty());
    while k < places.len()
        invariant
            k <= places@.len(),
            sorted@ == heaviest_row(orders@, done@, places@.take(k as int)),
            done@.len() == orders@.len(),
            forall|i: int| 0 <= i < places@.len() ==> #[trigger] places@[i] < orders@.len(),
            forall|i: int, j: int| 0 <= i < j < places@.len() ==> places@[i] != places@[j],
            waiting_places(orders@, done@, sorted@),
            heaviest_first(orders@, sorted@),
            sorted@.len() <= k,
            forall|i: int| 0 <= i < sorted@.len() ==> exists|j: int| 0 <= j < k && places@[j] == #[trigger] sorted@[i],
            forall|i: int| 0 <= i < k && !done@[places@[i] as int] ==> sorted@.contains(#[trigger] places@[i]),
        decreases places@.len() - k,
    {
        let place = places[k];
        proof {
            assert(places@.take(k + 1).drop_last() =~= places@.take(k as int));
            assert(places@.take(k + 1).last() == place);
        }
        if !done[place] {
            let weight = orders[place].weight;
            let mut at: usize = sorted.len();
            while at > 0 && orders[sorted[at - 1]].weight < weight
                invariant
                    at <= sorted@.len(),
                    waiting_places(orders@, done@, sorted@),
                    forall|h: int| at <= h < sorted@.len() ==> orders@[#[trigger] sorted@[h] as int].weight < weight,
                decreases at,
            {
                at -= 1;
            }
            let ghost before = sorted@;
            proof {
                assert forall|g: int| 0 <= g < at implies orders@[#[trigger] before[g] as int].weight >= weight by {
                    assert(orders@[before[g] as int].weight >= orders@[before[at - 1] as int].weight);
                }
            }
            sorted.insert(at, place);
            proof {
                lemma_heavy_put_at(orders@, before, place, at as int);
                assert forall|i: int| 0 <= i < sorted@.len() implies (i == at && sorted@[i] == place) || (i != at
                    && #[trigger] sorted@[i] == before[if i < at { i } else { i - 1 }]) by {}
                assert forall|i: int| 0 <= i < sorted@.len() implies exists|j: int|
                    0 <= j < k + 1 && places@[j] == #[trigger] sorted@[i] by {
                    if i == at {
                        assert(places@[k as int] == sorted@[i]);
                    } else {
                        let i0 = if i < at { i } else { i - 1 };
                        let j = choose|j: int| 0 <= j < k && places@[j] == #[trigger] before[i0];
                        assert(places@[j] == sorted@[i]);
                    }
                }
                assert forall|i: int, j: int| 0 <= i < j < sorted@.len() implies sorted@[i] != sorted@[j] by {
                    let i0 = if i < at { i } else { i - 1 };
                    let j0 = if j < at { j } else { j - 1 };
                    if i == at || j == at {
                        let other = if i == at { j0 } else { i0 };
                        let c = choose|c: int| 0 <= c < k && places@[c] == #[trigger] before[other];
                        assert(places@[c] != places@[k as int]);
                    } else {
                        assert(before[i0] != before[j0]);
                    }
                }
                assert forall|i: int, j: int| 0 <= i < j < sorted@.len() implies orders@[#[trigger] sorted@[i] as int].weight
                    >= orders@[#[trigger] sorted@[j] as int].weight by {
                    let i0 = if i < at { i } else { i - 1 };
                    let j0 = if j < at { j } else { j - 1 };
                    if i != at && j != at {
                        assert(orders@[before[i0] as int].weight >= orders@[before[j0] as int].weight);
                    }
                }
                assert forall|i: int| 0 <= i < k + 1 && !done@[places@[i] as int] implies sorted@.contains(
                    #[trigger] places@[i],
                ) by {
                    if i < k {
                        assert(before.contains(places@[i]));
                        let c = choose|c: int| 0 <= c < before.len() && before[c] == places@[i];
                        assert(sorted@[if c < at { c } else { c + 1 }] == places@[i]);
                    } else {
                        assert(sorted@[at as int] == places@[i]);
                    }
                }
            }
        }
        k += 1;
    }
    proof {
        assert(places@.take(k as int) =~= places@);
        assert forall|i: int| 0 <= i < sorted@.len() implies places@.contains(#[trigger] sorted@[i]) by {
            let j = choose|j: int| 0 <= j < k && places@[j] == #[trigger] sorted@[i];
            assert(places@[j] == sorted@[i]);
        }
    }
    sorted
}

/// Whether the stations of all orders are in the network.
pub open spec fn orders_known(network: &Network, orders: Seq<Order>) -> bool {
    forall|k: int|
        0 <= k < orders.len() ==> network.has((#[trigger] orders[k]).location@) && network.has(
            orders[k].destination@,
        )
}

/// Whether `load` names different orders among `served` that weigh no
/// more together than all of `served`.
pub open spec fn part_of(orders: Seq<Order>, served: Seq<usize>, load: Seq<String>) -> bool {
    exists|picks: Seq<usize>|
        {
            &&& #[trigger] picks.len() == load.len()
            &&& forall|i: int| 0 <= i < picks.len() ==> #[trigger] picks[i] < orders.len()
            &&& forall|i: int, j: int| 0 <= i < j < picks.len() ==> picks[i] != picks[j]
            &&& forall|i: int| 0 <= i < picks.len() ==> orders[#[trigger] picks[i] as int].name@ == load[i]@
            &&& weight_of(orders, picks) <= weight_of(orders, served)
        }
}

/// Whether call `a` is where the order waits and the later call `b` is
/// where it has to go.
pub open spec fn visits(order: Order, calls: Seq<Station>, a: int, b: int) -> bool {
    0 <= a < b < calls.len() && calls[a]@ == order.location@ && calls[b]@ == order.destination@
}

/// Whether the train that calls at `calls` comes to where the order waits
/// and later to where it has to go.
pub open spec fn on_the_way(order: Order, calls: Seq<Station>) -> bool {
    exists|a: int, b: int| #[trigger] visits(order, calls, a, b)
}

/// The names of the orders at the places, in their order.
pub open spec fn named(orders: Seq<Order>, places: Seq<usize>) -> Seq<Seq<char>> {
    Seq::new(places.len(), |i: int| orders[places[i] as int].name@)
}

/// The names of the first `upto` orders of `served` whose state has
/// reached `level`: one for on board, two for set down.
pub open spec fn counted(
    orders: Seq<Order>,
    served: Seq<usize>,
    state: Seq<u8>,
    level: u8,
    upto: int,
) -> Multiset<Seq<char>>
    decreases upto,
{
    if upto <= 0 {
        Multiset::empty()
    } else {
        counted(orders, served, state, level, upto - 1).add(
            if state[upto - 1] >= level {
                Multiset::singleton(orders[served[upto - 1] as int].name@)
            } else {
                Multiset::empty()
            },
        )
    }
}

/// An order that reaches the level adds its name.
pub(crate) proof fn lemma_counted_one_more(
    orders: Seq<Order>,
    served: Seq<usize>,
    state: Seq<u8>,
    level: u8,
    upto: int,
    i: int,
    next: u8,
)
    requires
        0 <= i < state.len(),
        0 <= upto <= state.len(),
        state[i] < level <= next,
    ensures
        counted(orders, served, state.update(i, next), level, upto) =~= if i < upto {
            counted(orders, served, state, level, upto).insert(orders[served[i] as int].name@)
        } else {
            counted(orders, served, state, level, upto)
        },
    decreases upto,
{
    if upto > 0 {
        lemma_counted_one_more(orders, served, state, level, upto - 1, i, next);
    }
}

/// What has reached the level depends only on which orders have reached it.
pub(crate) proof fn lemma_counted_same(
    orders: Seq<Order>,
    served: Seq<usize>,
    one: Seq<u8>,
    other: Seq<u8>,
    level: u8,
    upto: int,
)
    requires
        0 <= upto <= one.len(),
        one.len() == other.len(),
        forall|i: int| 0 <= i < one.len() ==> ((#[trigger] one[i] >= level) <==> other[i] >= level),
    ensures
        counted(orders, served, one, level, upto) == counted(orders, served, other, level, upto),
    decreases upto,
{
    if upto > 0 {
        lemma_counted_same(orders, served, one, other, level, upto - 1);
        assert((one[upto - 1] >= level) <==> other[upto - 1] >= level);
    }
}

/// While every order still waits, none has reached a level.
pub(crate) proof fn lemma_counted_none(orders: Seq<Order>, served: Seq<usize>, state: Seq<u8>, level: u8, upto: int)
    requires
        0 <= upto <= state.len(),
        level > 0,
        forall|i: int| 0 <= i < state.len() ==> #[trigger] state[i] == 0,
    ensures
        counted(orders, served, state, level, upto) =~= Multiset::<Seq<char>>::empty(),
    decreases upto,
{
    if upto > 0 {
        lemma_counted_none(orders, served, state, level, upto - 1);
        assert(state[upto - 1] == 0);
    }
}

/// When all orders have been set down, the names that have reached a
/// level are the names of the orders.
pub(crate) proof fn lemma_counted_all(orders: Seq<Order>, served: Seq<usize>, state: Seq<u8>, level: u8, upto: int)
    requires
        0 <= upto <= state.len(),
        state.len() == served.len(),
        level <= 2,
        forall|i: int| 0 <= i < state.len() ==> #[trigger] state[i] == 2,
    ensures
        counted(orders, served, state, level, upto) =~= named(orders, served).take(upto).to_multiset(),
    decreases upto,
{
    if upto > 0 {
        lemma_counted_all(orders, served, state, level, upto - 1);
        let most = named(orders, served).take(upto - 1);
        assert(named(orders, served).take(upto) =~= most.push(orders[served[upto - 1] as int].name@));
        to_multiset_build(most, orders[served[upto - 1] as int].name@);
        assert(state[upto - 1] == 2);
    } else {
        assert(named(orders, served).take(upto) =~= Seq::<Seq<char>>::empty());
        vstd::seq_lib::to_multiset_len(Seq::<Seq<char>>::empty());
        assert(Seq::<Seq<char>>::empty().to_multiset() =~= Multiset::<Seq<char>>::empty());
    }
}

/// The stations among which the way of the train that serves the orders
/// at `served` is looked for: where they wait if they share a destination,
/// and else where they have to go.
pub open spec fn stops_of(orders: Seq<Order>, served: Seq<usize>, by_destination: bool) -> Seq<Station> {
    Seq::new(
        served.len(),
        |i: int|
            if by_destination {
                orders[served[i] as int].location
            } else {
                orders[served[i] as int].destination
            },
    )
}

/// The stations at which the train that serves the orders at `served`
/// calls: `station` and then the destinations by the shortest way from
/// there, or, for orders that share the destination `station`, the
/// stations where they wait by the shortest way out from `station` walked
/// backwards, and then `station`.
pub open spec fn calls_of(
    network: &Network,
    orders: Seq<Order>,
    served: Seq<usize>,
    station: Station,
    by_destination: bool,
) -> Seq<Station> {
    let route = best_route(network, station@, stops_of(orders, served, by_destination));
    if by_destination {
        route.reverse().push(station)
    } else {
        seq![station] + route
    }
}

/// The stations at which the train that serves the orders at `served`
/// calls, in their order. For orders that wait at `station`, the train
/// comes to `station` and then goes round their destinations by the
/// shortest way. For orders that have to go to `station`, it goes round the
/// stations where they wait by the way that is shortest when it ends at
/// `station`, and ends there.
pub(crate) fn plan_calls(
    network: &Network,
    orders: &Vec<Order>,
    served: &Vec<usize>,
    station: &Station,
    by_destination: bool,
) -> (calls: Vec<Station>)
    requires
        network.wf(),
        network.has(station@),
        orders_known(network, orders@),
        forall|i: int| 0 <= i < served@.len() ==> #[trigger] served@[i] < orders@.len(),
        forall|i: int|
            0 <= i < served@.len() ==> anchor(orders@[#[trigger] served@[i] as int], by_destination) == station@,
        span(network.longest as int, served@.len() as int) <= u32::MAX,
    ensures
        calls@.len() == served@.len() + 1,
        all_known(network, calls@),
        forall|i: int| 0 <= i < served@.len() ==> on_the_way(orders@[#[trigger] served@[i] as int], calls@),
        calls@ == calls_of(network, orders@, served@, *station, by_destination),
        served@.len() > 0 ==> starts_at(orders@, served@, calls@[0]@),
{
    let mut stops: Vec<Station> = Vec::new();
    let mut i: usize = 0;
    while i < served.len()
        invariant
            i <= served@.len(),
            stops@.len() == i,
            orders_known(network, orders@),
            forall|i: int| 0 <= i < served@.len() ==> #[trigger] served@[i] < orders@.len(),
            all_known(network, stops@),
            forall|j: int|
                0 <= j < i ==> #[trigger] stops@[j] == if by_destination {
                    orders@[served@[j] as int].location
                } else {
                    orders@[served@[j] as int].destination
                },
        decreases served@.len() - i,
    {
        let order = &orders[served[i]];
        let stop = if by_destination {
            order.location.copy()
        } else {
            order.destination.copy()
        };
        stops.push(stop);
        i += 1;
    }
    proof {
        assert forall|p: Seq<usize>| #[trigger] arrangement(p, stops@.len()) implies tour(
            network,
            station@,
            pick(stops@, p),
        ) <= u32::MAX by {
            lemma_tour_bounded(network, station@, stops@, p);
        }
    }
    let n = served.len();
    assert(stops@ =~= stops_of(orders@, served@, by_destination));
    if by_destination {
        let (route, _) = calculate_best_route_for_collection(network, &stops, station);
        let mut calls = route;
        calls.push(station.copy());
        assert(calls@ =~= calls_of(network, orders@, served@, *station, by_destination));
        proof {
            if n > 0 {
                let q = choose|q: Seq<usize>| #[trigger] arrangement(q, stops@.len()) && names(route@) == pick(stops@, q);
                assert(names(route@)[0] == pick(stops@, q)[0]);
                assert(q[0] < n);
                assert(calls@[0] == route@[0]);
                assert(orders@[served@[q[0] as int] as int].location@ == calls@[0]@);
            }
        }
        proof {
            let p = choose|p: Seq<usize>| #[trigger] arrangement(p, stops@.len()) && names(route@) == pick(stops@, p);
            assert forall|i: int| 0 <= i < served@.len() implies on_the_way(
                orders@[#[trigger] served@[i] as int],
                calls@,
            ) by {
                lemma_arrangement_onto(p, n as nat, i);
                let j = choose|j: int| 0 <= j < p.len() && #[trigger] p[j] == i;
                assert(names(route@)[j] == pick(stops@, p)[j]);
                assert(calls@[j] == route@[j]);
                assert(stops@[i]@ == orders@[served@[i] as int].location@);
                assert(visits(orders@[served@[i] as int], calls@, j, n as int));
            }
        }
        calls
    } else {
        let (route, _) = calculate_best_route_for_distribution(network, station, &stops);
        let mut calls = route;
        calls.insert(0, station.copy());
        assert(calls@ =~= calls_of(network, orders@, served@, *station, by_destination));
        proof {
            if n > 0 {
                assert(orders@[served@[0] as int].location@ == calls@[0]@);
            }
        }
        assert forall|i: int| 0 <= i < calls@.len() implies network.has((#[trigger] calls@[i])@) by {
            if i > 0 {
                assert(calls@[i] == route@[i - 1]);
            }
        }
        proof {
            let p = choose|p: Seq<usize>| #[trigger] arrangement(p, stops@.len()) && names(route@) == pick(stops@, p);
            assert forall|i: int| 0 <= i < served@.len() implies on_the_way(
                orders@[#[trigger] served@[i] as int],
                calls@,
            ) by {
                lemma_arrangement_onto(p, n as nat, i);
                let j = choose|j: int| 0 <= j < p.len() && #[trigger] p[j] == i;
                assert(names(route@)[j] == pick(stops@, p)[j]);
                assert(calls@[j + 1] == route@[j]);
                assert(stops@[i]@ == orders@[served@[i] as int].destination@);
                assert(visits(orders@[served@[i] as int], calls@, 0, j + 1));
            }
        }
        calls
    }
}

/// The states of the orders after those that wait at `here` have been
/// taken on board.
pub open spec fn after_load(orders: Seq<Order>, served: Seq<usize>, state: Seq<u8>, here: Seq<char>) -> Seq<u8> {
    Seq::new(
        state.len(),
        |i: int|
            if state[i] == 0 && orders[served[i] as int].location@ == here {
                1u8
            } else {
                state[i]
            },
    )
}

/// The states of the orders after those on board that have to go to `to`
/// have been set down.
pub open spec fn after_unload(orders: Seq<Order>, served: Seq<usize>, state: Seq<u8>, to: Seq<char>) -> Seq<u8> {
    Seq::new(
        state.len(),
        |i: int|
            if state[i] == 1 && orders[served[i] as int].destination@ == to {
                2u8
            } else {
                state[i]
            },
    )
}

/// The names of the first `upto` orders of `served` that wait at `here`,
/// in their order.
pub open spec fn load_names(orders: Seq<Order>, served: Seq<usize>, state: Seq<u8>, here: Seq<char>, upto: int) -> Seq<Seq<char>>
    decreases upto,
{
    if upto <= 0 {
        Seq::empty()
    } else if state[upto - 1] == 0 && orders[served[upto - 1] as int].location@ == here {
        load_names(orders, served, state, here, upto - 1).push(orders[served[upto - 1] as int].name@)
    } else {
        load_names(orders, served, state, here, upto - 1)
    }
}

/// The names of the first `upto` orders of `served` that are on board and
/// have to go to `to`, in their order.
pub open spec fn unload_names(orders: Seq<Order>, served: Seq<usize>, state: Seq<u8>, to: Seq<char>, upto: int) -> Seq<Seq<char>>
    decreases upto,
{
    if upto <= 0 {
        Seq::empty()
    } else if state[upto - 1] == 1 && orders[served[upto - 1] as int].destination@ == to {
        unload_names(orders, served, state, to, upto - 1).push(orders[served[upto - 1] as int].name@)
    } else {
        unload_names(orders, served, state, to, upto - 1)
    }
}

/// Whether one of the orders at `served` waits at `at`.
pub open spec fn starts_at(orders: Seq<Order>, served: Seq<usize>, at: Seq<char>) -> bool {
    exists|i: int| 0 <= i < served.len() && orders[#[trigger] served[i] as int].location@ == at
}

/// Where an order waits at `here`, something is taken on board there.
pub(crate) proof fn lemma_load_some(orders: Seq<Order>, served: Seq<usize>, state: Seq<u8>, here: Seq<char>, upto: int, i: int)
    requires
        0 <= i < upto,
        state[i] == 0,
        orders[served[i] as int].location@ == here,
    ensures
        load_names(orders, served, state, here, upto).len() > 0,
    decreases upto,
{
    if i < upto - 1 {
        lemma_load_some(orders, served, state, here, upto - 1, i);
    }
}

/// Where an order on board has to go to `to`, something is set down there.
pub(crate) proof fn lemma_unload_some(orders: Seq<Order>, served: Seq<usize>, state: Seq<u8>, to: Seq<char>, upto: int, i: int)
    requires
        0 <= i < upto,
        state[i] == 1,
        orders[served[i] as int].destination@ == to,
    ensures
        unload_names(orders, served, state, to, upto).len() > 0,
    decreases upto,
{
    if i < upto - 1 {
        lemma_unload_some(orders, served, state, to, upto - 1, i);
    }
}

/// Whether order `i` of `served` gives the train that stands at `here` a
/// reason to go to `to`: it waits at `here` or at `to`, or it is on board
/// and has to go to `to`.
pub open spec fn wanted(orders: Seq<Order>, served: Seq<usize>, state: Seq<u8>, here: Seq<char>, to: Seq<char>, i: int) -> bool {
    let order = orders[served[i] as int];
    (state[i] == 0 && (order.location@ == here || order.location@ == to)) || (state[i] == 1 && order.destination@ == to)
}

/// Whether some order of `served` gives the train that stands at `here` a
/// reason to go to `to`.
pub open spec fn needed(orders: Seq<Order>, served: Seq<usize>, state: Seq<u8>, here: Seq<char>, to: Seq<char>) -> bool {
    exists|i: int| 0 <= i < served.len() && #[trigger] wanted(orders, served, state, here, to, i)
}

/// Whether some order of `served` gives the train that stands at `here` a
/// reason to go to `to`.
pub(crate) fn is_needed(orders: &Vec<Order>, served: &Vec<usize>, state: &Vec<u8>, here: &Station, to: &Station) -> (yes: bool)
    requires
        state@.len() == served@.len(),
        forall|i: int| 0 <= i < served@.len() ==> #[trigger] served@[i] < orders@.len(),
    ensures
        yes == needed(orders@, served@, state@, here@, to@),
{
    let mut i: usize = 0;
    while i < served.len()
        invariant
            i <= served@.len(),
            state@.len() == served@.len(),
            forall|i: int| 0 <= i < served@.len() ==> #[trigger] served@[i] < orders@.len(),
            forall|j: int| 0 <= j < i ==> !#[trigger] wanted(orders@, served@, state@, here@, to@, j),
        decreases served@.len() - i,
    {
        let order = &orders[served[i]];
        if (state[i] == 0 && (order.location.same(here) || order.location.same(to))) || (state[i] == 1
            && order.destination.same(to)) {
            assert(wanted(orders@, served@, state@, here@, to@, i as int));
            return true;
        }
        i += 1;
    }
    false
}

/// Where the train that stands before call `c` of `calls` ends, and the
/// legs it makes from there on. At a call where it stands already it makes
/// no leg, nor to a call behind the first to which no order gives it a
/// reason to go. On leaving for any call but the first it takes on board the
/// orders that wait where it stands; on reaching a call it sets down those
/// on board that have to go there.
pub open spec fn routed(
    network: &Network,
    orders: Seq<Order>,
    served: Seq<usize>,
    calls: Seq<Station>,
    c: int,
    train: Train,
    state: Seq<u8>,
) -> (Train, Seq<Leg>)
    decreases calls.len() - c,
{
    if c < 0 || c >= calls.len() {
        (train, Seq::empty())
    } else if train.location@ == calls[c]@ || (c > 0 && !needed(orders, served, state, train.location@, calls[c]@)) {
        routed(network, orders, served, calls, c + 1, train, state)
    } else {
        let here = train.location@;
        let to = calls[c];
        let mid = if c > 0 {
            after_load(orders, served, state, here)
        } else {
            state
        };
        let leg = Leg {
            time: train.traveled_time,
            train: train.name@,
            from: here,
            load: if c > 0 {
                load_names(orders, served, state, here, served.len() as int)
            } else {
                Seq::empty()
            },
            to: to@,
            unload: unload_names(orders, served, mid, to@, served.len() as int),
        };
        let moved = Train {
            name: train.name,
            capacity: train.capacity,
            location: to,
            traveled_time: (train.traveled_time + network.dist(here, to@)) as u32,
        };
        let rest = routed(network, orders, served, calls, c + 1, moved, after_unload(orders, served, mid, to@));
        (rest.0, seq![leg] + rest.1)
    }
}

/// The states of `n` orders that all still wait.
pub open spec fn all_waiting(n: nat) -> Seq<u8> {
    Seq::new(n, |i: int| 0u8)
}

/// Takes on board the orders among `served` that wait at `at` and are not
/// on board yet, and gives their names.
pub(crate) fn take_on(orders: &Vec<Order>, served: &Vec<usize>, state: &mut Vec<u8>, at: &Station) -> (load: Vec<String>)
    requires
        old(state)@.len() == served@.len(),
        forall|i: int| 0 <= i < served@.len() ==> #[trigger] served@[i] < orders@.len(),
        forall|i: int, j: int| 0 <= i < j < served@.len() ==> served@[i] != served@[j],
        forall|i: int| 0 <= i < served@.len() ==> !orders@[#[trigger] served@[i] as int].delivered(),
    ensures
        final(state)@.len() == served@.len(),
        part_of(orders@, served@, load@),
        forall|a: int| 0 <= a < load@.len() ==> picked_up(orders@, (#[trigger] load@[a])@, at@),
        counted(orders@, served@, final(state)@, 1, served@.len() as int) =~= counted(
            orders@,
            served@,
            old(state)@,
            1,
            served@.len() as int,
        ).add(labels(load@).to_multiset()),
        final(state)@ == after_load(orders@, served@, old(state)@, at@),
        labels(load@) == load_names(orders@, served@, old(state)@, at@, served@.len() as int),
        forall|i: int|
            0 <= i < served@.len() ==> #[trigger] final(state)@[i] == if old(state)@[i] == 0 && orders@[served@[i] as int].location@
                == at@ {
                1u8
            } else {
                old(state)@[i]
            },
{
    let mut load: Vec<String> = Vec::new();
    let ghost mut picks: Seq<usize> = Seq::empty();
    let mut i: usize = 0;
    proof {
        assert(labels(load@) =~= Seq::<Seq<char>>::empty());
        vstd::seq_lib::to_multiset_len(Seq::<Seq<char>>::empty());
        assert(labels(load@).to_multiset() =~= Multiset::<Seq<char>>::empty());
    }
    while i < served.len()
        invariant
            i <= served@.len(),
            state@.len() == served@.len(),
            forall|i: int| 0 <= i < served@.len() ==> #[trigger] served@[i] < orders@.len(),
            forall|i: int, j: int| 0 <= i < j < served@.len() ==> served@[i] != served@[j],
            forall|i: int| 0 <= i < served@.len() ==> !orders@[#[trigger] served@[i] as int].delivered(),
            forall|a: int| 0 <= a < load@.len() ==> picked_up(orders@, (#[trigger] load@[a])@, at@),
            labels(load@) == load_names(orders@, served@, old(state)@, at@, i as int),
            counted(orders@, served@, state@, 1, served@.len() as int) =~= counted(
                orders@,
                served@,
                old(state)@,
                1,
                served@.len() as int,
            ).add(labels(load@).to_multiset()),
            picks.len() == load@.len(),
            forall|j: int|
                0 <= j < i ==> #[trigger] state@[j] == if old(state)@[j] == 0 && orders@[served@[j] as int].location@
                    == at@ {
                    1u8
                } else {
                    old(state)@[j]
                },
            forall|j: int| i <= j < served@.len() ==> #[trigger] state@[j] == old(state)@[j],
            forall|a: int| 0 <= a < picks.len() ==> exists|j: int| 0 <= j < i && served@[j] == #[trigger] picks[a],
            forall|a: int, b: int| 0 <= a < b < picks.len() ==> picks[a] != picks[b],
            forall|a: int| 0 <= a < picks.len() ==> orders@[#[trigger] picks[a] as int].name@ == load@[a]@,
            weight_of(orders@, picks) <= weight_of(orders@, served@.take(i as int)),
        decreases served@.len() - i,
    {
        proof {
            assert(served@.take(i + 1).drop_last() =~= served@.take(i as int));
        }
        if state[i] == 0 && orders[served[i]].location.same(at) {
            let ghost before = picks;
            let ghost was = state@;
            let ghost load_before = load@;
            load.push(orders[served[i]].name.clone());
            state.set(i, 1);
            proof {
                lemma_counted_one_more(orders@, served@, was, 1, served@.len() as int, i as int, 1);
                assert(labels(load@) =~= labels(load_before).push(orders@[served@[i as int] as int].name@));
                to_multiset_build(labels(load_before), orders@[served@[i as int] as int].name@);
                assert forall|a: int| 0 <= a < load@.len() implies picked_up(orders@, (#[trigger] load@[a])@, at@) by {
                    if a < load_before.len() {
                        assert(load@[a] == load_before[a]);
                    } else {
                        assert(waits(orders@[served@[i as int] as int], load@[a]@, at@));
                    }
                }
                picks = before.push(served@[i as int]);
                assert(picks.drop_last() =~= before);
                assert forall|a: int| 0 <= a < picks.len() implies exists|j: int|
                    0 <= j < i + 1 && served@[j] == #[trigger] picks[a] by {
                    if a < before.len() {
                        let j = choose|j: int| 0 <= j < i && served@[j] == #[trigger] before[a];
                        assert(served@[j] == picks[a]);
                    } else {
                        assert(served@[i as int] == picks[a]);
                    }
                }
                assert forall|a: int, b: int| 0 <= a < b < picks.len() implies picks[a] != picks[b] by {
                    if b == before.len() {
                        let j = choose|j: int| 0 <= j < i && served@[j] == #[trigger] before[a];
                        assert(served@[j] != served@[i as int]);
                    } else {
                        assert(before[a] != before[b]);
                    }
                }
            }
        }
        i += 1;
    }
    proof {
        assert(served@.take(i as int) =~= served@);
        assert forall|a: int| 0 <= a < picks.len() implies #[trigger] picks[a] < orders@.len() by {
            let j = choose|j: int| 0 <= j < i && served@[j] == #[trigger] picks[a];
        }
        assert(picks.len() == load@.len());
        assert(state@ =~= after_load(orders@, served@, old(state)@, at@));
    }
    load
}

/// Sets down the orders among `served` that are on board and have to go to
/// `to`, and gives their names.
pub(crate) fn set_down(orders: &Vec<Order>, served: &Vec<usize>, state: &mut Vec<u8>, to: &Station) -> (unload: Vec<String>)
    requires
        old(state)@.len() == served@.len(),
        forall|i: int| 0 <= i < served@.len() ==> #[trigger] served@[i] < orders@.len(),
        forall|i: int| 0 <= i < served@.len() ==> !orders@[#[trigger] served@[i] as int].delivered(),
    ensures
        final(state)@.len() == served@.len(),
        forall|a: int| 0 <= a < unload@.len() ==> brought(orders@, (#[trigger] unload@[a])@, to@),
        final(state)@ == after_unload(orders@, served@, old(state)@, to@),
        labels(unload@) == unload_names(orders@, served@, old(state)@, to@, served@.len() as int),
        forall|i: int|
            0 <= i < served@.len() ==> #[trigger] final(state)@[i] == if old(state)@[i] == 1 && orders@[served@[i] as int].destination@
                == to@ {
                2u8
            } else {
                old(state)@[i]
            },
        counted(orders@, served@, final(state)@, 2, served@.len() as int) =~= counted(orders@, served@, old(state)@, 2, served@.len() as int).add(labels(unload@).to_multiset()),
{
    let mut unload: Vec<String> = Vec::new();
    let mut i: usize = 0;
    proof {
        assert(labels(unload@) =~= Seq::<Seq<char>>::empty());
        vstd::seq_lib::to_multiset_len(Seq::<Seq<char>>::empty());
        assert(labels(unload@).to_multiset() =~= Multiset::<Seq<char>>::empty());
    }
    while i < served.len()
        invariant
            i <= served@.len(),
            state@.len() == served@.len(),
            forall|i: int| 0 <= i < served@.len() ==> #[trigger] served@[i] < orders@.len(),
            forall|i: int| 0 <= i < served@.len() ==> !orders@[#[trigger] served@[i] as int].delivered(),
            forall|a: int| 0 <= a < unload@.len() ==> brought(orders@, (#[trigger] unload@[a])@, to@),
            labels(unload@) == unload_names(orders@, served@, old(state)@, to@, i as int),
            forall|j: int|
                0 <= j < i ==> #[trigger] state@[j] == if old(state)@[j] == 1 && orders@[served@[j] as int].destination@
                    == to@ {
                    2u8
                } else {
                    old(state)@[j]
                },
            forall|j: int| i <= j < served@.len() ==> #[trigger] state@[j] == old(state)@[j],
            counted(orders@, served@, state@, 2, served@.len() as int) =~= counted(orders@, served@, old(state)@, 2, served@.len() as int).add(labels(unload@).to_multiset()),
        decreases served@.len() - i,
    {
        if state[i] == 1 && orders[served[i]].destination.same(to) {
            let ghost was = state@;
            let ghost names_before = labels(unload@);
            let ghost unload_before = unload@;
            unload.push(orders[served[i]].name.clone());
            state.set(i, 2);
            proof {
                assert forall|a: int| 0 <= a < unload@.len() implies brought(orders@, (#[trigger] unload@[a])@, to@) by {
                    if a < unload_before.len() {
                        assert(unload@[a] == unload_before[a]);
                    } else {
                        assert(goes(orders@[served@[i as int] as int], unload@[a]@, to@));
                    }
                }
                lemma_counted_one_more(orders@, served@, was, 2, served@.len() as int, i as int, 2);
                assert(labels(unload@) =~= names_before.push(orders@[served@[i as int] as int].name@));
                to_multiset_build(names_before, orders@[served@[i as int] as int].name@);
            }
        }
        i += 1;
    }
    assert(state@ =~= after_unload(orders@, served@, old(state)@, to@));
    unload
}

/// Whether the leg is one of `train` and takes on board nothing, or a part
/// of `served`.
pub open spec fn carried(leg: Move, orders: Seq<Order>, served: Seq<usize>, train: Train) -> bool {
    leg.train@ == train.name@ && (leg.load@.len() > 0 ==> part_of(orders, served, leg.load@))
}

/// Whether `after` is `before` followed by legs of the train that was
/// `start` and now is `end`: the train is the same, its clock is no
/// earlier, no new leg ends after it, and if the clock moved, a new leg
/// ends at it.
pub open spec fn trip(network: &Network, before: Seq<Move>, after: Seq<Move>, start: Train, end: Train) -> bool {
    &&& twin(end, start)
    &&& end.traveled_time >= start.traveled_time
    &&& network.has(end.location@)
    &&& before.len() <= after.len()
    &&& forall|j: int| 0 <= j < before.len() ==> #[trigger] after[j] == before[j]
    &&& forall|j: int| before.len() <= j < after.len() ==> ends_by(network, #[trigger] after[j], end)
    &&& end.traveled_time == start.traveled_time || exists|j: int|
        before.len() <= j < after.len() && #[trigger] ends_at(network, after[j], end)
}

/// Whether an order in the given state is where it should be when the
/// train stands at `here` and has `done` calls behind it: set down; or
/// still waiting, with its station ahead or under the train; or on board,
/// with its destination ahead.
pub open spec fn in_step(order: Order, calls: Seq<Station>, done: int, here: Seq<char>, state: u8) -> bool {
    state == 2 || exists|a: int, b: int|
        #[trigger] visits(order, calls, a, b) && if state == 0 {
            done <= a || (here == order.location@ && done <= b)
        } else {
            state == 1 && here != order.destination@ && done <= b
        }
}

/// One call further, an order is still where it should be.
pub(crate) proof fn lemma_next_call(
    order: Order,
    calls: Seq<Station>,
    done: int,
    here: Seq<char>,
    state: u8,
    moved: bool,
    may_load: bool,
    next: u8,
)
    requires
        0 <= done < calls.len(),
        !order.delivered(),
        in_step(order, calls, done, here, state),
        moved ==> here != calls[done]@,
        !moved && here != calls[done]@ ==> !(state == 0 && (order.location@ == here || order.location@
            == calls[done]@)) && !(state == 1 && order.destination@ == calls[done]@),
        may_load ==> moved,
        next == if !moved {
            state
        } else {
            let mid = if may_load && state == 0 && order.location@ == here {
                1u8
            } else {
                state
            };
            if mid == 1 && order.destination@ == calls[done]@ {
                2u8
            } else {
                mid
            }
        },
        !may_load && moved ==> done == 0,
    ensures
        in_step(order, calls, done + 1, if moved || here == calls[done]@ { calls[done]@ } else { here }, next),
{
    if next != 2 {
        let (a, b) = choose|a: int, b: int|
            #[trigger] visits(order, calls, a, b) && if state == 0 {
                done <= a || (here == order.location@ && done <= b)
            } else {
                state == 1 && here != order.destination@ && done <= b
            };
        assert(visits(order, calls, a, b));
    }
}

/// Sends `train` to the first of `calls` if it stands elsewhere, and then
/// on to each further call. On leaving a call it takes on board the orders
/// among `served` that wait there; on reaching one it sets down those on
/// board that have to go there. A call at which the train already stands
/// costs no leg.
pub(crate) fn run_route(
    network: &Network,
    train: Train,
    orders: &Vec<Order>,
    served: &Vec<usize>,
    calls: &Vec<Station>,
    moves: &mut Vec<Move>,
    Ghost(fleet): Ghost<Seq<Train>>,
) -> (moved: Train)
    requires
        network.wf(),
        network.has(train.location@),
        all_known(network, calls@),
        forall|i: int| 0 <= i < served@.len() ==> #[trigger] served@[i] < orders@.len(),
        forall|i: int, j: int| 0 <= i < j < served@.len() ==> served@[i] != served@[j],
        forall|i: int|
            0 <= i < served@.len() ==> !orders@[#[trigger] served@[i] as int].delivered() && on_the_way(
                orders@[served@[i] as int],
                calls@,
            ),
        calls@.len() > 0 ==> starts_at(orders@, served@, calls@[0]@),
        train.traveled_time + span(network.longest as int, calls@.len() as int) <= u32::MAX,
    ensures
        moved == routed(network, orders@, served@, calls@, 0, train, all_waiting(served@.len())).0,
        legs(final(moves)@) == legs(old(moves)@) + routed(
            network,
            orders@,
            served@,
            calls@,
            0,
            train,
            all_waiting(served@.len()),
        ).1,
        unloaded(final(moves)@).to_multiset() =~= unloaded(old(moves)@).to_multiset().add(
            named(orders@, served@).to_multiset(),
        ),
        loaded(final(moves)@).to_multiset() =~= loaded(old(moves)@).to_multiset().add(
            named(orders@, served@).to_multiset(),
        ),
        forall|j: int| old(moves)@.len() <= j < final(moves)@.len() ==> rightly_handled(#[trigger] final(moves)@[j], orders@),
        trip(network, old(moves)@, final(moves)@, train, moved),
        forall|j: int| old(moves)@.len() <= j < final(moves)@.len() ==> carried(#[trigger] final(moves)@[j], orders@, served@, train),
        moved.traveled_time <= train.traveled_time + span(network.longest as int, calls@.len() as int),
        no_idle_legs(old(moves)@) ==> no_idle_legs(final(moves)@),
        contiguous(network, fleet, old(moves)@) && at_rest(network, fleet, old(moves)@, train) ==> {
            &&& contiguous(network, fleet, final(moves)@)
            &&& at_rest(network, fleet, final(moves)@, moved)
            &&& forall|other: Train|
                other.name@ != train.name@ && at_rest(network, fleet, old(moves)@, other) ==> #[trigger] at_rest(network, fleet, final(moves)@, other)
        },
{
    let ghost start = train;
    let ghost before = moves@;
    let mut train = train;
    let mut state: Vec<u8> = Vec::new();
    let mut i: usize = 0;
    while i < served.len()
        invariant
            i <= served@.len(),
            state@.len() == i,
            forall|j: int| 0 <= j < i ==> #[trigger] state@[j] == 0,
        decreases served@.len() - i,
    {
        state.push(0);
        i += 1;
    }
    proof {
        assert forall|i: int| 0 <= i < served@.len() implies in_step(
            orders@[#[trigger] served@[i] as int],
            calls@,
            0,
            train.location@,
            state@[i],
        ) by {
            let (a, b) = choose|a: int, b: int| #[trigger] visits(orders@[served@[i] as int], calls@, a, b);
            assert(visits(orders@[served@[i] as int], calls@, a, b));
        }
        lemma_counted_none(orders@, served@, state@, 2, served@.len() as int);
        lemma_counted_none(orders@, served@, state@, 1, served@.len() as int);
    }
    assert(state@ =~= all_waiting(served@.len()));
    let ghost whole = routed(network, orders@, served@, calls@, 0, start, all_waiting(served@.len()));
    assert(legs(moves@) + whole.1 =~= legs(before) + whole.1);
    let mut c: usize = 0;
    while c < calls.len()
        invariant
            c <= calls@.len(),
            whole == routed(network, orders@, served@, calls@, 0, start, all_waiting(served@.len())),
            whole.0 == routed(network, orders@, served@, calls@, c as int, train, state@).0,
            legs(before) + whole.1 == legs(moves@) + routed(network, orders@, served@, calls@, c as int, train, state@).1,
            network.wf(),
            all_known(network, calls@),
            forall|i: int| 0 <= i < served@.len() ==> #[trigger] served@[i] < orders@.len(),
            forall|i: int, j: int| 0 <= i < j < served@.len() ==> served@[i] != served@[j],
            forall|i: int| 0 <= i < served@.len() ==> !orders@[#[trigger] served@[i] as int].delivered(),
            calls@.len() > 0 ==> starts_at(orders@, served@, calls@[0]@),
            forall|i: int|
                0 <= i < served@.len() ==> in_step(
                    orders@[#[trigger] served@[i] as int],
                    calls@,
                    c as int,
                    train.location@,
                    state@[i],
                ),
            unloaded(moves@).to_multiset() =~= unloaded(before).to_multiset().add(
                counted(orders@, served@, state@, 2, served@.len() as int),
            ),
            loaded(moves@).to_multiset() =~= loaded(before).to_multiset().add(
                counted(orders@, served@, state@, 1, served@.len() as int),
            ),
            before.len() <= moves@.len(),
            forall|j: int| before.len() <= j < moves@.len() ==> rightly_handled(#[trigger] moves@[j], orders@),
            no_idle_legs(before) ==> no_idle_legs(moves@),
            contiguous(network, fleet, before) && at_rest(network, fleet, before, start) ==> {
                &&& contiguous(network, fleet, moves@)
                &&& at_rest(network, fleet, moves@, train)
                &&& forall|other: Train|
                    other.name@ != start.name@ && at_rest(network, fleet, before, other) ==> #[trigger] at_rest(network, fleet, moves@, other)
            },
            state@.len() == served@.len(),
            train.traveled_time + span(network.longest as int, calls@.len() - c) <= u32::MAX,
            train.traveled_time + span(network.longest as int, calls@.len() - c) <= start.traveled_time + span(
                network.longest as int,
                calls@.len() as int,
            ),
            trip(network, before, moves@, start, train),
            forall|j: int| before.len() <= j < moves@.len() ==> carried(#[trigger] moves@[j], orders@, served@, start),
        decreases calls@.len() - c,
    {
        let to = &calls[c];
        proof {
            lemma_span(network.longest as int, calls@.len() - c - 1);
        }
        let ghost state_before = state@;
        let ghost here = train.location@;
        let go = !train.location.same(to) && (c == 0 || is_needed(orders, served, &state, &train.location, to));
        if go {
            let load = if c > 0 {
                take_on(orders, served, &mut state, &train.location)
            } else {
                Vec::new()
            };
            let ghost state_mid = state@;
            let ghost load_names = load@;
            let unload = set_down(orders, served, &mut state, to);
            let ghost early = moves@;
            let ghost was = train;
            proof {
                if c == 0 {
                    assert(labels(load_names) =~= Seq::<Seq<char>>::empty());
                    vstd::seq_lib::to_multiset_len(Seq::<Seq<char>>::empty());
                    assert(labels(load_names).to_multiset() =~= Multiset::<Seq<char>>::empty());
                }
            }
            train = send(network, train, to, load, unload, moves);
            proof {
                lemma_distance_bounded(*network, was.location@, to@);
                assert forall|j: int| 0 <= j < early.len() implies #[trigger] moves@[j] == early[j] by {
                    assert(moves@.drop_last()[j] == moves@[j]);
                }
                assert(ends_at(network, moves@[moves@.len() - 1], train));
                let step = routed(network, orders@, served@, calls@, c as int, was, state_before);
                let rest = routed(network, orders@, served@, calls@, c + 1, train, state@);
                assert(names_in(moves@.last().load@) =~= labels(load_names));
                assert(names_in(moves@.last().unload@) =~= labels(unload@));
                assert(legs(moves@) =~= legs(early).push(moves@.last()@));
                assert(step.1 =~= seq![moves@.last()@] + rest.1);
                assert(legs(moves@) + rest.1 =~= legs(early) + step.1);
                if moves@.last().load@.len() == 0 && moves@.last().unload@.len() == 0 {
                    if c == 0 {
                        let i = choose|i: int| 0 <= i < served@.len() && orders@[#[trigger] served@[i] as int].location@ == calls@[0]@;
                        assert(waits_at(orders@[served@[i] as int], to@));
                    } else {
                        let i = choose|i: int| 0 <= i < served@.len() && #[trigger] wanted(orders@, served@, state_before, here, to@, i);
                        if state_before[i] == 0 && orders@[served@[i] as int].location@ == here {
                            lemma_load_some(orders@, served@, state_before, here, served@.len() as int, i);
                        }
                        if state_before[i] == 1 {
                            assert(state_mid[i] == 1);
                            lemma_unload_some(orders@, served@, state_mid, to@, served@.len() as int, i);
                        }
                        assert(waits_at(orders@[served@[i] as int], to@));
                    }
                }
                assert(rightly_handled(moves@.last(), orders@));
                if no_idle_legs(before) {
                    lemma_no_idle_leg_added(early, moves@);
                }
                if contiguous(network, fleet, before) && at_rest(network, fleet, before, start) {
                    lemma_leg_added(network, fleet, early, moves@, was, train);
                    assert forall|other: Train| other.name@ != start.name@ && at_rest(network, fleet, before, other) implies #[trigger] at_rest(network, fleet, moves@,
                        other,
                    ) by {
                        assert(at_rest(network, fleet, early, other));
                    }
                }
                lemma_counted_same(orders@, served@, state_before, state_mid, 2, served@.len() as int);
                lemma_counted_same(orders@, served@, state_mid, state@, 1, served@.len() as int);
                lemma_multiset_commutative(loaded(early), labels(load_names));
                assert(loaded(moves@) =~= loaded(early) + labels(load_names));
                lemma_multiset_commutative(unloaded(early), labels(unload@));
                assert(unloaded(moves@) =~= unloaded(early) + labels(unload@));
                assert forall|i: int| 0 <= i < served@.len() implies in_step(
                    orders@[#[trigger] served@[i] as int],
                    calls@,
                    c + 1,
                    train.location@,
                    state@[i],
                ) by {
                    lemma_next_call(
                        orders@[served@[i] as int],
                        calls@,
                        c as int,
                        here,
                        state_before[i],
                        true,
                        c > 0,
                        state@[i],
                    );
                }
            }
        } else {
            proof {
                assert forall|i: int| 0 <= i < served@.len() implies in_step(
                    orders@[#[trigger] served@[i] as int],
                    calls@,
                    c + 1,
                    train.location@,
                    state@[i],
                ) by {
                    if here != to@ {
                        assert(!wanted(orders@, served@, state_before, here, to@, i));
                    }
                    lemma_next_call(
                        orders@[served@[i] as int],
                        calls@,
                        c as int,
                        here,
                        state_before[i],
                        false,
                        false,
                        state@[i],
                    );
                }
            }
        }
        c += 1;
    }
    proof {
        lemma_span(network.longest as int, 0);
        assert forall|i: int| 0 <= i < state@.len() implies #[trigger] state@[i] == 2 by {
            assert(in_step(orders@[served@[i] as int], calls@, calls@.len() as int, train.location@, state@[i]));
        }
        lemma_counted_all(orders@, served@, state@, 2, served@.len() as int);
        lemma_counted_all(orders@, served@, state@, 1, served@.len() as int);
        assert(named(orders@, served@).take(served@.len() as int) =~= named(orders@, served@));
    }
    train
}

/// Whether some train of the pool has room for `room` and so can be the
/// nearest to the station called `at`.
pub open spec fn can_serve(network: &Network, pool: Seq<Train>, at: Seq<char>, room: int) -> bool {
    room <= u32::MAX && exists|place: int| #[trigger] nearest(network, pool, at, room as u32, place)
}

/// Whether some train of the pool has room for the candidates from
/// `first` on.
pub open spec fn fits(
    network: &Network,
    pool: Seq<Train>,
    orders: Seq<Order>,
    candidates: Seq<usize>,
    station: Station,
    by_destination: bool,
    first: int,
) -> bool {
    let served = candidates.subrange(first, candidates.len() as int);
    can_serve(
        network,
        pool,
        calls_of(network, orders, served, station, by_destination)[0]@,
        weight_of(orders, served),
    )
}

/// The first place at or behind `first` from which on the candidates fit
/// into some train of the pool; the number of candidates if there is none.
pub open spec fn first_fit(
    network: &Network,
    pool: Seq<Train>,
    orders: Seq<Order>,
    candidates: Seq<usize>,
    station: Station,
    by_destination: bool,
    first: int,
) -> int
    decreases candidates.len() - first,
{
    if first < 0 || first >= candidates.len() {
        candidates.len() as int
    } else if fits(network, pool, orders, candidates, station, by_destination, first) {
        first
    } else {
        first_fit(network, pool, orders, candidates, station, by_destination, first + 1)
    }
}

/// The first fit lies at or behind where the search starts and no further
/// than the end.
pub(crate) proof fn lemma_first_fit_range(
    network: &Network,
    pool: Seq<Train>,
    orders: Seq<Order>,
    candidates: Seq<usize>,
    station: Station,
    by_destination: bool,
    first: int,
)
    requires
        0 <= first <= candidates.len(),
    ensures
        first <= first_fit(network, pool, orders, candidates, station, by_destination, first) <= candidates.len(),
    decreases candidates.len() - first,
{
    if first < candidates.len() && !fits(network, pool, orders, candidates, station, by_destination, first) {
        lemma_first_fit_range(network, pool, orders, candidates, station, by_destination, first + 1);
    }
}

/// The train and the way for the largest part of `candidates` that some
/// train of the pool has room for.
pub struct Assignment {
    /// The place in the pool of the train that serves.
    pub place: usize,
    /// The places of the orders that are served.
    pub served: Vec<usize>,
    /// The stations at which the train calls.
    pub calls: Vec<Station>,
}

/// Looks for a train for the orders at `candidates`, which come heaviest
/// first. While no train of the pool has room for all of them, the
/// heaviest is left out. The train that is taken is the one that can be at
/// the first call soonest. There is none exactly when every one of the
/// orders is too heavy for every train of the pool.
pub(crate) fn assign(
    network: &Network,
    pool: &Vec<Train>,
    orders: &Vec<Order>,
    candidates: &Vec<usize>,
    station: &Station,
    by_destination: bool,
) -> (found: Option<Assignment>)
    requires
        network.wf(),
        network.has(station@),
        stationed(network, pool@),
        orders_known(network, orders@),
        orders@.len() <= u32::MAX,
        forall|i: int| 0 <= i < candidates@.len() ==> #[trigger] candidates@[i] < orders@.len(),
        forall|i: int, j: int| 0 <= i < j < candidates@.len() ==> candidates@[i] != candidates@[j],
        candidates@.len() <= orders@.len(),
        heaviest_first(orders@, candidates@),
        forall|i: int|
            0 <= i < candidates@.len() ==> anchor(orders@[#[trigger] candidates@[i] as int], by_destination)
                == station@,
        span(network.longest as int, candidates@.len() as int) <= u32::MAX,
        forall|i: int| 0 <= i < pool@.len() ==> (#[trigger] pool@[i]).traveled_time + network.longest <= u32::MAX,
    ensures
        match found {
            Some(a) => {
                &&& a.place < pool@.len()
                &&& a.served@ == candidates@.subrange(
                    first_fit(network, pool@, orders@, candidates@, *station, by_destination, 0),
                    candidates@.len() as int,
                )
                &&& a.calls@ == calls_of(network, orders@, a.served@, *station, by_destination)
                &&& starts_at(orders@, a.served@, a.calls@[0]@)
                &&& a.place == serving_place(
                    network,
                    pool@,
                    a.calls@[0]@,
                    weight_of(orders@, a.served@) as u32,
                )
                &&& 0 < a.served@.len() <= candidates@.len()
                &&& a.served@ == candidates@.subrange(candidates@.len() - a.served@.len(), candidates@.len() as int)
                &&& a.calls@.len() == a.served@.len() + 1
                &&& all_known(network, a.calls@)
                &&& weight_of(orders@, a.served@) <= pool@[a.place as int].capacity
                &&& forall|i: int| 0 <= i < a.served@.len() ==> on_the_way(orders@[#[trigger] a.served@[i] as int], a.calls@)
                &&& weight_of(orders@, a.served@) <= u32::MAX
                &&& nearest(network, pool@, a.calls@[0]@, weight_of(orders@, a.served@) as u32, a.place as int)
                &&& a.served@.len() < candidates@.len() ==> forall|t: int|
                    0 <= t < pool@.len() ==> (#[trigger] pool@[t]).capacity < weight_of(
                        orders@,
                        candidates@.subrange(candidates@.len() - a.served@.len() - 1, candidates@.len() as int),
                    )
            },
            None => {
                &&& forall|i: int|
                    0 <= i < candidates@.len() ==> too_heavy(pool@, orders@[#[trigger] candidates@[i] as int].weight)
                &&& first_fit(network, pool@, orders@, candidates@, *station, by_destination, 0) == candidates@.len()
            },
        },
{
    let n = candidates.len();
    let mut total: u64 = 0;
    let mut i: usize = 0;
    while i < n
        invariant
            i <= n,
            n == candidates@.len(),
            n <= u32::MAX,
            forall|i: int| 0 <= i < candidates@.len() ==> #[trigger] candidates@[i] < orders@.len(),
            total == weight_of(orders@, candidates@.take(i as int)),
            total <= i * 0xffff_ffff,
        decreases n - i,
    {
        proof {
            assert(candidates@.take(i + 1).drop_last() =~= candidates@.take(i as int));
        }
        total = total + orders[candidates[i]].weight as u64;
        i += 1;
    }
    assert(candidates@.take(n as int) =~= candidates@.subrange(0, n as int));
    let mut first: usize = 0;
    while first < n
        invariant
            first <= n,
            n == candidates@.len(),
            network.wf(),
            network.has(station@),
            stationed(network, pool@),
            orders_known(network, orders@),
            forall|i: int| 0 <= i < candidates@.len() ==> #[trigger] candidates@[i] < orders@.len(),
            forall|i: int, j: int| 0 <= i < j < candidates@.len() ==> candidates@[i] != candidates@[j],
            forall|i: int|
                0 <= i < candidates@.len() ==> anchor(orders@[#[trigger] candidates@[i] as int], by_destination)
                    == station@,
            span(network.longest as int, candidates@.len() as int) <= u32::MAX,
            forall|i: int| 0 <= i < pool@.len() ==> (#[trigger] pool@[i]).traveled_time + network.longest <= u32::MAX,
            total == weight_of(orders@, candidates@.subrange(first as int, n as int)),
            first_fit(network, pool@, orders@, candidates@, *station, by_destination, 0) == first_fit(
                network,
                pool@,
                orders@,
                candidates@,
                *station,
                by_destination,
                first as int,
            ),
            first > 0 ==> forall|t: int|
                0 <= t < pool@.len() ==> (#[trigger] pool@[t]).capacity < weight_of(
                    orders@,
                    candidates@.subrange(first - 1, n as int),
                ),
        decreases n - first,
    {
        let ghost rest = candidates@.subrange(first as int, n as int);
        proof {
            if total > u32::MAX {
                assert forall|t: int| 0 <= t < pool@.len() implies (#[trigger] pool@[t]).capacity < weight_of(
                    orders@,
                    rest,
                ) by {}
            }
        }
        if total <= u32::MAX as u64 {
            let mut served: Vec<usize> = Vec::new();
            let mut j: usize = first;
            while j < n
                invariant
                    first <= j <= n,
                    n == candidates@.len(),
                    served@ == candidates@.subrange(first as int, j as int),
                decreases n - j,
            {
                served.push(candidates[j]);
                assert(served@ =~= candidates@.subrange(first as int, j + 1));
                j += 1;
            }
            proof {
                lemma_span_grows(network.longest as int, served@.len() as int, n as int);
                assert forall|i: int| 0 <= i < served@.len() implies anchor(
                    orders@[#[trigger] served@[i] as int],
                    by_destination,
                ) == station@ && served@[i] < orders@.len() by {
                    assert(served@[i] == candidates@[first + i]);
                }
            }
            let calls = plan_calls(network, orders, &served, station, by_destination);
            proof {
                assert forall|t: int| 0 <= t < pool@.len() implies arrival(network, #[trigger] pool@[t], calls@[0]@)
                    <= u32::MAX by {
                    lemma_distance_bounded(*network, pool@[t].location@, calls@[0]@);
                }
            }
            match find_nearest_train(network, pool, &calls[0], total as u32) {
                Some((place, _)) => {
                    proof {
                        assert(fits(network, pool@, orders@, candidates@, *station, by_destination, first as int));
                        lemma_nearest_unique(
                            network,
                            pool@,
                            calls@[0]@,
                            total as u32,
                            place as int,
                            serving_place(network, pool@, calls@[0]@, total as u32),
                        );
                    }
                    return Some(Assignment { place, served, calls });
                },
                None => {
                    proof {
                        if fits(network, pool@, orders@, candidates@, *station, by_destination, first as int) {
                            let p = choose|p: int| #[trigger] nearest(network, pool@, calls@[0]@, total as u32, p);
                            assert(pool@[p].capacity >= total as u32);
                        }
                    }
                },
            }
        }
        proof {
            lemma_weight_first(orders@, rest);
            lemma_weight_nonnegative(orders@, rest.drop_first());
            assert(rest.drop_first() =~= candidates@.subrange(first + 1, n as int));
        }
        total = total - orders[candidates[first]].weight as u64;
        first += 1;
    }
    proof {
        if n > 0 {
            let last = candidates@.subrange(n - 1, n as int);
            lemma_weight_first(orders@, last);
            assert(last.drop_first() =~= Seq::<usize>::empty());
            assert(weight_of(orders@, last) == orders@[candidates@[n - 1] as int].weight);
            assert forall|i: int| 0 <= i < n implies too_heavy(pool@, orders@[#[trigger] candidates@[i] as int].weight) by {
                if i < n - 1 {
                    assert(orders@[candidates@[i] as int].weight >= orders@[candidates@[n - 1] as int].weight);
                }
            }
        }
    }
    None
}

/// How many flags are not set.
pub open spec fn open_count(done: Seq<bool>) -> nat
    decreases done.len(),
{
    if done.len() == 0 {
        0
    } else {
        open_count(done.drop_last()) + if done.last() {
            0nat
        } else {
            1nat
        }
    }
}

/// Setting a flag that was not set leaves one fewer unset.
pub(crate) proof fn lemma_open_count_set(done: Seq<bool>, k: int)
    requires
        0 <= k < done.len(),
        !done[k],
    ensures
        open_count(done.update(k, true)) + 1 == open_count(done),
    decreases done.len(),
{
    let next = done.update(k, true);
    if k == done.len() - 1 {
        assert(next.drop_last() =~= done.drop_last());
    } else {
        lemma_open_count_set(done.drop_last(), k);
        assert(next.drop_last() =~= done.drop_last().update(k, true));
    }
}

/// There are no more unset flags than flags; with none unset, all are set;
/// with some unset, one can be named.
pub(crate) proof fn lemma_open_count(done: Seq<bool>)
    ensures
        open_count(done) <= done.len(),
        open_count(done) == 0 ==> forall|k: int| 0 <= k < done.len() ==> #[trigger] done[k],
        open_count(done) > 0 ==> exists|k: int| 0 <= k < done.len() && !#[trigger] done[k],
    decreases done.len(),
{
    if done.len() > 0 {
        lemma_open_count(done.drop_last());
        if open_count(done) == 0 {
            assert forall|k: int| 0 <= k < done.len() implies #[trigger] done[k] by {
                if k < done.len() - 1 {
                    assert(done.drop_last()[k]);
                }
            }
        }
        if open_count(done) > 0 {
            if !done.last() {
                assert(!done[done.len() - 1]);
            } else {
                let k = choose|k: int| 0 <= k < done.len() - 1 && !#[trigger] done.drop_last()[k];
                assert(!done[k]);
            }
        }
    }
}

/// Different waiting orders are no more than there are unset flags.
pub(crate) proof fn lemma_enough_open(done: Seq<bool>, places: Seq<usize>)
    requires
        forall|i: int| 0 <= i < places.len() ==> #[trigger] places[i] < done.len() && !done[places[i] as int],
        forall|i: int, j: int| 0 <= i < j < places.len() ==> places[i] != places[j],
    ensures
        places.len() <= open_count(done),
    decreases places.len(),
{
    if places.len() > 0 {
        let last = places.last() as int;
        let next = done.update(last, true);
        let rest = places.drop_last();
        assert forall|i: int| 0 <= i < rest.len() implies #[trigger] rest[i] < next.len() && !next[rest[i] as int] by {
            assert(rest[i] == places[i]);
            assert(places[i] != places[places.len() - 1]);
        }
        lemma_enough_open(next, rest);
        lemma_open_count_set(done, last);
    }
}

/// Each of some orders weighs no more than all of them together.
pub(crate) proof fn lemma_weight_member(orders: Seq<Order>, picks: Seq<usize>, i: int)
    requires
        0 <= i < picks.len(),
    ensures
        orders[picks[i] as int].weight <= weight_of(orders, picks),
    decreases picks.len(),
{
    lemma_weight_nonnegative(orders, picks.drop_last());
    if i < picks.len() - 1 {
        lemma_weight_member(orders, picks.drop_last(), i);
    }
}

/// Spans add up.
pub(crate) proof fn lemma_span_adds(longest: int, a: int, b: int)
    ensures
        span(longest, a + b) == span(longest, a) + span(longest, b),
{
    assert(longest * (a + b) == longest * a + longest * b) by (nonlinear_arith);
}

/// A leg of a train of the fleet that takes on board a part of orders
/// which the train has room for is within capacity.
pub(crate) proof fn lemma_carried_within(leg: Move, orders: Seq<Order>, served: Seq<usize>, train: Train, fleet: Seq<Train>)
    requires
        carried(leg, orders, served, train),
        descends(train, fleet),
        weight_of(orders, served) <= train.capacity,
    ensures
        within_capacity(leg, orders, fleet),
{
    if leg.load@.len() > 0 {
        reveal(descends);
        let t = choose|t: int| 0 <= t < fleet.len() && #[trigger] twin(train, fleet[t]);
        let picks = choose|picks: Seq<usize>|
            {
                &&& #[trigger] picks.len() == leg.load@.len()
                &&& forall|i: int| 0 <= i < picks.len() ==> #[trigger] picks[i] < orders.len()
                &&& forall|i: int, j: int| 0 <= i < j < picks.len() ==> picks[i] != picks[j]
                &&& forall|i: int| 0 <= i < picks.len() ==> orders[#[trigger] picks[i] as int].name@ == leg.load@[i]@
                &&& weight_of(orders, picks) <= weight_of(orders, served)
            };
        assert(distinct_places(orders, picks));
        assert(weight_of(orders, picks) <= fleet[t].capacity);
    }
}

/// Sets the flags of the orders at `served`, which all still wait, and
/// gives the number of orders that wait afterwards.
pub(crate) fn mark(done: &mut Vec<bool>, served: &Vec<usize>, left: usize) -> (fewer: usize)
    requires
        left == open_count(old(done)@),
        forall|i: int| 0 <= i < served@.len() ==> #[trigger] served@[i] < old(done)@.len() && !old(done)@[served@[i] as int],
        forall|i: int, j: int| 0 <= i < j < served@.len() ==> served@[i] != served@[j],
    ensures
        final(done)@.len() == old(done)@.len(),
        forall|k: int| 0 <= k < old(done)@.len() ==> (#[trigger] final(done)@[k] <==> old(done)@[k] || among(served@, k)),
        fewer == open_count(final(done)@),
        fewer + served@.len() == left,
{
    let mut fewer = left;
    let mut i: usize = 0;
    while i < served.len()
        invariant
            i <= served@.len(),
            done@.len() == old(done)@.len(),
            forall|i: int| 0 <= i < served@.len() ==> #[trigger] served@[i] < old(done)@.len() && !old(done)@[served@[i] as int],
            forall|i: int, j: int| 0 <= i < j < served@.len() ==> served@[i] != served@[j],
            forall|k: int|
                0 <= k < done@.len() ==> (#[trigger] done@[k] <==> old(done)@[k] || among(served@.take(i as int), k)),
            fewer == open_count(done@),
            fewer + i == left,
        decreases served@.len() - i,
    {
        let place = served[i];
        proof {
            if done@[place as int] {
                assert(among(served@.take(i as int), place as int));
                let j = choose|j: int| 0 <= j < i && #[trigger] served@.take(i as int)[j] == place as int;
                assert(served@[j] == served@[i as int]);
            }
            lemma_open_count_set(done@, place as int);
        }
        let ghost before = done@;
        done.set(place, true);
        fewer = fewer - 1;
        proof {
            let shorter = served@.take(i as int);
            let longer = served@.take(i + 1);
            assert forall|k: int| 0 <= k < done@.len() implies (#[trigger] done@[k] <==> old(done)@[k] || among(
                longer,
                k,
            )) by {
                if k == place {
                    assert(longer[i as int] == k);
                } else {
                    assert(done@[k] == before[k]);
                    if among(shorter, k) {
                        let j = choose|j: int| 0 <= j < shorter.len() && #[trigger] shorter[j] == k;
                        assert(longer[j] == k);
                    }
                    if among(longer, k) {
                        let j = choose|j: int| 0 <= j < longer.len() && #[trigger] longer[j] == k;
                        assert(j != i);
                        assert(shorter[j] == k);
                    }
                }
            }
        }
        i += 1;
    }
    assert(served@.take(i as int) =~= served@);
    fewer
}

/// The names of the first `upto` orders that had to travel and have been
/// served.
pub open spec fn served_names(orders: Seq<Order>, done: Seq<bool>, upto: int) -> Multiset<Seq<char>>
    decreases upto,
{
    if upto <= 0 {
        Multiset::empty()
    } else {
        served_names(orders, done, upto - 1).add(
            if done[upto - 1] && !orders[upto - 1].delivered() {
                Multiset::singleton(orders[upto - 1].name@)
            } else {
                Multiset::empty()
            },
        )
    }
}

/// While only the orders that need not travel have their flag set, none
/// has been served.
pub(crate) proof fn lemma_served_none(orders: Seq<Order>, done: Seq<bool>, upto: int)
    requires
        0 <= upto <= done.len(),
        forall|k: int| 0 <= k < done.len() ==> #[trigger] done[k] == orders[k].delivered(),
    ensures
        served_names(orders, done, upto) =~= Multiset::<Seq<char>>::empty(),
    decreases upto,
{
    if upto > 0 {
        lemma_served_none(orders, done, upto - 1);
        assert(done[upto - 1] == orders[upto - 1].delivered());
    }
}

/// Serving one more order adds its name.
pub(crate) proof fn lemma_served_one_more(orders: Seq<Order>, done: Seq<bool>, upto: int, k: int)
    requires
        0 <= k < done.len(),
        0 <= upto <= done.len(),
        !done[k],
        !orders[k].delivered(),
    ensures
        served_names(orders, done.update(k, true), upto) =~= if k < upto {
            served_names(orders, done, upto).insert(orders[k].name@)
        } else {
            served_names(orders, done, upto)
        },
    decreases upto,
{
    if upto > 0 {
        lemma_served_one_more(orders, done, upto - 1, k);
    }
}

/// Serving some orders that waited adds their names.
pub(crate) proof fn lemma_served_more(orders: Seq<Order>, done: Seq<bool>, after: Seq<bool>, served: Seq<usize>)
    requires
        done.len() == orders.len(),
        after.len() == done.len(),
        forall|i: int|
            0 <= i < served.len() ==> #[trigger] served[i] < done.len() && !done[served[i] as int]
                && !orders[served[i] as int].delivered(),
        forall|i: int, j: int| 0 <= i < j < served.len() ==> served[i] != served[j],
        forall|k: int| 0 <= k < done.len() ==> (#[trigger] after[k] <==> done[k] || among(served, k)),
    ensures
        served_names(orders, after, done.len() as int) =~= served_names(orders, done, done.len() as int).add(
            named(orders, served).to_multiset(),
        ),
    decreases served.len(),
{
    let n = done.len() as int;
    if served.len() == 0 {
        assert(after =~= done) by {
            assert forall|k: int| 0 <= k < done.len() implies after[k] == done[k] by {
                assert(after[k] <==> done[k] || among(served, k));
            }
        }
        assert(named(orders, served) =~= Seq::<Seq<char>>::empty());
        vstd::seq_lib::to_multiset_len(Seq::<Seq<char>>::empty());
        assert(named(orders, served).to_multiset() =~= Multiset::<Seq<char>>::empty());
    } else {
        let rest = served.drop_last();
        let x = served.last() as int;
        let mid = Seq::new(done.len(), |k: int| done[k] || among(rest, k));
        assert forall|i: int| 0 <= i < rest.len() implies #[trigger] rest[i] < done.len() && !done[rest[i] as int]
            && !orders[rest[i] as int].delivered() by {
            assert(rest[i] == served[i]);
        }
        assert forall|i: int, j: int| 0 <= i < j < rest.len() implies rest[i] != rest[j] by {
            assert(rest[i] == served[i] && rest[j] == served[j]);
        }
        lemma_served_more(orders, done, mid, rest);
        assert(!among(rest, x)) by {
            if among(rest, x) {
                let i = choose|i: int| 0 <= i < rest.len() && #[trigger] rest[i] == x;
                assert(served[i] == rest[i]);
                assert(served[i] != served[served.len() - 1]);
            }
        }
        assert(!mid[x]);
        assert(after =~= mid.update(x, true)) by {
            assert forall|k: int| 0 <= k < done.len() implies after[k] == mid.update(x, true)[k] by {
                assert(after[k] <==> done[k] || among(served, k));
                if k == x {
                    assert(served[served.len() - 1] == k);
                } else {
                    if among(served, k) {
                        let i = choose|i: int| 0 <= i < served.len() && #[trigger] served[i] == k;
                        assert(rest[i] == k);
                    }
                    if among(rest, k) {
                        let i = choose|i: int| 0 <= i < rest.len() && #[trigger] rest[i] == k;
                        assert(served[i] == k);
                    }
                }
            }
        }
        lemma_served_one_more(orders, mid, n, x);
        assert(named(orders, served) =~= named(orders, rest).push(orders[x].name@));
        to_multiset_build(named(orders, rest), orders[x].name@);
    }
}

/// When every order has its flag set, the names of the served orders are
/// the names of the orders that had to travel.
pub(crate) proof fn lemma_served_all(orders: Seq<Order>, done: Seq<bool>, upto: int)
    requires
        0 <= upto <= done.len(),
        done.len() == orders.len(),
        forall|k: int| 0 <= k < done.len() ==> #[trigger] done[k],
    ensures
        served_names(orders, done, upto) =~= due(orders.take(upto)).to_multiset(),
    decreases upto,
{
    if upto > 0 {
        lemma_served_all(orders, done, upto - 1);
        assert(orders.take(upto).drop_last() =~= orders.take(upto - 1));
        assert(orders.take(upto).last() == orders[upto - 1]);
        assert(done[upto - 1]);
        if !orders[upto - 1].delivered() {
            to_multiset_build(due(orders.take(upto - 1)), orders[upto - 1].name@);
        }
    } else {
        assert(orders.take(upto) =~= Seq::<Order>::empty());
        vstd::seq_lib::to_multiset_len(Seq::<Seq<char>>::empty());
        assert(due(orders.take(upto)).to_multiset() =~= Multiset::<Seq<char>>::empty());
    }
}

/// How far a run has come: the idle trains, which orders need no more
/// service, and the legs so far.
pub struct Progress {
    pub pool: Seq<Train>,
    pub done: Seq<bool>,
    pub legs: Seq<Leg>,
}

/// The flags with those of the orders at `served` set.
pub open spec fn marked(done: Seq<bool>, served: Seq<usize>) -> Seq<bool> {
    Seq::new(done.len(), |k: int| done[k] || among(served, k))
}

/// The run after one group has had its turn. Its orders that still wait
/// are taken heaviest first; while no train has room for all of them the
/// heaviest is left out. The train that can be at the first call soonest
/// serves the rest along its calls and goes to the end of the pool. If
/// every one of the orders is too heavy for every train, nothing changes.
pub open spec fn serve_group(network: &Network, orders: Seq<Order>, by_destination: bool, group: Group, at: Progress) -> Progress {
    let candidates = heaviest_row(orders, at.done, group.places);
    let first = first_fit(network, at.pool, orders, candidates, group.station, by_destination, 0);
    if first >= candidates.len() {
        at
    } else {
        let served = candidates.subrange(first, candidates.len() as int);
        let calls = calls_of(network, orders, served, group.station, by_destination);
        let place = serving_place(network, at.pool, calls[0]@, weight_of(orders, served) as u32);
        let way = routed(network, orders, served, calls, 0, at.pool[place], all_waiting(served.len()));
        Progress { pool: at.pool.remove(place).push(way.0), done: marked(at.done, served), legs: at.legs + way.1 }
    }
}

/// The run after the groups from `g` on have had their turn, one after
/// the other.
pub open spec fn pass(
    network: &Network,
    orders: Seq<Order>,
    by_destination: bool,
    groups: Seq<Group>,
    g: int,
    at: Progress,
) -> Progress
    decreases groups.len() - g,
{
    if g < 0 || g >= groups.len() {
        at
    } else {
        pass(network, orders, by_destination, groups, g + 1, serve_group(network, orders, by_destination, groups[g], at))
    }
}

/// The run at its end: pass follows pass, each over the groups of the
/// orders that wait when it starts, until no order waits. There is no end
/// when a pass serves nothing.
pub open spec fn passes(network: &Network, orders: Seq<Order>, by_destination: bool, at: Progress, fuel: nat) -> Option<Progress>
    decreases fuel,
{
    if open_count(at.done) == 0 {
        Some(at)
    } else if fuel == 0 {
        None
    } else {
        let next = pass(network, orders, by_destination, groups(orders, at.done, by_destination), 0, at);
        if next.done == at.done {
            None
        } else {
            passes(network, orders, by_destination, next, (fuel - 1) as nat)
        }
    }
}

/// The run before its first pass: all trains idle, the orders that are at
/// their destination in no need of service, and no legs.
pub open spec fn at_start(orders: Seq<Order>, trains: Seq<Train>) -> Progress {
    Progress { pool: trains, done: Seq::new(orders.len(), |k: int| orders[k].delivered()), legs: Seq::empty() }
}

/// The legs of the plan that delivery in batches makes, if it makes one.
pub open spec fn batched_legs(network: &Network, orders: Seq<Order>, trains: Seq<Train>, by_destination: bool) -> Option<Seq<Leg>> {
    match passes(network, orders, by_destination, at_start(orders, trains), orders.len()) {
        Some(end) => Some(end.legs),
        None => None,
    }
}

/// Whether the run is in order: the flags are those of the orders, pool
/// and legs fit the fleet, `left` orders wait, no clock can overflow while
/// they are served, only orders that were at their destination or fit into
/// some train have their flag set, and every leg is within capacity.
pub open spec fn steady(
    network: &Network,
    orders: Seq<Order>,
    fleet: Seq<Train>,
    pool: Seq<Train>,
    moves: Seq<Move>,
    done: Seq<bool>,
    left: int,
) -> bool {
    &&& done.len() == orders.len()
    &&& on_course(network, fleet, pool, moves)
    &&& left == open_count(done)
    &&& forall|i: int|
        0 <= i < pool.len() ==> (#[trigger] pool[i]).traveled_time + allowance(network.longest as int, left)
            <= u32::MAX
    &&& forall|k: int|
        0 <= k < done.len() && #[trigger] done[k] ==> orders[k].delivered() || !too_heavy(fleet, orders[k].weight)
    &&& forall|k: int| 0 <= k < done.len() && orders[k].delivered() ==> #[trigger] done[k]
    &&& all_within_capacity(moves, orders, fleet)
    &&& unloaded(moves).to_multiset() =~= served_names(orders, done, done.len() as int)
    &&& tidy(network, fleet, distinct_names(fleet), pool, moves)
    &&& no_idle_legs(moves)
    &&& all_rightly_handled(moves, orders)
    &&& loaded(moves).to_multiset() =~= served_names(orders, done, done.len() as int)
}

/// Whether every order of the batch is too heavy for every train of the
/// fleet.
pub open spec fn hopeless(orders: Seq<Order>, fleet: Seq<Train>, batch: Batch) -> bool {
    forall|i: int| 0 <= i < batch.places@.len() ==> too_heavy(fleet, orders[#[trigger] batch.places@[i] as int].weight)
}

/// After a pass in which every batch was hopeless, some waiting order is
/// too heavy for every train.
pub(crate) proof fn lemma_no_progress(
    orders: Seq<Order>,
    fleet: Seq<Train>,
    done: Seq<bool>,
    by_destination: bool,
    batches: Seq<Batch>,
)
    requires
        done.len() == orders.len(),
        open_count(done) > 0,
        grouped(orders, done, by_destination, batches),
        forall|g: int| 0 <= g < batches.len() ==> hopeless(orders, fleet, #[trigger] batches[g]),
        forall|k: int| 0 <= k < done.len() && orders[k].delivered() ==> #[trigger] done[k],
    ensures
        stuck(orders, fleet),
{
    lemma_open_count(done);
    let k = choose|k: int| 0 <= k < done.len() && !#[trigger] done[k];
    assert(housed(orders, done, by_destination, batches, k));
    let g = choose|g: int|
        0 <= g < batches.len() && (#[trigger] batches[g]).station@ == anchor(orders[k], by_destination);
    assert(batch_ok(orders, done, by_destination, batches[g]));
    assert(belongs(orders, done, by_destination, batches[g].station@, k));
    assert(among(batches[g].places@, k));
    let i = choose|i: int| 0 <= i < batches[g].places@.len() && #[trigger] batches[g].places@[i] == k;
    assert(hopeless(orders, fleet, batches[g]));
    assert(too_heavy(fleet, orders[batches[g].places@[i] as int].weight));
    assert(!orders[k].delivered() && too_heavy(fleet, orders[k].weight));
}

/// Delivers the orders in batches. In every pass the orders that still
/// wait are grouped by the station where they wait or, with
/// `by_destination`, by the station where they have to go, the heaviest
/// group first. Each group is given to the train that can be at its first
/// call soonest; while no train has room for the group the heaviest order
/// is left for a later pass. The run fails exactly when some order that has
/// to travel is too heavy for every train.
#[verifier::rlimit(100)]
#[verifier::spinoff_prover]
pub(crate) fn deliver_batched(network: &Network, trains: Vec<Train>, orders: Vec<Order>, by_destination: bool) -> (plan: Result<
    Output,
    SolveError,
>)
    requires
        ready(network, orders@, trains@),
    ensures
        plan is Err <==> stuck(orders@, trains@),
        plan matches Err(e) ==> e == SolveError::NoProgress,
        plan matches Ok(out) ==> {
            &&& makespan(network, trains@, out.moves@, out.total_time as int)
            &&& all_within_capacity(out.moves@, orders@, trains@)
            &&& unloaded(out.moves@).to_multiset() =~= due(orders@).to_multiset()
            &&& distinct_names(trains@) ==> contiguous(network, trains@, out.moves@)
            &&& no_idle_legs(out.moves@)
            &&& all_rightly_handled(out.moves@, orders@)
            &&& loaded(out.moves@).to_multiset() =~= due(orders@).to_multiset()
            &&& batched_legs(network, orders@, trains@, by_destination) == Some(legs(out.moves@))
        },
        plan is Err ==> batched_legs(network, orders@, trains@, by_destination) is None,
{
    let ghost fleet = trains@;
    let mut pool = trains;
    let mut moves: Vec<Move> = Vec::new();
    let mut done: Vec<bool> = Vec::new();
    let mut left: usize = 0;
    let mut k: usize = 0;
    while k < orders.len()
        invariant
            k <= orders@.len(),
            done@.len() == k,
            left == open_count(done@),
            left <= k,
            forall|j: int| 0 <= j < k ==> #[trigger] done@[j] == orders@[j].delivered(),
        decreases orders@.len() - k,
    {
        let flag = orders[k].is_delivered();
        let ghost before = done@;
        done.push(flag);
        assert(done@.drop_last() =~= before);
        if !flag {
            left += 1;
        }
        k += 1;
    }
    proof {
        lemma_on_course_at_start(network, fleet);
        lemma_span(network.longest as int, orders@.len() as int);
        lemma_span(network.longest as int, left as int);
        lemma_span_grows(network.longest as int, left as int, orders@.len() as int);
        lemma_served_none(orders@, done@, done@.len() as int);
        lemma_tidy_at_start(network, fleet);
        vstd::seq_lib::to_multiset_len(Seq::<Seq<char>>::empty());
        assert(unloaded(moves@) =~= Seq::<Seq<char>>::empty());
        assert(unloaded(moves@).to_multiset() =~= Multiset::<Seq<char>>::empty());
        assert(loaded(moves@) =~= Seq::<Seq<char>>::empty());
    }
    let ghost mut fuel: nat = orders@.len();
    proof {
        assert(done@ =~= at_start(orders@, fleet).done);
        assert(legs(moves@) =~= at_start(orders@, fleet).legs);
    }
    while left > 0
        invariant
            fleet == trains@,
            ready(network, orders@, fleet),
            orders@.len() <= u32::MAX,
            steady(network, orders@, fleet, pool@, moves@, done@, left as int),
            fuel >= left,
            passes(network, orders@, by_destination, at_start(orders@, fleet), orders@.len()) == passes(
                network,
                orders@,
                by_destination,
                (Progress { pool: pool@, done: done@, legs: legs(moves@) }),
                fuel,
            ),
        decreases left,
    {
        let batches = group_places(&orders, &done, by_destination);
        let ghost waiting = done@;
        let ghost left_before = left;
        let ghost before_pass = Progress { pool: pool@, done: done@, legs: legs(moves@) };
        let ghost turns = groups_in(batches@);
        let mut progress = false;
        let mut g: usize = 0;
        while g < batches.len()
            invariant
                turns == groups_in(batches@),
                pass(network, orders@, by_destination, turns, 0, before_pass) == pass(
                    network,
                    orders@,
                    by_destination,
                    turns,
                    g as int,
                    (Progress { pool: pool@, done: done@, legs: legs(moves@) }),
                ),
                g <= batches@.len(),
                fleet == trains@,
                ready(network, orders@, fleet),
                orders@.len() <= u32::MAX,
                steady(network, orders@, fleet, pool@, moves@, done@, left as int),
                waiting.len() == orders@.len(),
                left_before > 0,
                grouped(orders@, waiting, by_destination, batches@),
                !progress ==> done@ == waiting && left == left_before,
                progress ==> left < left_before,
                !progress ==> forall|h: int| 0 <= h < g ==> hopeless(orders@, fleet, #[trigger] batches@[h]),
            decreases batches@.len() - g,
        {
            let batch = &batches[g];
            proof {
                assert(batch_ok(orders@, waiting, by_destination, *batch));
                assert forall|i: int| 0 <= i < batch.places@.len() implies #[trigger] batch.places@[i] < orders@.len() by {
                    assert(belongs(orders@, waiting, by_destination, batch.station@, batch.places@[i] as int));
                }
                assert(belongs(orders@, waiting, by_destination, batch.station@, batch.places@[0] as int));
            }
            let candidates = sort_heaviest_first(&orders, &done, &batch.places);
            let ghost now = Progress { pool: pool@, done: done@, legs: legs(moves@) };
            proof {
                assert(turns[g as int] == batch@);
                lemma_enough_open(done@, candidates@);
                if left == 0 {
                    assert(serve_group(network, orders@, by_destination, turns[g as int], now) == now);
                }
            }
            if left > 0 {
                proof {
                    lemma_enough_open(done@, candidates@);
                    lemma_open_count(done@);
                    lemma_span(network.longest as int, left as int);
                    lemma_span(network.longest as int, left - 1);
                    lemma_span(network.longest as int, 0);
                    lemma_span_grows(network.longest as int, candidates@.len() as int, left as int);
                    lemma_span_grows(network.longest as int, 0, left - 1);
                    assert(pool@[0].traveled_time + allowance(network.longest as int, left as int) <= u32::MAX);
                }
                match assign(network, &pool, &orders, &candidates, &batch.station, by_destination) {
                    None => {
                        proof {
                            assert(serve_group(network, orders@, by_destination, turns[g as int], now) == now);
                            if !progress {
                                assert forall|i: int| 0 <= i < batch.places@.len() implies too_heavy(
                                    fleet,
                                    orders@[#[trigger] batch.places@[i] as int].weight,
                                ) by {
                                    let place = batch.places@[i];
                                    assert(belongs(orders@, waiting, by_destination, batch.station@, place as int));
                                    assert(candidates@.contains(place));
                                    let c = choose|c: int| 0 <= c < candidates@.len() && candidates@[c] == place;
                                    assert(too_heavy(pool@, orders@[candidates@[c] as int].weight));
                                    lemma_no_room_in_fleet(fleet, pool@, orders@[place as int].weight);
                                }
                                assert(hopeless(orders@, fleet, batches@[g as int]));
                            }
                        }
                    },
                    Some(found) => {
                        let place = found.place;
                        let served = found.served;
                        let calls = found.calls;
                        let ghost idle = pool@;
                        let ghost early = moves@;
                        let ghost m = served@.len() as int;
                        proof {
                            lemma_span(network.longest as int, m);
                            lemma_span_adds(network.longest as int, m, 1);
                            lemma_span_adds(network.longest as int, m, left - m);
                            lemma_span_grows(network.longest as int, 1, m);
                            lemma_span(network.longest as int, left - m);
                            lemma_span(network.longest as int, 0);
                            assert(idle[place as int].traveled_time + allowance(network.longest as int, left as int) <= u32::MAX);
                            assert forall|i: int| 0 <= i < served@.len() implies #[trigger] served@[i] < orders@.len()
                                && !done@[served@[i] as int] by {
                                assert(served@[i] == candidates@[candidates@.len() - served@.len() + i]);
                            }
                            assert forall|i: int, j: int| 0 <= i < j < served@.len() implies served@[i] != served@[j] by {
                                assert(served@[i] == candidates@[candidates@.len() - served@.len() + i]);
                                assert(served@[j] == candidates@[candidates@.len() - served@.len() + j]);
                            }
                        }
                        let train = pool.remove(place);
                        let ghost taken = train;
                        let train = run_route(network, train, &orders, &served, &calls, &mut moves, Ghost(fleet));
                        pool.push(train);
                        let ghost marked_before = done@;
                        left = mark(&mut done, &served, left);
                        progress = true;
                        proof {
                            assert(done@ =~= marked(marked_before, served@));
                            let first = first_fit(network, idle, orders@, candidates@, batch.station, by_destination, 0);
                            lemma_first_fit_range(network, idle, orders@, candidates@, batch.station, by_destination, 0);
                            assert(served@.len() == candidates@.len() - first);
                            assert(first < candidates@.len());
                            assert(now.pool == idle && now.done == marked_before && now.legs == legs(early));
                            assert(candidates@ == heaviest_row(orders@, now.done, turns[g as int].places));
                            assert(taken == idle[place as int]);
                            assert(pool@ == idle.remove(place as int).push(train));
                            assert(serve_group(network, orders@, by_destination, turns[g as int], now) == (Progress {
                                pool: pool@,
                                done: done@,
                                legs: legs(moves@),
                            }));
                            lemma_cycled(idle, place as int, train);
                            lemma_back_in_pool(network, fleet, idle, early, place as int, train, pool@, moves@);
                            assert forall|j: int| 0 <= j < moves@.len() implies within_capacity(
                                #[trigger] moves@[j],
                                orders@,
                                fleet,
                            ) by {
                                if j < early.len() {
                                    assert(moves@[j] == early[j]);
                                } else {
                                    lemma_carried_within(moves@[j], orders@, served@, taken, fleet);
                                }
                            }
                            assert forall|i: int| 0 <= i < pool@.len() implies (#[trigger] pool@[i]).traveled_time
                                + allowance(network.longest as int, left as int) <= u32::MAX by {
                                if i < pool@.len() - 1 {
                                    assert(pool@[i] == idle[if i < place { i } else { i + 1 }]);
                                    lemma_span_grows(network.longest as int, left as int, left + m);
                                }
                            }
                            assert forall|k: int| 0 <= k < done@.len() && #[trigger] done@[k] implies orders@[k].delivered()
                                || !too_heavy(fleet, orders@[k].weight) by {
                                if !marked_before[k] {
                                    assert(among(served@, k));
                                    let i = choose|i: int| 0 <= i < served@.len() && #[trigger] served@[i] == k;
                                    lemma_weight_member(orders@, served@, i);
                                    lemma_room_in_fleet(fleet, taken, orders@[k].weight);
                                }
                            }
                            assert forall|k: int| 0 <= k < done@.len() && orders@[k].delivered() implies #[trigger] done@[k] by {
                                assert(marked_before[k]);
                            }
                            lemma_served_more(orders@, marked_before, done@, served@);
                            assert forall|j: int| 0 <= j < moves@.len() implies rightly_handled(
                                #[trigger] moves@[j],
                                orders@,
                            ) by {
                                if j < early.len() {
                                    assert(moves@[j] == early[j]);
                                }
                            }
                            if distinct_names(fleet) {
                                assert(at_rest(network, fleet, early, idle[place as int]));
                                assert forall|i: int| 0 <= i < idle.len() && i != place implies at_rest(network, fleet, moves@,
                                    #[trigger] idle[i],
                                ) by {
                                    if i < place {
                                        assert(idle[i].name@ != idle[place as int].name@);
                                    } else {
                                        assert(idle[place as int].name@ != idle[i].name@);
                                    }
                                    assert(at_rest(network, fleet, early, idle[i]));
                                }
                            }
                            lemma_tidy_cycled(network, fleet, distinct_names(fleet), idle, place as int, train, pool@, moves@);
                        }
                    },
                }
            }
            g += 1;
        }
        proof {
            lemma_open_count(waiting);
            if progress {
                assert(open_count(done@) != open_count(waiting));
                fuel = (fuel - 1) as nat;
            }
        }
        if !progress {
            proof {
                lemma_no_progress(orders@, fleet, done@, by_destination, batches@);
            }
            return Err(SolveError::NoProgress);
        }
    }
    let total = max_time(&pool);
    proof {
        lemma_makespan(network, fleet, pool@, moves@, total);
        lemma_open_count(done@);
        lemma_served_all(orders@, done@, done@.len() as int);
        assert(orders@.take(done@.len() as int) =~= orders@);
        assert forall|k: int| 0 <= k < orders@.len() && !(#[trigger] orders@[k]).delivered() implies !too_heavy(
            fleet,
            orders@[k].weight,
        ) by {
            assert(done@[k]);
        }
    }
    Ok(Output::new(moves, total))
}

} // verus!
