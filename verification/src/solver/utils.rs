use core::ops::Range;
use itertools::structs::Permutations;
use itertools::Itertools;
use vstd::prelude::*;
use crate::model::order::Order;
use crate::model::station::Station;
use crate::model::train::Train;
use crate::network::{lemma_distance_symmetric, Network};
use crate::solver::grouping::{group_places, grouped, groups, groups_in, Batch};

verus! {

/// Whether every train stands at a station of the network.
pub open spec fn stationed(network: &Network, trains: Seq<Train>) -> bool {
    forall|i: int| 0 <= i < trains.len() ==> network.has((#[trigger] trains[i]).location@)
}

/// Whether every station is a station of the network.
pub open spec fn all_known(network: &Network, stops: Seq<Station>) -> bool {
    forall|i: int| 0 <= i < stops.len() ==> network.has((#[trigger] stops[i])@)
}

/// The moment at which `train` can be at the station called `at`.
pub open spec fn arrival(network: &Network, train: Train, at: Seq<char>) -> int {
    train.traveled_time + network.dist(train.location@, at)
}

/// Whether train `i` has room for `room`, and arrives at `at` no later than
/// any other train with that much room and sooner than each such train
/// before it.
pub open spec fn nearest(network: &Network, trains: Seq<Train>, at: Seq<char>, room: u32, i: int) -> bool {
    &&& 0 <= i < trains.len()
    &&& trains[i].capacity >= room
    &&& forall|j: int|
        0 <= j < trains.len() && (#[trigger] trains[j]).capacity >= room ==> {
            &&& arrival(network, trains[i], at) <= arrival(network, trains[j], at)
            &&& j < i ==> arrival(network, trains[i], at) < arrival(network, trains[j], at)
        }
}

/// Looks for the train that can be at `location` soonest among those with a
/// capacity of at least `min_capacity`, and gives its place and its time of
/// arrival. Of several that arrive together the first is taken. There is
/// none exactly when no train has that capacity.
pub fn find_nearest_train(
    network: &Network,
    trains: &Vec<Train>,
    location: &Station,
    min_capacity: u32,
) -> (found: Option<(usize, u32)>)
    requires
        network.wf(),
        network.has(location@),
        stationed(network, trains@),
        forall|i: int|
            0 <= i < trains@.len() && (#[trigger] trains@[i]).capacity >= min_capacity ==> arrival(
                network,
                trains@[i],
                location@,
            ) <= u32::MAX,
    ensures
        match found {
            Some((i, time)) => nearest(network, trains@, location@, min_capacity, i as int) && time
                == arrival(network, trains@[i as int], location@),
            None => forall|i: int| 0 <= i < trains@.len() ==> (#[trigger] trains@[i]).capacity < min_capacity,
        },
{
    let mut found: Option<(usize, u32)> = None;
    let mut k: usize = 0;
    while k < trains.len()
        invariant
            k <= trains@.len(),
            network.wf(),
            network.has(location@),
            stationed(network, trains@),
            forall|i: int|
                0 <= i < trains@.len() && (#[trigger] trains@[i]).capacity >= min_capacity ==> arrival(
                    network,
                    trains@[i],
                    location@,
                ) <= u32::MAX,
            match found {
                Some((i, time)) => nearest(network, trains@.take(k as int), location@, min_capacity, i as int)
                    && time == arrival(network, trains@[i as int], location@),
                None => forall|i: int| 0 <= i < k ==> (#[trigger] trains@[i]).capacity < min_capacity,
            },
        decreases trains@.len() - k,
    {
        let train = &trains[k];
        if train.capacity >= min_capacity {
            let time: u32 = train.traveled_time + network.distance(&train.location, location);
            let better = match found {
                Some((_, least)) => time < least,
                None => true,
            };
            if better {
                found = Some((k, time));
            }
        }
        proof {
            let before = trains@.take(k as int);
            let after = trains@.take(k + 1);
            assert forall|j: int| 0 <= j < k implies #[trigger] after[j] == before[j] by {}
            assert(after[k as int] == trains@[k as int]);
            match found {
                Some((i, time)) => {
                    assert forall|j: int|
                        0 <= j < after.len() && (#[trigger] after[j]).capacity >= min_capacity implies {
                        &&& arrival(network, after[i as int], location@) <= arrival(network, after[j], location@)
                        &&& j < i ==> arrival(network, after[i as int], location@) < arrival(
                            network,
                            after[j],
                            location@,
                        )
                    } by {
                        if j < k {
                            assert(before[j].capacity >= min_capacity);
                        }
                    }
                },
                None => {},
            }
        }
        k += 1;
    }
    assert(trains@.take(k as int) =~= trains@);
    found
}

/// The arrangements of the numbers below `n` in the order in which
/// `itertools::Itertools::permutations` hands them out for `0..n` taken `n`
/// at a time.
pub uninterp spec fn index_permutations(n: nat) -> Seq<Seq<usize>>;

/// Whether `p` holds each number below `n` once.
pub open spec fn arrangement(p: Seq<usize>, n: nat) -> bool {
    &&& p.len() == n
    &&& forall|i: int| 0 <= i < p.len() ==> #[trigger] p[i] < n
    &&& forall|i: int, j: int| 0 <= i < j < p.len() ==> p[i] != p[j]
}

/// The names of the stations, in their order.
pub open spec fn names(stops: Seq<Station>) -> Seq<Seq<char>> {
    Seq::new(stops.len(), |i: int| stops[i]@)
}

/// The stops taken in the order that `p` gives.
pub open spec fn pick(stops: Seq<Station>, p: Seq<usize>) -> Seq<Seq<char>> {
    Seq::new(p.len(), |i: int| stops[p[i] as int]@)
}

/// The length of the way that starts at `start` and calls at `stops` in
/// their order.
pub open spec fn tour(network: &Network, start: Seq<char>, stops: Seq<Seq<char>>) -> int
    decreases stops.len(),
{
    if stops.len() == 0 {
        0
    } else {
        tour(network, start, stops.drop_last()) + network.dist(
            if stops.len() == 1 {
                start
            } else {
                stops[stops.len() - 2]
            },
            stops.last(),
        )
    }
}

/// Whether arrangement `k` of the enumeration gives a way that is no longer
/// than any other arrangement's and shorter than each one's before it.
pub open spec fn first_shortest(network: &Network, start: Seq<char>, stops: Seq<Station>, k: int) -> bool {
    let all = index_permutations(stops.len());
    &&& 0 <= k < all.len()
    &&& forall|j: int|
        0 <= j < all.len() ==> {
            &&& tour(network, start, pick(stops, all[k])) <= tour(network, start, pick(stops, #[trigger] all[j]))
            &&& j < k ==> tour(network, start, pick(stops, all[k])) < tour(network, start, pick(stops, all[j]))
        }
}

/// Only one arrangement is the first shortest.
pub proof fn lemma_first_shortest_unique(network: &Network, start: Seq<char>, stops: Seq<Station>, j: int, k: int)
    requires
        first_shortest(network, start, stops, j),
        first_shortest(network, start, stops, k),
    ensures
        j == k,
{
    let all = index_permutations(stops.len());
    if j < k {
        assert(tour(network, start, pick(stops, all[k])) < tour(network, start, pick(stops, all[j])));
        assert(tour(network, start, pick(stops, all[j])) <= tour(network, start, pick(stops, all[k])));
    }
    if k < j {
        assert(tour(network, start, pick(stops, all[j])) < tour(network, start, pick(stops, all[k])));
        assert(tour(network, start, pick(stops, all[k])) <= tour(network, start, pick(stops, all[j])));
    }
}

/// The arrangement of the shortest way from `start` through `stops`, the
/// first of them in the enumeration if there are several.
pub open spec fn best_order(network: &Network, start: Seq<char>, stops: Seq<Station>) -> Seq<usize> {
    index_permutations(stops.len())[choose|k: int| first_shortest(network, start, stops, k)]
}

/// The stations in the order that `p` gives.
pub open spec fn taken(stops: Seq<Station>, p: Seq<usize>) -> Seq<Station> {
    Seq::new(p.len(), |i: int| stops[p[i] as int])
}

/// The stops in the order of the shortest way from `start` through them.
pub open spec fn best_route(network: &Network, start: Seq<char>, stops: Seq<Station>) -> Seq<Station> {
    taken(stops, best_order(network, start, stops))
}

/// Whether `length` is the length of a shortest way from `start` through
/// all of `stops`: some arrangement gives it and none gives less.
pub open spec fn shortest(network: &Network, start: Seq<char>, stops: Seq<Station>, length: int) -> bool {
    &&& exists|p: Seq<usize>| #[trigger] arrangement(p, stops.len()) && tour(network, start, pick(stops, p)) == length
    &&& forall|p: Seq<usize>| #[trigger] arrangement(p, stops.len()) ==> length <= tour(network, start, pick(stops, p))
}

/// Whether `route` holds the stations of `stops`, each as often as
/// `stops` does, in some order.
pub open spec fn rearranged(stops: Seq<Station>, route: Seq<Station>) -> bool {
    exists|p: Seq<usize>| #[trigger] arrangement(p, stops.len()) && names(route) == pick(stops, p)
}

/// Different numbers below `m` are no more than `m`.
pub(crate) proof fn lemma_pigeonhole(q: Seq<usize>, m: nat)
    requires
        forall|i: int| 0 <= i < q.len() ==> #[trigger] q[i] < m,
        forall|i: int, j: int| 0 <= i < j < q.len() ==> q[i] != q[j],
    ensures
        q.len() <= m,
    decreases m,
{
    if q.len() > 0 {
        if m == 0 {
            assert(q[0] < m);
        } else if exists|i: int| 0 <= i < q.len() && #[trigger] q[i] == m - 1 {
            let i = choose|i: int| 0 <= i < q.len() && #[trigger] q[i] == m - 1;
            let rest = q.remove(i);
            assert forall|k: int| 0 <= k < rest.len() implies #[trigger] rest[k] < (m - 1) as nat by {
                let from = if k < i { k } else { k + 1 };
                assert(rest[k] == q[from]);
                assert(q[from] < m);
                if from < i {
                    assert(q[from] != q[i]);
                } else {
                    assert(q[i] != q[from]);
                }
            }
            assert forall|a: int, b: int| 0 <= a < b < rest.len() implies rest[a] != rest[b] by {
                let fa = if a < i { a } else { a + 1 };
                let fb = if b < i { b } else { b + 1 };
                assert(rest[a] == q[fa] && rest[b] == q[fb]);
            }
            lemma_pigeonhole(rest, (m - 1) as nat);
        } else {
            assert forall|k: int| 0 <= k < q.len() implies #[trigger] q[k] < (m - 1) as nat by {
                assert(q[k] < m);
            }
            lemma_pigeonhole(q, (m - 1) as nat);
        }
    }
}

/// An arrangement of the numbers below `n` holds each of them.
pub(crate) proof fn lemma_arrangement_onto(q: Seq<usize>, n: nat, j: int)
    requires
        arrangement(q, n),
        0 <= j < n,
    ensures
        exists|i: int| 0 <= i < q.len() && #[trigger] q[i] == j,
{
    if !exists|i: int| 0 <= i < q.len() && #[trigger] q[i] == j {
        let r = Seq::new(
            q.len(),
            |i: int|
                if q[i] > j {
                    (q[i] - 1) as usize
                } else {
                    q[i]
                },
        );
        assert forall|i: int| 0 <= i < r.len() implies #[trigger] r[i] < (n - 1) as nat by {
            assert(q[i] < n);
            assert(q[i] != j);
        }
        assert forall|a: int, b: int| 0 <= a < b < r.len() implies r[a] != r[b] by {
            assert(q[a] != q[b]);
            assert(q[a] != j && q[b] != j);
        }
        lemma_pigeonhole(r, (n - 1) as nat);
    }
}

/// The length of a shortest way through some stops does not depend on the
/// order in which the stops are given.
pub proof fn lemma_shortest_in_any_order(
    network: &Network,
    start: Seq<char>,
    stops: Seq<Station>,
    other: Seq<Station>,
    q: Seq<usize>,
    length: int,
    other_length: int,
)
    requires
        arrangement(q, stops.len()),
        other.len() == stops.len(),
        forall|i: int| 0 <= i < other.len() ==> (#[trigger] other[i])@ == stops[q[i] as int]@,
        shortest(network, start, stops, length),
        shortest(network, start, other, other_length),
    ensures
        length == other_length,
{
    let n = stops.len();
    // A best arrangement of the other stops is an arrangement of these.
    let a = choose|p: Seq<usize>| #[trigger] arrangement(p, other.len()) && tour(network, start, pick(other, p)) == other_length;
    let through = Seq::new(n, |i: int| q[a[i] as int]);
    assert(arrangement(through, n)) by {
        assert forall|i: int| 0 <= i < through.len() implies #[trigger] through[i] < n by {
            assert(a[i] < n);
            assert(q[a[i] as int] < n);
        }
        assert forall|i: int, j: int| 0 <= i < j < through.len() implies through[i] != through[j] by {
            assert(a[i] != a[j]);
            assert(a[i] < n && a[j] < n);
            if a[i] < a[j] {
                assert(q[a[i] as int] != q[a[j] as int]);
            } else {
                assert(q[a[j] as int] != q[a[i] as int]);
            }
        }
    }
    assert(pick(stops, through) =~= pick(other, a)) by {
        assert forall|i: int| 0 <= i < n implies pick(stops, through)[i] == pick(other, a)[i] by {
            assert(a[i] < n);
            assert(other[a[i] as int]@ == stops[q[a[i] as int] as int]@);
        }
    }
    assert(length <= other_length);
    // A best arrangement of these stops is an arrangement of the others.
    let b = choose|p: Seq<usize>| #[trigger] arrangement(p, stops.len()) && tour(network, start, pick(stops, p)) == length;
    let back = Seq::new(n, |i: int| (choose|k: int| 0 <= k < q.len() && #[trigger] q[k] == b[i]) as usize);
    lemma_pigeonhole(q, (usize::MAX + 1) as nat);
    assert forall|i: int| 0 <= i < n implies 0 <= (#[trigger] back[i]) < n && q[back[i] as int] == b[i] by {
        assert(b[i] < n);
        lemma_arrangement_onto(q, n, b[i] as int);
        let k = choose|k: int| 0 <= k < q.len() && #[trigger] q[k] == b[i];
        assert(k as usize == k);
    }
    assert(arrangement(back, n)) by {
        assert forall|i: int| 0 <= i < back.len() implies #[trigger] back[i] < n by {
            assert(0 <= back[i] < n && q[back[i] as int] == b[i]);
        }
        assert forall|i: int, j: int| 0 <= i < j < back.len() implies back[i] != back[j] by {
            assert(0 <= back[i] < n && q[back[i] as int] == b[i]);
            assert(0 <= back[j] < n && q[back[j] as int] == b[j]);
            assert(b[i] != b[j]);
        }
    }
    assert(pick(other, back) =~= pick(stops, b)) by {
        assert forall|i: int| 0 <= i < n implies pick(other, back)[i] == pick(stops, b)[i] by {
            assert(0 <= back[i] < n && q[back[i] as int] == b[i]);
            assert(other[back[i] as int]@ == stops[q[back[i] as int] as int]@);
        }
    }
    assert(other_length <= length);
}

/// `itertools::structs::Permutations`, the iterator that hands out
/// arrangements one by one.
#[verifier::external_type_specification]
#[verifier::external_body]
#[verifier::reject_recursive_types(I)]
pub struct ExPermutations<I: Iterator>(Permutations<I>);

/// The arrangements that the iterator has still to hand out, in their
/// order.
pub uninterp spec fn to_come(iter: Permutations<Range<usize>>) -> Seq<Seq<usize>>;

/// Starts `itertools::Itertools::permutations` for `0..n` taken `n` at a
/// time. Taken on trust: every list that is to come holds each number
/// below `n` once, and every such list is among them.
#[verifier::external_body]
fn permutations_of(n: usize) -> (iter: Permutations<Range<usize>>)
    ensures
        to_come(iter) == index_permutations(n as nat),
        forall|k: int| 0 <= k < to_come(iter).len() ==> arrangement(#[trigger] to_come(iter)[k], n as nat),
        forall|p: Seq<usize>|
            arrangement(p, n as nat) ==> exists|k: int| 0 <= k < to_come(iter).len() && #[trigger] to_come(iter)[k] == p,
{
    (0..n).permutations(n)
}

/// Takes the next arrangement with the iterator's `next`. Taken on trust:
/// it is the first of those to come, and the others are still to come;
/// there is none exactly when none is to come.
#[verifier::external_body]
fn next_permutation(iter: &mut Permutations<Range<usize>>) -> (next: Option<Vec<usize>>)
    ensures
        match next {
            Some(order) => to_come(*old(iter)).len() > 0 && order@ == to_come(*old(iter))[0] && to_come(*final(iter))
                == to_come(*old(iter)).drop_first(),
            None => to_come(*old(iter)).len() == 0,
        },
{
    iter.next()
}

/// A way is at least as long as each of its beginnings.
pub proof fn lemma_tour_grows(network: &Network, start: Seq<char>, stops: Seq<Seq<char>>, k: int)
    requires
        0 <= k <= stops.len(),
    ensures
        0 <= tour(network, start, stops.take(k)) <= tour(network, start, stops),
    decreases stops.len(),
{
    if stops.len() == 0 {
        assert(stops.take(k) =~= stops);
    } else if k == stops.len() {
        assert(stops.take(k) =~= stops);
        lemma_tour_grows(network, start, stops.drop_last(), k - 1);
    } else {
        lemma_tour_grows(network, start, stops.drop_last(), k);
        assert(stops.drop_last().take(k) =~= stops.take(k));
    }
}

/// The length of the way from `start` through `destinations` in the order
/// that `order` gives.
pub fn route_length(network: &Network, start: &Station, destinations: &Vec<Station>, order: &Vec<usize>) -> (length: u32)
    requires
        network.wf(),
        network.has(start@),
        all_known(network, destinations@),
        forall|i: int| 0 <= i < order@.len() ==> #[trigger] order@[i] < destinations@.len(),
        tour(network, start@, pick(destinations@, order@)) <= u32::MAX,
    ensures
        length == tour(network, start@, pick(destinations@, order@)),
{
    let ghost way = pick(destinations@, order@);
    let mut length: u32 = 0;
    let mut i: usize = 0;
    while i < order.len()
        invariant
            i <= order@.len(),
            network.wf(),
            network.has(start@),
            all_known(network, destinations@),
            forall|i: int| 0 <= i < order@.len() ==> #[trigger] order@[i] < destinations@.len(),
            way == pick(destinations@, order@),
            tour(network, start@, way) <= u32::MAX,
            length == tour(network, start@, way.take(i as int)),
        decreases order@.len() - i,
    {
        let to = &destinations[order[i]];
        let leg = if i == 0 {
            network.distance(start, to)
        } else {
            network.distance(&destinations[order[i - 1]], to)
        };
        proof {
            let next = way.take(i + 1);
            assert(next.drop_last() =~= way.take(i as int));
            assert(next.last() == way[i as int]);
            if i > 0 {
                assert(next[next.len() - 2] == way[i - 1]);
            }
            lemma_tour_grows(network, start@, way, i + 1);
        }
        length = length + leg;
        i += 1;
    }
    assert(way.take(i as int) =~= way);
    length
}

/// The stops in the order that `order` gives.
pub(crate) fn pick_route(destinations: &Vec<Station>, order: &Vec<usize>) -> (route: Vec<Station>)
    requires
        forall|i: int| 0 <= i < order@.len() ==> #[trigger] order@[i] < destinations@.len(),
    ensures
        names(route@) == pick(destinations@, order@),
        route@ == taken(destinations@, order@),
{
    let mut route: Vec<Station> = Vec::new();
    let mut i: usize = 0;
    while i < order.len()
        invariant
            i <= order@.len(),
            forall|i: int| 0 <= i < order@.len() ==> #[trigger] order@[i] < destinations@.len(),
            route@.len() == i,
            forall|j: int| 0 <= j < i ==> #[trigger] route@[j] == destinations@[order@[j] as int],
        decreases order@.len() - i,
    {
        route.push(destinations[order[i]].copy());
        i += 1;
    }
    assert(names(route@) =~= pick(destinations@, order@));
    assert(route@ =~= taken(destinations@, order@));
    route
}

/// Finds the order in which to call at `destinations`, starting from
/// `start`, that makes the way shortest, and gives the stops in that order
/// with the length of the way. Every arrangement is tried; of several
/// shortest ones the first that the enumeration yields is taken.
pub fn calculate_best_route_for_distribution(
    network: &Network,
    start: &Station,
    destinations: &Vec<Station>,
) -> (best: (Vec<Station>, u32))
    requires
        network.wf(),
        network.has(start@),
        all_known(network, destinations@),
        forall|p: Seq<usize>| #[trigger]
            arrangement(p, destinations@.len()) ==> tour(network, start@, pick(destinations@, p))
                <= u32::MAX,
    ensures
        exists|k: int|
            first_shortest(network, start@, destinations@, k) && names(best.0@) == pick(
                destinations@,
                #[trigger] index_permutations(destinations@.len())[k],
            ),
        best.1 == tour(network, start@, names(best.0@)),
        forall|p: Seq<usize>| #[trigger]
            arrangement(p, destinations@.len()) ==> best.1 <= tour(network, start@, pick(destinations@, p)),
        best.0@.len() == destinations@.len(),
        all_known(network, best.0@),
        shortest(network, start@, destinations@, best.1 as int),
        rearranged(destinations@, best.0@),
        best.0@ == best_route(network, start@, destinations@),
{
    let n = destinations.len();
    let mut iter = permutations_of(n);
    let ghost every = index_permutations(n as nat);
    proof {
        let straight = Seq::new(n as nat, |i: int| i as usize);
        assert(arrangement(straight, n as nat));
        assert(every.len() > 0);
        assert(arrangement(every[0], n as nat));
    }
    let mut chosen: Vec<usize> = match next_permutation(&mut iter) {
        Some(order) => order,
        None => Vec::new(),
    };
    let mut least: u32 = route_length(network, start, destinations, &chosen);
    let ghost mut at: int = 0;
    let ghost mut k: int = 1;
    assert(every.drop_first() =~= every.skip(1));
    loop
        invariant_except_break
            to_come(iter) == every.skip(k),
        invariant
            1 <= k <= every.len(),
            n == destinations@.len(),
            network.wf(),
            network.has(start@),
            all_known(network, destinations@),
            forall|p: Seq<usize>| #[trigger]
                arrangement(p, destinations@.len()) ==> tour(network, start@, pick(destinations@, p))
                    <= u32::MAX,
            every == index_permutations(n as nat),
            forall|j: int| 0 <= j < every.len() ==> arrangement(#[trigger] every[j], n as nat),
            forall|p: Seq<usize>|
                arrangement(p, n as nat) ==> exists|j: int| 0 <= j < every.len() && #[trigger] every[j] == p,
            0 <= at < k,
            chosen@ == every[at],
            least == tour(network, start@, pick(destinations@, every[at])),
            forall|j: int|
                0 <= j < k ==> {
                    &&& least <= tour(network, start@, pick(destinations@, #[trigger] every[j]))
                    &&& j < at ==> least < tour(network, start@, pick(destinations@, every[j]))
                },
        ensures
            k == every.len(),
        decreases every.len() - k,
    {
        match next_permutation(&mut iter) {
            Some(order) => {
                proof {
                    assert(every.skip(k)[0] == every[k]);
                    assert(every.skip(k).drop_first() =~= every.skip(k + 1));
                    assert(arrangement(every[k], n as nat));
                }
                let length = route_length(network, start, destinations, &order);
                if length < least {
                    chosen = order;
                    least = length;
                    proof {
                        at = k;
                    }
                }
                proof {
                    k = k + 1;
                }
            },
            None => {
                assert(every.skip(k).len() == 0);
                break;
            },
        }
    }
    assert(arrangement(every[at], n as nat));
    let route = pick_route(destinations, &chosen);
    proof {
        let order = every[at];
        assert(names(route@).len() == pick(destinations@, order).len());
        assert forall|i: int| 0 <= i < route@.len() implies network.has((#[trigger] route@[i])@) by {
            assert(names(route@)[i] == pick(destinations@, order)[i]);
            assert(network.has(destinations@[order[i] as int]@));
        }
        assert(first_shortest(network, start@, destinations@, at));
        lemma_first_shortest_unique(
            network,
            start@,
            destinations@,
            at,
            choose|k: int| first_shortest(network, start@, destinations@, k),
        );
        assert forall|p: Seq<usize>| #[trigger] arrangement(p, destinations@.len()) implies least <= tour(
            network,
            start@,
            pick(destinations@, p),
        ) by {
            let j = choose|j: int| 0 <= j < every.len() && #[trigger] every[j] == p;
            assert(every[j] == p);
        }
        assert(arrangement(order, destinations@.len()) && tour(network, start@, pick(destinations@, order)) == least);
    }
    (route, least)
}

/// The length of the way that calls at `stops` in their order and then
/// ends at `end`, from the first stop on.
pub open spec fn approach(network: &Network, stops: Seq<Seq<char>>, end: Seq<char>) -> int
    decreases stops.len(),
{
    if stops.len() == 0 {
        0
    } else {
        approach(network, stops.drop_first(), end) + network.dist(
            stops[0],
            if stops.len() == 1 {
                end
            } else {
                stops[1]
            },
        )
    }
}

/// Whether every name is a station of the network.
pub open spec fn names_known(network: &Network, stops: Seq<Seq<char>>) -> bool {
    forall|i: int| 0 <= i < stops.len() ==> network.has(#[trigger] stops[i])
}

/// The way out from `end` through some stops is as long as the way back
/// through them to `end`.
pub proof fn lemma_way_back(network: &Network, stops: Seq<Seq<char>>, end: Seq<char>)
    requires
        network.wf(),
        network.has(end),
        names_known(network, stops),
    ensures
        tour(network, end, stops.reverse()) == approach(network, stops, end),
    decreases stops.len(),
{
    let back = stops.reverse();
    if stops.len() > 0 {
        assert(names_known(network, stops.drop_first())) by {
            assert forall|i: int| 0 <= i < stops.drop_first().len() implies network.has(#[trigger] stops.drop_first()[i]) by {
                assert(stops.drop_first()[i] == stops[i + 1]);
            }
        }
        lemma_way_back(network, stops.drop_first(), end);
        assert(back.drop_last() =~= stops.drop_first().reverse());
        assert(back.last() == stops[0]);
        let next = if stops.len() == 1 { end } else { stops[1] };
        if stops.len() > 1 {
            assert(back[back.len() - 2] == stops[1]);
        }
        assert(network.has(stops[0]));
        assert(network.has(next));
        lemma_distance_symmetric(*network, next, stops[0]);
    }
}

/// The stations in the opposite order.
pub(crate) fn reversed(stops: Vec<Station>) -> (back: Vec<Station>)
    ensures
        back@ == stops@.reverse(),
{
    let mut back: Vec<Station> = Vec::new();
    let mut rest = stops;
    let ghost whole = rest@;
    while rest.len() > 0
        invariant
            rest@.len() + back@.len() == whole.len(),
            rest@ == whole.take(rest@.len() as int),
            forall|j: int| 0 <= j < back@.len() ==> #[trigger] back@[j] == whole[whole.len() - 1 - j],
        decreases rest@.len(),
    {
        let last = rest.pop();
        match last {
            Some(stop) => {
                back.push(stop);
            },
            None => {},
        }
        assert(rest@ =~= whole.take(rest@.len() as int));
    }
    assert(back@ =~= whole.reverse());
    back
}

/// Finds the order in which to call at `stations` so that the way which
/// then ends at `destination` is shortest. It is the best order for leaving
/// `destination` and calling at them, walked backwards; the length is that
/// of the way out.
pub fn calculate_best_route_for_collection(
    network: &Network,
    stations: &Vec<Station>,
    destination: &Station,
) -> (best: (Vec<Station>, u32))
    requires
        network.wf(),
        network.has(destination@),
        all_known(network, stations@),
        forall|p: Seq<usize>| #[trigger]
            arrangement(p, stations@.len()) ==> tour(network, destination@, pick(stations@, p))
                <= u32::MAX,
    ensures
        exists|k: int|
            first_shortest(network, destination@, stations@, k) && names(best.0@.reverse()) == pick(
                stations@,
                #[trigger] index_permutations(stations@.len())[k],
            ),
        best.1 == tour(network, destination@, names(best.0@.reverse())),
        forall|p: Seq<usize>| #[trigger]
            arrangement(p, stations@.len()) ==> best.1 <= tour(network, destination@, pick(stations@, p)),
        best.0@.len() == stations@.len(),
        all_known(network, best.0@),
        shortest(network, destination@, stations@, best.1 as int),
        best.1 == approach(network, names(best.0@), destination@),
        rearranged(stations@, best.0@),
        best.0@ == best_route(network, destination@, stations@).reverse(),
{
    let (route, length) = calculate_best_route_for_distribution(network, destination, stations);
    let back = reversed(route);
    assert(back@.reverse() =~= route@);
    proof {
        let p = choose|p: Seq<usize>| #[trigger] arrangement(p, stations@.len()) && names(route@) == pick(stations@, p);
        let r = p.reverse();
        assert(arrangement(r, stations@.len())) by {
            assert forall|i: int| 0 <= i < r.len() implies #[trigger] r[i] < stations@.len() by {
                assert(r[i] == p[p.len() - 1 - i]);
            }
            assert forall|i: int, j: int| 0 <= i < j < r.len() implies r[i] != r[j] by {
                assert(r[i] == p[p.len() - 1 - i]);
                assert(r[j] == p[p.len() - 1 - j]);
                assert(p[p.len() - 1 - j] != p[p.len() - 1 - i]);
            }
        }
        assert(names(back@) =~= pick(stations@, r)) by {
            assert(names(route@).len() == p.len());
            assert forall|i: int| 0 <= i < back@.len() implies names(back@)[i] == pick(stations@, r)[i] by {
                assert(back@[i] == route@[route@.len() - 1 - i]);
                assert(names(route@)[route@.len() - 1 - i] == pick(stations@, p)[route@.len() - 1 - i]);
            }
        }
        assert(names(back@).reverse() =~= names(route@));
        assert forall|i: int| 0 <= i < names(back@).len() implies network.has(#[trigger] names(back@)[i]) by {
            assert(back@[i] == route@[route@.len() - 1 - i]);
            assert(network.has(route@[route@.len() - 1 - i]@));
        }
        lemma_way_back(network, names(back@), destination@);
    }
    assert forall|i: int| 0 <= i < back@.len() implies network.has((#[trigger] back@[i])@) by {
        assert(back@[i] == route@[route@.len() - 1 - i]);
    }
    (back, length)
}

/// Whether `group` is `batch` with the orders themselves in place of
/// their places.
pub open spec fn unpacked(orders: Seq<Order>, batch: Batch, group: (Station, u64, Vec<Order>)) -> bool {
    &&& group.0@ == batch.station@
    &&& group.1 == batch.weight
    &&& group.2@.len() == batch.places@.len()
    &&& forall|i: int| 0 <= i < group.2@.len() ==> #[trigger] group.2@[i] == orders[batch.places@[i] as int]
}

/// Flags for `n` orders of which none is set.
pub open spec fn none_done(n: nat) -> Seq<bool> {
    Seq::new(n, |k: int| false)
}

/// Whether `groups` are the orders grouped by a station: one group for
/// each station, with its orders in their order and their weight taken
/// together, the heaviest group first and, of groups of one weight, the
/// one whose station's name comes later.
pub open spec fn groups_of(orders: Seq<Order>, by_destination: bool, groups: Seq<(Station, u64, Vec<Order>)>) -> bool {
    exists|batches: Seq<Batch>|
        {
            &&& #[trigger] grouped(orders, none_done(orders.len()), by_destination, batches)
            &&& groups_in(batches) == self::groups(orders, none_done(orders.len()), by_destination)
            &&& batches.len() == groups.len()
            &&& forall|g: int| 0 <= g < groups.len() ==> unpacked(orders, batches[g], #[trigger] groups[g])
        }
}

/// Groups all orders by a station and hands out the orders themselves.
pub(crate) fn group_orders(orders: &Vec<Order>, by_destination: bool) -> (groups: Vec<(Station, u64, Vec<Order>)>)
    requires
        orders@.len() <= u32::MAX,
    ensures
        groups_of(orders@, by_destination, groups@),
{
    let mut done: Vec<bool> = Vec::new();
    let mut k: usize = 0;
    while k < orders.len()
        invariant
            k <= orders@.len(),
            done@.len() == k,
            forall|j: int| 0 <= j < k ==> !#[trigger] done@[j],
        decreases orders@.len() - k,
    {
        done.push(false);
        k += 1;
    }
    assert(done@ =~= none_done(orders@.len()));
    let batches = group_places(orders, &done, by_destination);
    let mut groups: Vec<(Station, u64, Vec<Order>)> = Vec::new();
    let mut g: usize = 0;
    while g < batches.len()
        invariant
            g <= batches@.len(),
            done@.len() == orders@.len(),
            grouped(orders@, done@, by_destination, batches@),
            groups@.len() == g,
            forall|h: int| 0 <= h < g ==> unpacked(orders@, batches@[h], #[trigger] groups@[h]),
        decreases batches@.len() - g,
    {
        let batch = &batches[g];
        let mut members: Vec<Order> = Vec::new();
        let mut i: usize = 0;
        while i < batch.places.len()
            invariant
                i <= batch.places@.len(),
                done@.len() == orders@.len(),
                crate::solver::grouping::batch_ok(orders@, done@, by_destination, *batch),
                members@.len() == i,
                forall|j: int| 0 <= j < i ==> #[trigger] members@[j] == orders@[batch.places@[j] as int],
            decreases batch.places@.len() - i,
        {
            assert(crate::solver::grouping::belongs(
                orders@,
                done@,
                by_destination,
                batch.station@,
                batch.places@[i as int] as int,
            ));
            members.push(orders[batch.places[i]].copy());
            i += 1;
        }
        groups.push((batch.station.copy(), batch.weight, members));
        g += 1;
    }
    groups
}

/// Groups the orders by the station where they wait.
pub fn group_orders_by_location(orders: &Vec<Order>) -> (groups: Vec<(Station, u64, Vec<Order>)>)
    requires
        orders@.len() <= u32::MAX,
    ensures
        groups_of(orders@, false, groups@),
{
    group_orders(orders, false)
}

/// Groups the orders by the station where they have to go.
pub fn group_orders_by_destination(orders: &Vec<Order>) -> (groups: Vec<(Station, u64, Vec<Order>)>)
    requires
        orders@.len() <= u32::MAX,
    ensures
        groups_of(orders@, true, groups@),
{
    group_orders(orders, true)
}

} // verus!
