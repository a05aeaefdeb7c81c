use vstd::prelude::*;
use crate::input::Input;
use crate::model::station::Station;
use crate::network::{all_anchored, computed, connected, countable, grid, largest, metric, Network, NetworkError};
use crate::output::Output;
use crate::solver::algorithms::{is_ready, ready, stuck};
use crate::solver::order_sorter::copy_orders;
use crate::solver::{copy_trains, delivers, searched, AlgorithmKind, Solver, SolverResult, SorterKind};

verus! {

/// Why there is no plan for a problem instance.
#[derive(Debug, Clone, Copy, PartialEq, Eq)]
pub enum PlanError {
    /// No distance index could be built.
    Network(NetworkError),
    /// An order or a train is at a station that the network does not
    /// have, there is no train, or a clock could overflow.
    NotReady,
    /// Some order that has to travel is too heavy for every train.
    NoPlan,
}

/// Whether `network` is the distance index of the instance.
pub open spec fn index_of(network: Network, input: &Input) -> bool {
    &&& network.wf()
    &&& network.stations@ == input.stations@
    &&& grid(&network.table) == computed(input.stations@, input.edges@)
}

/// Whether the instance has a distance index.
pub open spec fn buildable(input: &Input) -> bool {
    &&& countable(input.stations@, input.edges@)
    &&& all_anchored(input.stations@, input.edges@)
    &&& connected(computed(input.stations@, input.edges@))
    &&& metric(computed(input.stations@, input.edges@))
}

/// Why an instance that has no distance index has none.
pub open spec fn refusal(input: &Input) -> NetworkError {
    if !countable(input.stations@, input.edges@) {
        NetworkError::TooLarge
    } else if !all_anchored(input.stations@, input.edges@) {
        NetworkError::UnknownStation
    } else if !connected(computed(input.stations@, input.edges@)) {
        NetworkError::Disconnected
    } else {
        NetworkError::Inconsistent
    }
}

/// Whether the instance can be worked on with its distance index.
pub open spec fn workable(input: &Input) -> bool {
    exists|network: Network| #[trigger] index_of(network, input) && ready(&network, input.orders@, input.trains@)
}

/// A table has one largest entry.
pub(crate) proof fn lemma_largest_unique(t: Seq<Seq<u32>>, a: u32, b: u32)
    requires
        largest(t, a),
        largest(t, b),
    ensures
        a == b,
{
    if t.len() > 0 {
        let (i, j) = choose|i: int, j: int| 0 <= i < t.len() && 0 <= j < t.len() && #[trigger] t[i][j] == a;
        assert(t[i][j] <= b);
        let (k, l) = choose|k: int, l: int| 0 <= k < t.len() && 0 <= l < t.len() && #[trigger] t[k][l] == b;
        assert(t[k][l] <= a);
    }
}

/// Two distance indexes of one instance agree on whether it can be worked
/// on.
pub(crate) proof fn lemma_ready_same(one: Network, other: Network, input: &Input)
    requires
        index_of(one, input),
        index_of(other, input),
    ensures
        ready(&one, input.orders@, input.trains@) == ready(&other, input.orders@, input.trains@),
{
    lemma_largest_unique(grid(&one.table), one.longest, other.longest);
}

/// A copy of the stations.
pub(crate) fn copy_stations(stations: &Vec<Station>) -> (copy: Vec<Station>)
    ensures
        copy@ == stations@,
{
    let mut copy: Vec<Station> = Vec::new();
    let mut k: usize = 0;
    while k < stations.len()
        invariant
            k <= stations@.len(),
            copy@ == stations@.take(k as int),
        decreases stations@.len() - k,
    {
        copy.push(stations[k].copy());
        assert(copy@ =~= stations@.take(k + 1));
        k += 1;
    }
    assert(stations@.take(k as int) =~= stations@);
    copy
}

/// The algorithms, in the order in which the search runs them.
pub open spec fn all_algorithm_kinds() -> Seq<AlgorithmKind> {
    seq![AlgorithmKind::SingleOrder, AlgorithmKind::Distribution, AlgorithmKind::Collection]
}

/// The sorters, in the order in which the search tries them.
pub open spec fn all_sorter_kinds() -> Seq<SorterKind> {
    seq![
        SorterKind::Unsorted,
        SorterKind::DistanceAsc,
        SorterKind::DistanceDesc,
        SorterKind::WeightAsc,
        SorterKind::WeightDesc,
        SorterKind::NameAsc,
        SorterKind::NameDesc,
        SorterKind::Random,
    ]
}

/// Every algorithm.
pub fn all_algorithms() -> (kinds: Vec<AlgorithmKind>)
    ensures
        kinds@ == all_algorithm_kinds(),
{
    let mut kinds: Vec<AlgorithmKind> = Vec::new();
    kinds.push(AlgorithmKind::SingleOrder);
    kinds.push(AlgorithmKind::Distribution);
    kinds.push(AlgorithmKind::Collection);
    assert(kinds@ =~= all_algorithm_kinds());
    kinds
}

/// Every sorter.
pub fn all_sorters() -> (kinds: Vec<SorterKind>)
    ensures
        kinds@ == all_sorter_kinds(),
{
    let mut kinds: Vec<SorterKind> = Vec::new();
    kinds.push(SorterKind::Unsorted);
    kinds.push(SorterKind::DistanceAsc);
    kinds.push(SorterKind::DistanceDesc);
    kinds.push(SorterKind::WeightAsc);
    kinds.push(SorterKind::WeightDesc);
    kinds.push(SorterKind::NameAsc);
    kinds.push(SorterKind::NameDesc);
    kinds.push(SorterKind::Random);
    assert(kinds@ =~= all_sorter_kinds());
    kinds
}

/// Plans the delivery of a problem instance: builds the distance index,
/// runs every algorithm on every ordering of the orders, and gives the
/// plan with the smallest total time, the earliest of them if there are
/// several. There is a plan exactly when the instance has a distance index,
/// can be worked on with it, and has no order that is too heavy for every
/// train; each refusal says which of these fails first.
pub fn solve(input: &Input) -> (plan: Result<Output, PlanError>)
    ensures
        plan is Ok <==> buildable(input) && workable(input) && !stuck(input.orders@, input.trains@),
        match plan {
            Ok(out) => exists|network: Network|
                {
                    &&& #[trigger] index_of(network, input)
                    &&& ready(&network, input.orders@, input.trains@)
                    &&& delivers(&network, input.orders@, input.trains@, out)
                    &&& exists|results: Seq<SolverResult>|
                        #[trigger] searched(
                            &network,
                            all_algorithm_kinds(),
                            all_sorter_kinds(),
                            input.orders@,
                            input.trains@,
                            results,
                        ) && results.len() > 0 && results[0].solution == out
                },
            Err(PlanError::Network(e)) => !buildable(input) && e == refusal(input),
            Err(PlanError::NotReady) => buildable(input) && !workable(input),
            Err(PlanError::NoPlan) => buildable(input) && workable(input) && stuck(input.orders@, input.trains@),
        },
{
    let stations = copy_stations(&input.stations);
    let network = match Network::build(stations, &input.edges) {
        Ok(network) => network,
        Err(e) => {
            return Err(PlanError::Network(e));
        },
    };
    assert(index_of(network, input));
    if !is_ready(&network, &input.orders, &input.trains) {
        proof {
            if workable(input) {
                let other = choose|other: Network| #[trigger]
                    index_of(other, input) && ready(&other, input.orders@, input.trains@);
                lemma_ready_same(network, other, input);
            }
        }
        return Err(PlanError::NotReady);
    }
    let solver = Solver::new(all_algorithms(), all_sorters(), &network);
    match solver.best(copy_orders(&input.orders), copy_trains(&input.trains)) {
        Some(out) => Ok(out),
        None => Err(PlanError::NoPlan),
    }
}

} // verus!
