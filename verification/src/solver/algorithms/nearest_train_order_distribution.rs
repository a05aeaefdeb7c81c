use vstd::prelude::*;
use crate::model::order::Order;
use crate::model::train::Train;
use crate::network::Network;
use crate::output::{legs, Output};
use crate::solver::algorithms::batched::{batched_legs, deliver_batched};
use crate::solver::algorithms::{
    all_rightly_handled, all_within_capacity, contiguous, loaded, distinct_names, due, makespan, no_idle_legs, ready, stuck, unloaded,
    Algorithm, SolveError,
};

verus! {

/// Groups the waiting orders by the station where they wait; one train
/// takes a group on board and goes round the destinations by the shortest
/// way.
#[derive(Debug)]
pub struct NearestTrainOrderDistributionAlgorithm;

/// Delivers the orders in batches that share the station where they wait.
/// The train that serves a batch comes to that station, takes the batch on
/// board, and calls at the destinations in the order that makes the way
/// shortest, setting down at each call the orders that have to go there.
/// The run fails exactly when some order that has to travel is too heavy
/// for every train.
pub fn deliver_order_by_nearest_train_multiload_distribution(
    network: &Network,
    trains: Vec<Train>,
    orders: Vec<Order>,
) -> (plan: Result<Output, SolveError>)
    requires
        ready(network, orders@, trains@),
    ensures
        plan is Err <==> stuck(orders@, trains@),
        plan matches Err(e) ==> e == SolveError::NoProgress,
        plan matches Ok(out) ==> {
            &&& makespan(network, trains@, out.moves@, out.total_time as int)
            &&& all_within_capacity(out.moves@, orders@, trains@)
            &&& unloaded(out.moves@).to_multiset() =~= due(orders@).to_multiset()
            &&& distinct_names(trains@) ==> contiguous(network, trains@, out.moves@)
            &&& no_idle_legs(out.moves@)
            &&& all_rightly_handled(out.moves@, orders@)
            &&& loaded(out.moves@).to_multiset() =~= due(orders@).to_multiset()
            &&& batched_legs(network, orders@, trains@, false) == Some(legs(out.moves@))
        },
        plan is Err ==> batched_legs(network, orders@, trains@, false) is None,
{
    deliver_batched(network, trains, orders, false)
}

impl Algorithm for NearestTrainOrderDistributionAlgorithm {
    open spec fn failure(&self) -> SolveError {
        SolveError::NoProgress
    }

    open spec fn plans(&self, network: &Network, orders: Seq<Order>, trains: Seq<Train>, out: Output) -> bool {
        batched_legs(network, orders, trains, false) == Some(legs(out.moves@))
    }

    fn solve(&self, orders: Vec<Order>, trains: Vec<Train>, network: &Network) -> (plan: Result<Output, SolveError>) {
        deliver_order_by_nearest_train_multiload_distribution(network, trains, orders)
    }

    fn sort_sensitive(&self) -> (yes: bool)
        ensures
            !yes,
    {
        false
    }
}

} // verus!
