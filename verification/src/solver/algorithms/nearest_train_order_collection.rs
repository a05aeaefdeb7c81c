use vstd::prelude::*;
use crate::model::order::Order;
use crate::model::train::Train;
use crate::network::Network;
use crate::output::{legs, Output};
use crate::solver::algorithms::batched::{batched_legs, deliver_batched};
use crate::solver::algorithms::{
    all_rightly_handled, all_within_capacity, contiguous, loaded, distinct_names, due, makespan, no_idle_legs, ready, stuck, unloaded,
    Algorithm, SolveError,
};

verus! {

/// Groups the waiting orders by the station where they have to go; one
/// train goes round the stations where a group waits and ends at the
/// destination.
#[derive(Debug)]
pub struct NearestTrainOrderCollectionAlgorithm;

/// Delivers the orders in batches that share a destination. The train that
/// serves a batch calls at the stations where its orders wait, in the
/// order that makes the way to the destination shortest, takes on board at
/// each call the orders that wait there, and sets all of them down at the
/// destination. The run fails exactly when some order that has to travel
/// is too heavy for every train.
pub fn deliver_order_by_nearest_train_multiload_collection(
    network: &Network,
    trains: Vec<Train>,
    orders: Vec<Order>,
) -> (plan: Result<Output, SolveError>)
    requires
        ready(network, orders@, trains@),
    ensures
        plan is Err <==> stuck(orders@, trains@),
        plan matches Err(e) ==> e == SolveError::NoProgress,
        plan matches Ok(out) ==> {
            &&& makespan(network, trains@, out.moves@, out.total_time as int)
            &&& all_within_capacity(out.moves@, orders@, trains@)
            &&& unloaded(out.moves@).to_multiset() =~= due(orders@).to_multiset()
            &&& distinct_names(trains@) ==> contiguous(network, trains@, out.moves@)
            &&& no_idle_legs(out.moves@)
            &&& all_rightly_handled(out.moves@, orders@)
            &&& loaded(out.moves@).to_multiset() =~= due(orders@).to_multiset()
            &&& batched_legs(network, orders@, trains@, true) == Some(legs(out.moves@))
        },
        plan is Err ==> batched_legs(network, orders@, trains@, true) is None,
{
    deliver_batched(network, trains, orders, true)
}

impl Algorithm for NearestTrainOrderCollectionAlgorithm {
    open spec fn failure(&self) -> SolveError {
        SolveError::NoProgress
    }

    open spec fn plans(&self, network: &Network, orders: Seq<Order>, trains: Seq<Train>, out: Output) -> bool {
        batched_legs(network, orders, trains, true) == Some(legs(out.moves@))
    }

    fn solve(&self, orders: Vec<Order>, trains: Vec<Train>, network: &Network) -> (plan: Result<Output, SolveError>) {
        deliver_order_by_nearest_train_multiload_collection(network, trains, orders)
    }

    fn sort_sensitive(&self) -> (yes: bool)
        ensures
            !yes,
    {
        false
    }
}

} // verus!
