use vstd::prelude::*;
use crate::model::edge::Edge;
use crate::model::order::Order;
use crate::model::station::Station;
use crate::model::train::Train;

verus! {

/// A problem instance: the stations and edges of the network, the orders
/// to deliver, and the trains to deliver them with.
#[derive(Debug)]
pub struct Input {
    pub stations: Vec<Station>,
    pub edges: Vec<Edge>,
    pub orders: Vec<Order>,
    pub trains: Vec<Train>,
}

impl Input {
    pub fn new(stations: Vec<Station>, edges: Vec<Edge>, orders: Vec<Order>, trains: Vec<Train>) -> (input: Self)
        ensures
            input.stations == stations,
            input.edges == edges,
            input.orders == orders,
            input.trains == trains,
    {
        Self { stations, edges, orders, trains }
    }

    pub fn stations(&self) -> (stations: &Vec<Station>)
        ensures
            *stations == self.stations,
    {
        &self.stations
    }

    pub fn edges(&self) -> (edges: &Vec<Edge>)
        ensures
            *edges == self.edges,
    {
        &self.edges
    }

    pub fn trains(&self) -> (trains: &Vec<Train>)
        ensures
            *trains == self.trains,
    {
        &self.trains
    }

    pub fn orders(&self) -> (orders: &Vec<Order>)
        ensures
            *orders == self.orders,
    {
        &self.orders
    }
}

} // verus!
