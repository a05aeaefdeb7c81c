use vstd::prelude::*;
use crate::model::station::Station;

verus! {

/// An undirected connection between two stations with a travel cost.
#[derive(Debug, PartialEq, Eq)]
pub struct Edge {
    pub name: String,
    pub stations: (Station, Station),
    pub distance: u32,
}

impl Edge {
    pub fn new(name: String, from: Station, to: Station, distance: u32) -> (edge: Self)
        ensures
            edge.name == name,
            edge.stations == (from, to),
            edge.distance == distance,
    {
        Self { name, stations: (from, to), distance }
    }

    pub fn stations(&self) -> (ends: &(Station, Station))
        ensures
            *ends == self.stations,
    {
        &self.stations
    }

    pub fn distance(&self) -> (distance: u32)
        ensures
            distance == self.distance,
    {
        self.distance
    }
}

impl<'a> From<(&'a str, &'a str, &'a str, u32)> for Edge {
    fn from(data: (&'a str, &'a str, &'a str, u32)) -> (edge: Self)
        ensures
            edge.name@ == data.0@,
            edge.stations.0@ == data.1@,
            edge.stations.1@ == data.2@,
            edge.distance == data.3,
    {
        Self { name: data.0.to_owned(), stations: (Station::from(data.1), Station::from(data.2)), distance: data.3 }
    }
}

impl<'a> vstd::std_specs::convert::FromSpecImpl<(&'a str, &'a str, &'a str, u32)> for Edge {
    open spec fn obeys_from_spec() -> bool {
        false
    }

    open spec fn from_spec(data: (&'a str, &'a str, &'a str, u32)) -> Edge {
        arbitrary()
    }
}

} // verus!
