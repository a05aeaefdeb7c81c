use vstd::prelude::*;
use crate::model::station::Station;

verus! {

/// A shipment of a given weight that waits at `location` and has to reach
/// `destination`.
#[derive(Debug, PartialEq, Eq, Clone)]
pub struct Order {
    pub name: String,
    pub weight: u32,
    pub location: Station,
    pub destination: Station,
}

impl Order {
    /// Whether the order already is where it has to be.
    pub open spec fn delivered(&self) -> bool {
        self.location@ == self.destination@
    }

    pub fn new(name: String, weight: u32, location: Station, destination: Station) -> (order: Self)
        ensures
            order.name == name,
            order.weight == weight,
            order.location == location,
            order.destination == destination,
    {
        Self { name, weight, location, destination }
    }

    pub fn name(&self) -> (name: &str)
        ensures
            name@ == self.name@,
    {
        self.name.as_str()
    }

    pub fn weight(&self) -> (weight: u32)
        ensures
            weight == self.weight,
    {
        self.weight
    }

    pub fn location(&self) -> (location: Station)
        ensures
            location == self.location,
    {
        self.location.copy()
    }

    pub fn destination(&self) -> (destination: Station)
        ensures
            destination == self.destination,
    {
        self.destination.copy()
    }

    /// The same order, now waiting at `location`.
    pub fn move_to(self, location: &Station) -> (order: Self)
        ensures
            order.name == self.name,
            order.weight == self.weight,
            order.location == *location,
            order.destination == self.destination,
    {
        Self { name: self.name, weight: self.weight, location: location.copy(), destination: self.destination }
    }

    pub fn is_delivered(&self) -> (delivered: bool)
        ensures
            delivered == self.delivered(),
    {
        self.location.same(&self.destination)
    }

    /// An independent order with the same fields.
    pub fn copy(&self) -> (order: Self)
        ensures
            order == *self,
    {
        Self {
            name: self.name.clone(),
            weight: self.weight,
            location: self.location.copy(),
            destination: self.destination.copy(),
        }
    }
}

impl<'a> From<(&'a str, u32, &'a str, &'a str)> for Order {
    fn from(tuple: (&'a str, u32, &'a str, &'a str)) -> (order: Self)
        ensures
            order.name@ == tuple.0@,
            order.weight == tuple.1,
            order.location@ == tuple.2@,
            order.destination@ == tuple.3@,
    {
        Self {
            name: tuple.0.to_owned(),
            weight: tuple.1,
            location: Station::from(tuple.2),
            destination: Station::from(tuple.3),
        }
    }
}

impl<'a> vstd::std_specs::convert::FromSpecImpl<(&'a str, u32, &'a str, &'a str)> for Order {
    open spec fn obeys_from_spec() -> bool {
        false
    }

    open spec fn from_spec(tuple: (&'a str, u32, &'a str, &'a str)) -> Order {
        arbitrary()
    }
}

} // verus!
