use vstd::prelude::*;
use crate::model::station::Station;

verus! {

/// A vehicle of limited capacity. `traveled_time` is the moment at which the
/// train has come to rest at `location`.
#[derive(Debug, Clone, PartialEq, Eq)]
pub struct Train {
    pub name: String,
    pub capacity: u32,
    pub location: Station,
    pub traveled_time: u32,
}

impl Train {
    pub fn new(name: String, capacity: u32, location: Station) -> (train: Self)
        ensures
            train.name == name,
            train.capacity == capacity,
            train.location == location,
            train.traveled_time == 0,
    {
        Self { name, capacity, location, traveled_time: 0 }
    }

    pub fn name(&self) -> (name: &str)
        ensures
            name@ == self.name@,
    {
        self.name.as_str()
    }

    pub fn capacity(&self) -> (capacity: u32)
        ensures
            capacity == self.capacity,
    {
        self.capacity
    }

    pub fn location(&self) -> (location: &Station)
        ensures
            *location == self.location,
    {
        &self.location
    }

    /// The train after a trip of `traveled_time` that ends at `destination`.
    pub fn move_to(self, destination: &Station, traveled_time: u32) -> (train: Self)
        requires
            self.traveled_time + traveled_time <= u32::MAX,
        ensures
            train.name == self.name,
            train.capacity == self.capacity,
            train.location == *destination,
            train.traveled_time == self.traveled_time + traveled_time,
    {
        Self {
            name: self.name,
            capacity: self.capacity,
            location: destination.copy(),
            traveled_time: self.traveled_time + traveled_time,
        }
    }

    pub fn traveled_time(&self) -> (time: u32)
        ensures
            time == self.traveled_time,
    {
        self.traveled_time
    }

    /// An independent train with the same fields.
    pub fn copy(&self) -> (train: Self)
        ensures
            train == *self,
    {
        Self {
            name: self.name.clone(),
            capacity: self.capacity,
            location: self.location.copy(),
            traveled_time: self.traveled_time,
        }
    }
}

impl<'a> From<(&'a str, u32, &'a str)> for Train {
    fn from(tuple: (&'a str, u32, &'a str)) -> (train: Self)
        ensures
            train.name@ == tuple.0@,
            train.capacity == tuple.1,
            train.location@ == tuple.2@,
            train.traveled_time == 0,
    {
        Self { name: tuple.0.to_owned(), capacity: tuple.1, location: Station::from(tuple.2), traveled_time: 0 }
    }
}

impl<'a> vstd::std_specs::convert::FromSpecImpl<(&'a str, u32, &'a str)> for Train {
    open spec fn obeys_from_spec() -> bool {
        false
    }

    open spec fn from_spec(tuple: (&'a str, u32, &'a str)) -> Train {
        arbitrary()
    }
}

} // verus!
