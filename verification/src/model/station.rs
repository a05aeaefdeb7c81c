use vstd::prelude::*;

verus! {

/// A vertex of the network. Two stations are the same station exactly when
/// their names are equal.
#[derive(Debug, PartialEq, Eq, Clone, Hash, PartialOrd, Ord)]
pub struct Station {
    pub name: String,
}

impl View for Station {
    type V = Seq<char>;

    open spec fn view(&self) -> Seq<char> {
        self.name@
    }
}

impl Station {
    pub fn new(name: String) -> (station: Self)
        ensures
            station.name == name,
            station@ == name@,
    {
        Self { name }
    }

    pub fn name(&self) -> (name: &str)
        ensures
            name@ == self@,
    {
        self.name.as_str()
    }

    /// An independent station of the same name.
    pub fn copy(&self) -> (station: Self)
        ensures
            station == *self,
    {
        Self { name: self.name.clone() }
    }

    /// Whether both values name the same station.
    pub fn same(&self, other: &Station) -> (same: bool)
        ensures
            same == (self@ == other@),
    {
        self.name == other.name
    }
}

impl<'a> From<&'a str> for Station {
    fn from(name: &'a str) -> (station: Self)
        ensures
            station@ == name@,
    {
        Self { name: name.to_owned() }
    }
}

impl<'a> vstd::std_specs::convert::FromSpecImpl<&'a str> for Station {
    open spec fn obeys_from_spec() -> bool {
        false
    }

    open spec fn from_spec(name: &'a str) -> Station {
        arbitrary()
    }
}

} // verus!
