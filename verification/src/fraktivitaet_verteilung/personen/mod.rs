//! Participants of activities.
use vstd::prelude::*;

verus! {

/// A participant, known by name.
#[derive(Debug, PartialEq, Eq)]
pub struct Person(String);

impl View for Person {
    type V = Seq<char>;

    closed spec fn view(&self) -> Seq<char> {
        self.0@
    }
}

impl Clone for Person {
    fn clone(&self) -> (res: Self)
        ensures
            res == *self,
    {
        Person(self.0.clone())
    }
}

impl Person {
    pub fn new(name: &str) -> (res: Self)
        ensures
            res@ == name@,
    {
        Person(name.to_owned())
    }

    /// The person has the name `name`.
    pub fn is(&self, name: &str) -> (res: bool)
        ensures
            res == (self@ == name@),
    {
        self.0 == name.to_owned()
    }

    /// The person is the same as `other` (same name).
    pub fn same(&self, other: &Person) -> (res: bool)
        ensures
            res == (self@ == other@),
    {
        self.0 == other.0
    }

    pub fn get_name(&self) -> (res: String)
        ensures
            res@ == self@,
    {
        self.0.clone()
    }
}

} // verus!
