//! Rooms and which rooms cannot be used at the same time.
use vstd::prelude::*;

verus! {

/// A room, known by name.
#[derive(Debug, PartialEq, Eq)]
pub struct Raum(String);

impl View for Raum {
    type V = Seq<char>;

    closed spec fn view(&self) -> Seq<char> {
        self.0@
    }
}

impl Clone for Raum {
    fn clone(&self) -> (res: Self)
        ensures
            res == *self,
    {
        Raum(self.0.clone())
    }
}

/// Rooms that may host several activities at once.
pub open spec fn is_shared_room(a: Seq<char>) -> bool {
    a == "Deck1"@ || a == "Deck2"@ || a == "Sonstiges"@
}

/// `a` is the whole football field and `b` one of its halves.
pub open spec fn is_field_and_half(a: Seq<char>, b: Seq<char>) -> bool {
    a == "Fussballfeld"@ && (b == "Fussballfeld1"@ || b == "Fussballfeld2"@)
}

/// Two activities in the rooms `a` and `b` cannot take place at once: the
/// whole football field clashes with its halves, and any other room but the
/// shared ones clashes with itself.
pub open spec fn rooms_clash(a: Seq<char>, b: Seq<char>) -> bool {
    ||| is_field_and_half(a, b)
    ||| is_field_and_half(b, a)
    ||| !is_shared_room(a) && a == b
}

/// Clashing of rooms does not depend on the order of the two.
pub proof fn lemma_rooms_clash_symmetric(a: Seq<char>, b: Seq<char>)
    ensures
        rooms_clash(a, b) == rooms_clash(b, a),
{
}

/// Which rooms clash: every room but the shared rooms Deck1, Deck2 and
/// Sonstiges clashes with itself, the shared ones never do, the whole
/// football field clashes with each of its halves, and no other two rooms
/// clash.
pub proof fn lemma_rooms_clash_cases(a: Seq<char>, b: Seq<char>)
    ensures
        a != "Deck1"@ && a != "Deck2"@ && a != "Sonstiges"@ ==> rooms_clash(a, a),
        !rooms_clash("Deck1"@, "Deck1"@),
        !rooms_clash("Deck2"@, "Deck2"@),
        !rooms_clash("Sonstiges"@, "Sonstiges"@),
        rooms_clash("Fussballfeld"@, "Fussballfeld1"@),
        rooms_clash("Fussballfeld"@, "Fussballfeld2"@),
        rooms_clash("Fussballfeld1"@, "Fussballfeld"@),
        rooms_clash("Fussballfeld2"@, "Fussballfeld"@),
        rooms_clash(a, b) ==> a == b || (a == "Fussballfeld"@ && (b == "Fussballfeld1"@ || b == "Fussballfeld2"@)) || (b
            == "Fussballfeld"@ && (a == "Fussballfeld1"@ || a == "Fussballfeld2"@)),
{
    reveal_strlit("Deck1");
    reveal_strlit("Deck2");
    reveal_strlit("Sonstiges");
    reveal_strlit("Fussballfeld");
    reveal_strlit("Fussballfeld1");
    reveal_strlit("Fussballfeld2");
    assert("Deck1"@ != "Fussballfeld"@) by {
        assert("Deck1"@.len() != "Fussballfeld"@.len());
    }
    assert("Deck2"@ != "Fussballfeld"@) by {
        assert("Deck2"@.len() != "Fussballfeld"@.len());
    }
    assert("Sonstiges"@ != "Fussballfeld"@) by {
        assert("Sonstiges"@[0] != "Fussballfeld"@[0]);
    }
}

impl Raum {
    pub fn new(name: &str) -> (res: Self)
        ensures
            res@ == name@,
    {
        Raum(name.to_owned())
    }

    /// Activities in this room and in `other` cannot take place at once.
    pub fn ueberschneidung(&self, other: &Self) -> (res: bool)
        ensures
            res == rooms_clash(self@, other@),
    {
        let feld = "Fussballfeld".to_owned();
        let feld1 = "Fussballfeld1".to_owned();
        let feld2 = "Fussballfeld2".to_owned();
        if self.0 == feld && (other.0 == feld1 || other.0 == feld2) {
            return true;
        }
        if other.0 == feld && (self.0 == feld1 || self.0 == feld2) {
            return true;
        }
        if self.0 == "Deck1".to_owned() || self.0 == "Deck2".to_owned() || self.0
            == "Sonstiges".to_owned() {
            return false;
        }
        self.0 == other.0
    }

    /// The room has the name `s`.
    pub fn is(&self, s: &str) -> (res: bool)
        ensures
            res == (self@ == s@),
    {
        self.0 == s.to_owned()
    }

    pub fn get_name(&self) -> (res: String)
        ensures
            res@ == self@,
    {
        self.0.clone()
    }
}

} // verus!
