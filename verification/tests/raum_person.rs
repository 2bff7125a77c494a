use fraktivitaeten::fraktivitaet_verteilung::personen::Person;
use fraktivitaeten::fraktivitaet_verteilung::raum::Raum;

#[test]
fn person_new_is_and_name() {
    let p = Person::new("Anna");
    assert!(p.is("Anna"));
    assert!(!p.is("anna"));
    assert!(!p.is(""));
    assert_eq!(p.get_name(), "Anna");
    assert!(p.same(&Person::new("Anna")));
    assert!(!p.same(&Person::new("Ben")));
}

#[test]
fn raum_new_is_and_name() {
    let r = Raum::new("Saal");
    assert!(r.is("Saal"));
    assert!(!r.is("Saal "));
    assert_eq!(r.get_name(), "Saal");
}

#[test]
fn raum_same_room_clashes() {
    assert!(Raum::new("Saal").ueberschneidung(&Raum::new("Saal")));
    assert!(!Raum::new("Saal").ueberschneidung(&Raum::new("Halle")));
}

#[test]
fn raum_shared_rooms_never_clash() {
    for name in ["Deck1", "Deck2", "Sonstiges"] {
        assert!(!Raum::new(name).ueberschneidung(&Raum::new(name)));
    }
}

#[test]
fn raum_football_field_clashes_with_halves() {
    let whole = Raum::new("Fussballfeld");
    let h1 = Raum::new("Fussballfeld1");
    let h2 = Raum::new("Fussballfeld2");
    assert!(whole.ueberschneidung(&h1));
    assert!(whole.ueberschneidung(&h2));
    assert!(h1.ueberschneidung(&whole));
    assert!(h2.ueberschneidung(&whole));
    assert!(!h1.ueberschneidung(&h2));
    assert!(whole.ueberschneidung(&whole));
}

#[test]
fn raum_clash_is_symmetric() {
    let names = ["Saal", "Deck1", "Deck2", "Sonstiges", "Fussballfeld", "Fussballfeld1", "Fussballfeld2"];
    for a in names {
        for b in names {
            assert_eq!(
                Raum::new(a).ueberschneidung(&Raum::new(b)),
                Raum::new(b).ueberschneidung(&Raum::new(a))
            );
        }
    }
}
