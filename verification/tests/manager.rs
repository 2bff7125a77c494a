use fraktivitaeten::fraktivitaet_verteilung::zeit::{Zeitdauer, Zeitpunkt, Zeitraum};
use fraktivitaeten::fraktivitaet_verteilung::{Fraktivitaet, FraktivitaetManager};
use fraktivitaeten::fraktivitaet_verteilung::personen::Person;
use fraktivitaeten::fraktivitaet_verteilung::raum::Raum;

fn manager() -> FraktivitaetManager {
    FraktivitaetManager::new(
        vec!["Anna", "Ben", "Cem"],
        vec!["Saal", "Deck1", "Fussballfeld", "Fussballfeld1"],
    )
}

fn activity(name: &str, people: &[&str], placed: Option<(&str, usize, usize)>) -> Fraktivitaet {
    Fraktivitaet::new(
        name,
        Zeitdauer(2),
        people.iter().map(|p| Person::new(p)).collect(),
        placed.map(|(r, s, d)| (Raum::new(r), Zeitraum::new(Zeitpunkt(s), Zeitdauer(d)))),
        Vec::new(),
        Vec::new(),
        Zeitdauer(0),
        Zeitdauer(0),
    )
}

#[test]
fn manager_new_knows_people_and_rooms() {
    let m = manager();
    assert!(m.is_person("Anna".to_string()));
    assert!(m.is_person("Cem".to_string()));
    assert!(!m.is_person("Dora".to_string()));
    assert!(m.is_raum("Deck1".to_string()));
    assert!(!m.is_raum("Deck2".to_string()));
    assert!(m.fraktivitaeten.is_empty());
    assert!(m.legal());
}

#[test]
fn json_teilnehmer_and_raum_list_names() {
    let m = manager();
    assert_eq!(m.json_teilnehmer(), "[\"Anna\",\"Ben\",\"Cem\"]");
    assert_eq!(
        m.json_raum(),
        "[\"Saal\",\"Deck1\",\"Fussballfeld\",\"Fussballfeld1\"]"
    );
    let empty = FraktivitaetManager::new(Vec::new(), Vec::new());
    assert_eq!(empty.json_teilnehmer(), "[]");
    assert_eq!(empty.json_raum(), "[]");
}

#[test]
fn json_teilnehmer_escapes_quotes() {
    let m = FraktivitaetManager::new(vec!["Bo\"b"], vec!["A\\B"]);
    assert_eq!(m.json_teilnehmer(), "[\"Bo\\\"b\"]");
    assert_eq!(m.json_raum(), "[\"A\\\\B\"]");
}

#[test]
fn add_fraktivitaet_keeps_longest_first() {
    let mut m = manager();
    m.add_fraktivitaet("Kurz", "00:30", vec!["Anna"], &vec!["Saal"], Vec::new());
    m.add_fraktivitaet("Lang", "02:00", vec!["Ben"], &vec!["Saal", "Deck1"], Vec::new());
    m.add_fraktivitaet("Mittel", "01:00", vec!["Cem"], &vec!["Deck1"], Vec::new());
    let names: Vec<String> = m.fraktivitaeten.iter().map(|f| f.name.clone()).collect();
    assert_eq!(names, vec!["Lang", "Mittel", "Kurz"]);
    let lang = &m.fraktivitaeten[0];
    assert_eq!(lang.dauer, Zeitdauer(8));
    assert!(lang.zuteilung.is_none());
    assert_eq!(lang.raume.len(), 2);
    // starts at every slot from which the activity ends within the day
    assert_eq!(lang.starts.len(), 49);
    assert_eq!(lang.starts[0], Zeitpunkt(0));
    assert_eq!(lang.starts[48], Zeitpunkt(48));
    // 15 minutes of set-up and none of clear-up unless given
    assert_eq!(lang.vorbereitung, Zeitdauer(1));
    assert_eq!(lang.nachbereitung, Zeitdauer(0));
}

#[test]
fn add_fraktivitaet_leaves_out_excluded_periods() {
    let mut m = manager();
    m.add_fraktivitaet("Pause", "01:00", vec!["Anna"], &vec!["Saal"], vec![("12:00", "13:00")]);
    let f = &m.fraktivitaeten[0];
    // periods [k, k + 4] may not meet [16, 20]
    assert!(f.starts.contains(&Zeitpunkt(11)));
    assert!(!f.starts.contains(&Zeitpunkt(12)));
    assert!(!f.starts.contains(&Zeitpunkt(20)));
    assert!(f.starts.contains(&Zeitpunkt(21)));
    assert_eq!(f.starts.len(), 53 - 9);
}

#[test]
fn add_fix_fraktivitaet_places_it() {
    let mut m = manager();
    m.add_fix_fraktivitaet("Fix", "01:00", vec!["Anna"], "Saal", "09:00");
    let f = &m.fraktivitaeten[0];
    let (r, z) = f.zuteilung.clone().unwrap();
    assert_eq!(r.get_name(), "Saal");
    assert_eq!(z.0, Zeitpunkt(4));
    assert_eq!(z.1, Zeitdauer(4));
    assert!(f.starts.is_empty());
    assert!(f.raume.is_empty());
    assert_eq!(f.vorbereitung, Zeitdauer(1));
    assert_eq!(f.nachbereitung, Zeitdauer(0));
}

#[test]
fn add_fraktivitaet_all_info_with_time_and_rooms() {
    let mut m = manager();
    m.add_fraktivitaet_all_info(
        "Zwei",
        "00:45",
        vec!["Ben"],
        &vec!["Saal", "Deck1"],
        Vec::new(),
        Some("10:00"),
        Some("00:15"),
        Some("00:30"),
    );
    let f = &m.fraktivitaeten[0];
    assert!(f.zuteilung.is_none());
    assert_eq!(f.starts, vec![Zeitpunkt(8)]);
    assert_eq!(f.raume.len(), 2);
    assert_eq!(f.dauer, Zeitdauer(3));
    assert_eq!(f.vorbereitung, Zeitdauer(1));
    assert_eq!(f.nachbereitung, Zeitdauer(2));
}

#[test]
fn verteilen_places_around_fixed_activity() {
    let mut m = manager();
    m.add_fix_fraktivitaet("Fix", "01:00", vec!["Anna"], "Saal", "09:00");
    m.add_fraktivitaet("Spiel", "00:30", vec!["Anna", "Ben"], &vec!["Saal"], Vec::new());
    assert!(m.verteilen());
    assert!(m.legal());
    assert_eq!(
        m.json_verteilung(),
        "[{ \"name\": \"Fix\" , \"raum\": \"Saal\" , \"start\": \"09:00\" , \"ende\": \"10:00\"} \n,{ \"name\": \"Spiel\" , \"raum\": \"Saal\" , \"start\": \"08:00\" , \"ende\": \"08:30\"} \n]"
    );
}

#[test]
fn verteilen_prefers_starts_away_from_placed_activities() {
    let mut m = manager();
    m.add_fix_fraktivitaet("Fix", "01:00", vec!["Anna"], "Saal", "08:00");
    m.add_fraktivitaet("Spiel", "00:30", vec!["Cem"], &vec!["Deck1"], Vec::new());
    assert!(m.verteilen());
    let spiel = m.fraktivitaeten.iter().find(|f| f.name == "Spiel").unwrap();
    let (r, z) = spiel.zuteilung.clone().unwrap();
    assert_eq!(r.get_name(), "Deck1");
    // the fixed activity covers [0, 4]; the first start of score 0 is 5
    assert_eq!(z.0, Zeitpunkt(5));
}

#[test]
fn verteilen_fails_on_clashing_fixed_activities() {
    let mut m = manager();
    m.add_fix_fraktivitaet("A", "01:00", vec!["Anna"], "Saal", "09:00");
    m.add_fix_fraktivitaet("B", "01:00", vec!["Ben"], "Saal", "09:30");
    assert!(!m.legal());
    assert!(!m.verteilen());
}

#[test]
fn verteilen_fails_without_room_for_all() {
    let mut m = manager();
    m.add_fix_fraktivitaet("Fix", "14:00", vec!["Anna"], "Saal", "08:00");
    m.add_fraktivitaet("Spiel", "00:30", vec!["Anna"], &vec!["Deck1"], Vec::new());
    assert!(!m.verteilen());
    // nothing placed is kept
    let spiel = m.fraktivitaeten.iter().find(|f| f.name == "Spiel").unwrap();
    assert!(spiel.zuteilung.is_none());
}

#[test]
fn json_verteilung_lists_only_placed() {
    let mut m = manager();
    m.add_fraktivitaet("Offen", "00:30", vec!["Anna"], &vec!["Saal"], Vec::new());
    assert_eq!(m.json_verteilung(), "[]");
}

#[test]
fn ueberschneidung_needs_shared_room_or_person() {
    let a = activity("a", &["Anna"], Some(("Saal", 0, 2)));
    let b = activity("b", &["Ben"], Some(("Saal", 2, 2)));
    let c = activity("c", &["Ben"], Some(("Deck1", 1, 2)));
    let d = activity("d", &["Anna"], Some(("Deck1", 1, 2)));
    let e = activity("e", &["Anna"], None);
    let f = activity("f", &["Anna"], Some(("Halle", 3, 2)));
    assert!(a.ueberschneidung(&b));
    assert!(!a.ueberschneidung(&c));
    assert!(a.ueberschneidung(&d));
    assert!(!a.ueberschneidung(&e));
    assert!(!a.ueberschneidung(&f));
    for x in [&a, &b, &c, &d, &e, &f] {
        for y in [&a, &b, &c, &d, &e, &f] {
            assert_eq!(x.ueberschneidung(y), y.ueberschneidung(x));
        }
    }
}

#[test]
fn ueberschneidung_counts_set_up_and_clear_up() {
    let mut a = activity("a", &["Anna"], Some(("Saal", 0, 2)));
    let b = activity("b", &["Anna"], Some(("Halle", 4, 2)));
    assert!(!a.ueberschneidung(&b));
    a.nachbereitung = Zeitdauer(2);
    assert!(a.ueberschneidung(&b));
}

#[test]
fn zuteilung_time_value_scores() {
    let a = Zeitraum::new(Zeitpunkt(4), Zeitdauer(4));
    assert_eq!(FraktivitaetManager::zuteilung_time_value(a, &Zeitraum::new(Zeitpunkt(4), Zeitdauer(1))), 2);
    assert_eq!(FraktivitaetManager::zuteilung_time_value(a, &Zeitraum::new(Zeitpunkt(2), Zeitdauer(2))), 1);
    assert_eq!(FraktivitaetManager::zuteilung_time_value(a, &Zeitraum::new(Zeitpunkt(9), Zeitdauer(2))), 0);
}

#[test]
fn legal_finds_clash_among_many() {
    let mut m = manager();
    m.fraktivitaeten.push(activity("a", &["Anna"], Some(("Saal", 0, 2))));
    m.fraktivitaeten.push(activity("b", &["Ben"], Some(("Deck1", 0, 2))));
    m.fraktivitaeten.push(activity("c", &["Cem"], Some(("Saal", 10, 2))));
    assert!(m.legal());
    m.fraktivitaeten.push(activity("d", &["Cem"], Some(("Deck1", 11, 2))));
    assert!(!m.legal());
}

#[test]
fn verteilung_by_name_orders_placed_activities() {
    let mut m = manager();
    m.fraktivitaeten.push(activity("b", &["Anna"], Some(("Saal", 0, 2))));
    m.fraktivitaeten.push(activity("a", &["Ben"], Some(("Deck1", 4, 2))));
    m.fraktivitaeten.push(activity("c", &["Cem"], None));
    m.fraktivitaeten.push(activity("a", &["Cem"], Some(("Halle", 1, 1))));
    m.fraktivitaeten.push(activity("Zebra", &["Cem"], Some(("Halle", 10, 1))));
    m.fraktivitaeten.push(activity("ab", &["Cem"], Some(("Halle", 12, 1))));
    assert!(m.placed_within_day());
    let list: Vec<(String, String, String, String)> = m
        .verteilung_by_name()
        .into_iter()
        .map(|(n, r, s, e)| (n, r.get_name(), s, e))
        .collect();
    let expected = vec![
        ("Zebra", "Halle", "10:30", "10:45"),
        ("a", "Deck1", "09:00", "09:30"),
        ("a", "Halle", "08:15", "08:30"),
        ("ab", "Halle", "11:00", "11:15"),
        ("b", "Saal", "08:00", "08:30"),
    ];
    assert_eq!(list.len(), expected.len());
    for (got, want) in list.iter().zip(expected.iter()) {
        assert_eq!((got.0.as_str(), got.1.as_str(), got.2.as_str(), got.3.as_str()), *want);
    }
}

#[test]
fn placed_within_day_detects_late_end() {
    let mut m = manager();
    m.fraktivitaeten.push(activity("spaet", &["Anna"], Some(("Saal", 55, 1))));
    assert!(m.placed_within_day());
    m.fraktivitaeten.push(activity("zu spaet", &["Anna"], Some(("Saal", 55, 2))));
    assert!(!m.placed_within_day());
}

#[test]
fn default_set_up_time_separates_activities() {
    // back to back in one room: the default set-up of the second clashes
    let mut m = manager();
    m.add_fix_fraktivitaet("Erst", "01:00", vec!["Anna"], "Saal", "08:00");
    m.add_fix_fraktivitaet("Dann", "01:00", vec!["Ben"], "Saal", "09:15");
    assert!(!m.legal());
    let mut n = manager();
    n.add_fix_fraktivitaet("Erst", "01:00", vec!["Anna"], "Saal", "08:00");
    n.add_fix_fraktivitaet("Dann", "01:00", vec!["Ben"], "Saal", "09:30");
    assert!(n.legal());
}

#[test]
fn fraktivitaet_clone_keeps_fields() {
    let a = activity("a", &["Anna", "Ben"], Some(("Saal", 3, 2)));
    let b = a.clone();
    assert_eq!(b.name, "a");
    assert_eq!(b.teilnehmer, a.teilnehmer);
    assert_eq!(b.dauer, a.dauer);
    let (r, z) = b.zuteilung.clone().unwrap();
    assert_eq!(r.get_name(), "Saal");
    assert_eq!((z.0, z.1), (Zeitpunkt(3), Zeitdauer(2)));
}

#[test]
fn verteilen_orders_starts_stably_by_competition() {
    let mut m = manager();
    m.add_fix_fraktivitaet("Fix", "01:00", vec!["Anna"], "Saal", "08:00");
    m.add_fraktivitaet("Spiel", "00:30", vec!["Cem"], &vec!["Deck1"], Vec::new());
    assert!(m.verteilen());
    let spiel = m.fraktivitaeten.iter().find(|f| f.name == "Spiel").unwrap();
    let n = spiel.starts.len();
    // free starts first, in their order; then those overlapping the fixed
    // activity, in their order; the same start last
    assert_eq!(spiel.starts[0], Zeitpunkt(5));
    assert_eq!(spiel.starts[1], Zeitpunkt(6));
    assert_eq!(&spiel.starts[n - 5..], &[Zeitpunkt(1), Zeitpunkt(2), Zeitpunkt(3), Zeitpunkt(4), Zeitpunkt(0)]);
}

#[test]
fn verteilen_tries_rooms_in_list_order() {
    let mut m = manager();
    m.add_fraktivitaet("Spiel", "00:30", vec!["Cem"], &vec!["Deck1", "Saal"], Vec::new());
    assert!(m.verteilen());
    let (r, z) = m.fraktivitaeten[0].zuteilung.clone().unwrap();
    assert_eq!(r.get_name(), "Deck1");
    assert_eq!(z.0, Zeitpunkt(0));
}
