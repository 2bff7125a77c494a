use fraktivitaeten::fraktivitaet_verteilung::zeit::{
    next_time, time_equal, to_time, Zeitdauer, Zeitmanager, Zeitpunkt, Zeitraum,
};

fn day() -> Zeitmanager {
    Zeitmanager::new("08:00", "22:00", 15, Vec::new())
}

#[test]
fn zeitdauer_add_dauer_sums() {
    assert_eq!(Zeitdauer(2).add_dauer(Zeitdauer(3)), Zeitdauer(5));
    assert_eq!(Zeitdauer(0).add_dauer(Zeitdauer(0)), Zeitdauer(0));
}

#[test]
fn zeitpunkt_add_dauer_moves_forward() {
    assert_eq!(Zeitpunkt(4).add_dauer(&Zeitdauer(2)), Zeitpunkt(6));
}

#[test]
fn zeitraum_new_and_new_punkte() {
    let z = Zeitraum::new(Zeitpunkt(3), Zeitdauer(4));
    assert_eq!(z.0, Zeitpunkt(3));
    assert_eq!(z.1, Zeitdauer(4));
    let w = Zeitraum::new_punkte(Zeitpunkt(2), Zeitpunkt(5));
    assert_eq!(w.0, Zeitpunkt(2));
    assert_eq!(w.1, Zeitdauer(3));
    let e = Zeitraum::new_punkte(Zeitpunkt(7), Zeitpunkt(7));
    assert_eq!(e.1, Zeitdauer(0));
}

#[test]
fn zeitraum_inside_includes_both_ends() {
    let z = Zeitraum::new(Zeitpunkt(3), Zeitdauer(4));
    assert!(!z.inside(Zeitpunkt(2)));
    assert!(z.inside(Zeitpunkt(3)));
    assert!(z.inside(Zeitpunkt(5)));
    assert!(z.inside(Zeitpunkt(7)));
    assert!(!z.inside(Zeitpunkt(8)));
}

#[test]
fn zeitraum_overlapping_cases() {
    let a = Zeitraum::new(Zeitpunkt(0), Zeitdauer(2));
    let b = Zeitraum::new(Zeitpunkt(2), Zeitdauer(2));
    let c = Zeitraum::new(Zeitpunkt(3), Zeitdauer(1));
    let d = Zeitraum::new(Zeitpunkt(1), Zeitdauer(10));
    // touching ends count as overlap
    assert!(a.overlapping(&b));
    assert!(b.overlapping(&a));
    assert!(!a.overlapping(&c));
    assert!(!c.overlapping(&a));
    // one period inside the other
    assert!(d.overlapping(&c));
    assert!(c.overlapping(&d));
}

#[test]
fn zeitraum_add_dauer_extends() {
    let z = Zeitraum::new(Zeitpunkt(3), Zeitdauer(4)).add_dauer(&Zeitdauer(2));
    assert_eq!(z.0, Zeitpunkt(3));
    assert_eq!(z.1, Zeitdauer(6));
}

#[test]
fn to_time_normalises() {
    assert_eq!(to_time("8:5"), "08:05");
    assert_eq!(to_time("75"), "01:15");
    assert_eq!(to_time("23:75"), "00:15");
    assert_eq!(to_time("0"), "00:00");
    assert_eq!(to_time("12:00"), "12:00");
}

#[test]
fn next_time_steps_and_wraps() {
    assert_eq!(next_time("08:00".to_string(), 15), "08:15");
    assert_eq!(next_time("08:50".to_string(), 15), "09:05");
    assert_eq!(next_time("23:50".to_string(), 15), "00:05");
    assert_eq!(next_time("30".to_string(), 45), "01:15");
}

#[test]
fn time_equal_compares_fields() {
    assert!(time_equal(&"08:00".to_string(), &"8:0".to_string()));
    assert!(time_equal(&"0:30".to_string(), &"30".to_string()));
    assert!(time_equal(&"30".to_string(), &"00:30".to_string()));
    assert!(!time_equal(&"60".to_string(), &"1:00".to_string()));
    assert!(!time_equal(&"08:00".to_string(), &"08:15".to_string()));
}

#[test]
fn zeitmanager_string_to_punkt() {
    let m = day();
    assert_eq!(m.string_to_punkt("08:00"), Zeitpunkt(0));
    assert_eq!(m.string_to_punkt("08:15"), Zeitpunkt(1));
    assert_eq!(m.string_to_punkt("9:00"), Zeitpunkt(4));
    assert_eq!(m.string_to_punkt("480"), Zeitpunkt(0));
    assert_eq!(m.string_to_punkt("22:00"), Zeitpunkt(56));
}

#[test]
fn zeitmanager_punkt_to_string() {
    let m = day();
    assert_eq!(m.punkt_to_string(Zeitpunkt(0)), "08:00");
    assert_eq!(m.punkt_to_string(Zeitpunkt(2)), "08:30");
    assert_eq!(m.punkt_to_string(Zeitpunkt(56)), "22:00");
}

#[test]
fn zeitmanager_string_to_dauer() {
    let mut m = day();
    assert_eq!(m.string_to_dauer("00:00"), Zeitdauer(0));
    assert_eq!(m.string_to_dauer("01:30"), Zeitdauer(6));
    assert_eq!(m.string_to_dauer("45"), Zeitdauer(3));
    assert_eq!(m.string_to_dauer("0:15"), Zeitdauer(1));
}

#[test]
fn zeitmanager_dauer_to_string() {
    let mut m = day();
    assert_eq!(m.dauer_to_string(Zeitdauer(0)), "00:00");
    assert_eq!(m.dauer_to_string(Zeitdauer(10)), "02:30");
    assert_eq!(m.dauer_to_string(Zeitdauer(3)), "00:45");
}

#[test]
fn zeitmanager_dauer_round_trip() {
    let mut m = day();
    for t in ["00:45", "2:00", "90", "00:00", "03:15"] {
        let d = m.string_to_dauer(t);
        assert_eq!(m.dauer_to_string(d), to_time(t));
    }
}

#[test]
fn zeitmanager_punkt_round_trip() {
    let m = day();
    for t in ["08:00", "8:45", "600", "21:30", "22:00"] {
        let p = m.string_to_punkt(t);
        assert_eq!(m.punkt_to_string(p), to_time(t));
    }
}

#[test]
fn zeitmanager_zeitraum_to_string() {
    let m = day();
    let (a, b) = m.zeitraum_to_string(&Zeitraum::new(Zeitpunkt(4), Zeitdauer(2)));
    assert_eq!(a, "09:00");
    assert_eq!(b, "09:30");
}

#[test]
fn zeitmanager_all_time_lists_the_day() {
    let m = day();
    let all = m.all_time();
    assert_eq!(all.len(), 57);
    for (i, p) in all.iter().enumerate() {
        assert_eq!(*p, Zeitpunkt(i));
    }
}

#[test]
fn zeitmanager_day_around_midnight() {
    let n = Zeitmanager::new("22:00", "23:00", 780, Vec::new());
    assert_eq!(n.punkt_to_string(Zeitpunkt(0)), "22:00");
    assert_eq!(n.punkt_to_string(Zeitpunkt(1)), "11:00");
    assert_eq!(n.punkt_to_string(Zeitpunkt(2)), "00:00");
    assert_eq!(n.string_to_punkt("23:00"), Zeitpunkt(13));
    assert_eq!(n.all_time().len(), 14);
    let one = Zeitmanager::new("23:00", "23:00", 720, Vec::new());
    assert_eq!(one.all_time(), vec![Zeitpunkt(0)]);
}

#[test]
fn zeitmanager_inside_checks_day_and_exclusions() {
    let m = day();
    assert!(m.inside(&Zeitraum::new(Zeitpunkt(0), Zeitdauer(56))));
    assert!(!m.inside(&Zeitraum::new(Zeitpunkt(55), Zeitdauer(2))));
    let e = Zeitmanager::new("08:00", "22:00", 15, vec![("12:00", "13:00")]);
    assert!(!e.inside(&Zeitraum::new(Zeitpunkt(15), Zeitdauer(2))));
    assert!(e.inside(&Zeitraum::new(Zeitpunkt(0), Zeitdauer(4))));
    assert!(!e.inside(&Zeitraum::new(Zeitpunkt(20), Zeitdauer(4))));
    assert!(e.inside(&Zeitraum::new(Zeitpunkt(21), Zeitdauer(4))));
}

#[test]
fn zeitmanager_point_text_reads_back() {
    let m = Zeitmanager::new("08:00", "22:00", 15, Vec::new());
    for i in 0..57 {
        let text = m.punkt_to_string(Zeitpunkt(i));
        assert_eq!(m.string_to_punkt(&text), Zeitpunkt(i));
    }
}
