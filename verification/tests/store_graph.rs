use nescio::store::{coupling_label, find_label, first_coupling_on, has_cycle, SlotRemoval};

fn names(v: &[&str]) -> Vec<String> {
    v.iter().map(|s| s.to_string()).collect()
}

fn edges(v: &[(&str, &str)]) -> Vec<(String, String)> {
    v.iter().map(|(a, b)| (a.to_string(), b.to_string())).collect()
}

#[test]
fn forests_have_no_cycle() {
    let slots = names(&["price", "condition", "city", "area"]);
    assert!(!has_cycle(&slots, &edges(&[])));
    assert!(!has_cycle(&slots, &edges(&[("condition", "price")])));
    assert!(!has_cycle(
        &slots,
        &edges(&[("condition", "price"), ("city", "price"), ("area", "city")])
    ));
}

#[test]
fn closing_a_loop_is_a_cycle() {
    let slots = names(&["price", "condition", "city", "area"]);
    assert!(has_cycle(
        &slots,
        &edges(&[("condition", "price"), ("city", "price"), ("condition", "city")])
    ));
    // Two couplings between the same slots.
    assert!(has_cycle(&slots, &edges(&[("condition", "price"), ("price", "condition")])));
    // A slot coupled to itself.
    assert!(has_cycle(&slots, &edges(&[("area", "area")])));
}

#[test]
fn slot_removal_reports_counts() {
    let r = SlotRemoval {
        evidence_erased: 2,
        priors_removed: 1,
        watches_removed: 1,
    };
    let copy = r;
    assert_eq!(copy.evidence_erased, 2);
    assert_eq!(copy.priors_removed, 1);
    assert_eq!(copy.watches_removed, 1);
}

#[test]
fn coupling_labels() {
    assert_eq!(coupling_label(None, "condition", "price"), "condition~price");
    assert_eq!(coupling_label(Some("cond~price"), "condition", "price"), "cond~price");
    let ls = names(&["a~b", "c~d", "a~b"]);
    assert_eq!(find_label(&ls, "a~b"), Some(0));
    assert_eq!(find_label(&ls, "c~d"), Some(1));
    assert_eq!(find_label(&ls, "no~such"), None);
}

#[test]
fn couplings_referencing_a_slot() {
    let cs = edges(&[("condition", "price"), ("city", "area"), ("area", "price")]);
    assert_eq!(first_coupling_on(&cs, "price"), Some(0));
    assert_eq!(first_coupling_on(&cs, "area"), Some(1));
    assert_eq!(first_coupling_on(&cs, "wants_to_sell"), None);
}
