use nescio::engine::join::tri_same;
use nescio::engine::types::{containment, default_join_limit, default_true, FindMode, Tri};
use nescio::error::Error;

fn labels(v: &[&str]) -> Vec<String> {
    v.iter().map(|s| s.to_string()).collect()
}

#[test]
fn tri_names() {
    assert_eq!(Tri::True.as_str(), "true");
    assert_eq!(Tri::Possible.as_str(), "possible");
    assert_eq!(Tri::False.as_str(), "false");
}

#[test]
fn find_modes() {
    assert_eq!(FindMode::parse("possible").unwrap(), FindMode::Possible);
    assert_eq!(FindMode::parse("certain").unwrap(), FindMode::Certain);
    match FindMode::parse("maybe") {
        Err(Error::Invalid(m)) => assert_eq!(m, "mode must be 'possible' or 'certain'"),
        other => panic!("unexpected {other:?}"),
    }
    let m: FindMode = "certain".parse().unwrap();
    assert_eq!(m, FindMode::Certain);
}

#[test]
fn join_defaults() {
    assert!(default_true());
    assert_eq!(default_join_limit(), 1000);
}

#[test]
fn same_join_certainty() {
    assert_eq!(tri_same(&labels(&["berlin"]), &labels(&["berlin"])), Tri::True);
    assert_eq!(tri_same(&labels(&["berlin", "munich"]), &labels(&["berlin"])), Tri::Possible);
    assert_eq!(tri_same(&labels(&["berlin"]), &labels(&["munich"])), Tri::False);
    assert_eq!(tri_same(&labels(&[]), &labels(&["munich"])), Tri::False);
}

#[test]
fn region_containment() {
    assert_eq!(containment(&vec![true, true]), Tri::True);
    assert_eq!(containment(&vec![true, false]), Tri::Possible);
    assert_eq!(containment(&vec![false, false]), Tri::False);
    assert_eq!(containment(&vec![]), Tri::True);
}
