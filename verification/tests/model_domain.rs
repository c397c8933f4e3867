use nescio::error::Error;
use nescio::model::domain::{boolean_values, index_of_value, validate_values};
use nescio::model::evidence::Claim;

fn labels(v: &[&str]) -> Vec<String> {
    v.iter().map(|s| s.to_string()).collect()
}

#[test]
fn value_positions() {
    let vs = labels(&["renovated", "original", "derelict"]);
    assert_eq!(index_of_value(&vs, "renovated").unwrap(), 0);
    assert_eq!(index_of_value(&vs, "derelict").unwrap(), 2);
    match index_of_value(&vs, "gutted") {
        Err(Error::Invalid(m)) => assert_eq!(
            m,
            "value \"gutted\" not in domain [\"renovated\", \"original\", \"derelict\"]"
        ),
        other => panic!("unexpected {other:?}"),
    }
    match index_of_value(&labels(&[]), "x") {
        Err(Error::Invalid(m)) => assert_eq!(m, "value \"x\" not in domain []"),
        other => panic!("unexpected {other:?}"),
    }
}

#[test]
fn booleans() {
    assert_eq!(boolean_values(), labels(&["true", "false"]));
}

#[test]
fn categorical_validation() {
    assert!(validate_values("cond", &labels(&["a", "b"])).is_ok());
    match validate_values("cond", &labels(&["a"])) {
        Err(Error::Invalid(m)) => {
            assert_eq!(m, "slot \"cond\": categorical domain needs >= 2 values")
        }
        other => panic!("unexpected {other:?}"),
    }
    match validate_values("cond", &labels(&["a", "b", "c", "b", "a"])) {
        Err(Error::Invalid(m)) => assert_eq!(m, "slot \"cond\": duplicate value \"b\""),
        other => panic!("unexpected {other:?}"),
    }
    match validate_values("q\"t", &labels(&["x", "x"])) {
        Err(Error::Invalid(m)) => assert_eq!(m, "slot \"q\\\"t\": duplicate value \"x\""),
        other => panic!("unexpected {other:?}"),
    }
}

#[test]
fn claim_slot() {
    let c = Claim::NotValue {
        slot: "city".to_string(),
        value: "berlin".to_string(),
    };
    assert_eq!(c.slot(), "city");
    let i = Claim::Interval {
        slot: "price".to_string(),
        lo_bits: 0,
        hi_bits: 0,
    };
    assert_eq!(i.slot(), "price");
}
