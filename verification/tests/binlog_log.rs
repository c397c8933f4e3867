use nescio::binlog::{decode, encode, header, LOG_BIN};
use nescio::model::evidence::{Claim, EvidenceRecord};

fn sample() -> Vec<EvidenceRecord> {
    vec![
        EvidenceRecord {
            entity: "villa_1".to_string(),
            claim: Claim::Interval {
                slot: "price".to_string(),
                lo_bits: 900_000.0f64.to_bits(),
                hi_bits: 1_000_000.0f64.to_bits(),
            },
            source: "broker".to_string(),
            observed_at: 1_000_000,
        },
        EvidenceRecord {
            entity: "villa_1".to_string(),
            claim: Claim::Value {
                slot: "condition".to_string(),
                value: "original".to_string(),
            },
            source: "notary".to_string(),
            observed_at: 2_000_000,
        },
    ]
}

#[test]
fn roundtrip() {
    let recs = sample();
    let mut buf = header();
    for r in &recs {
        encode(r, &mut buf);
    }
    let (out, trailing) = decode(&buf).unwrap();
    assert_eq!(trailing, 0);
    assert_eq!(out.len(), 2);
    assert_eq!(out[0].entity, "villa_1");
    assert!(matches!(out[0].claim, Claim::Interval { .. }));
    assert!(matches!(&out[1].claim, Claim::Value { value, .. } if value == "original"));
    assert_eq!(out[1].observed_at, 2_000_000);
}

#[test]
fn torn_tail_is_dropped_not_fatal() {
    let recs = sample();
    let mut buf = header();
    for r in &recs {
        encode(r, &mut buf);
    }
    // Chop the last few bytes: simulate a crash mid-append.
    buf.truncate(buf.len() - 5);
    let (out, trailing) = decode(&buf).unwrap();
    assert_eq!(out.len(), 1); // first record survives, torn second dropped
    assert!(trailing > 0);
}

#[test]
fn bad_magic_errors() {
    assert!(decode(b"not-a-log-at-all-really").is_err());
}

#[test]
fn empty_is_ok() {
    assert_eq!(decode(&[]).unwrap().0.len(), 0);
    assert_eq!(decode(&header()).unwrap().0.len(), 0);
}

/// The JSON line that the JSONL export writes for a record.
fn json_line(r: &EvidenceRecord) -> String {
    let mut claim = serde_json::Map::new();
    match &r.claim {
        Claim::Interval { slot, lo_bits, hi_bits } => {
            claim.insert("type".to_string(), serde_json::Value::from("interval"));
            claim.insert("slot".to_string(), serde_json::Value::from(slot.as_str()));
            claim.insert("lo".to_string(), serde_json::Value::from(f64::from_bits(*lo_bits)));
            claim.insert("hi".to_string(), serde_json::Value::from(f64::from_bits(*hi_bits)));
        }
        Claim::Value { slot, value } => {
            claim.insert("type".to_string(), serde_json::Value::from("value"));
            claim.insert("slot".to_string(), serde_json::Value::from(slot.as_str()));
            claim.insert("value".to_string(), serde_json::Value::from(value.as_str()));
        }
        Claim::NotValue { slot, value } => {
            claim.insert("type".to_string(), serde_json::Value::from("not_value"));
            claim.insert("slot".to_string(), serde_json::Value::from(slot.as_str()));
            claim.insert("value".to_string(), serde_json::Value::from(value.as_str()));
        }
    }
    let mut obj = serde_json::Map::new();
    obj.insert("entity".to_string(), serde_json::Value::from(r.entity.as_str()));
    obj.insert("claim".to_string(), serde_json::Value::Object(claim));
    obj.insert("source".to_string(), serde_json::Value::from(r.source.as_str()));
    obj.insert("observed_at".to_string(), serde_json::Value::from(r.observed_at));
    serde_json::to_string(&serde_json::Value::Object(obj)).unwrap()
}

#[test]
fn much_smaller_than_json() {
    let recs = sample();
    let mut bin = header();
    let mut json = 0usize;
    for r in &recs {
        encode(r, &mut bin);
        json += json_line(r).len() + 1;
    }
    assert!(
        bin.len() * 2 < json,
        "binary {} vs json {}",
        bin.len(),
        json
    );
}

#[test]
fn header_is_the_magic() {
    assert_eq!(header(), b"NSCLOG01".to_vec());
    assert_eq!(LOG_BIN, "log.bin");
}

#[test]
fn encoding_is_byte_exact() {
    let rec = EvidenceRecord {
        entity: "e".to_string(),
        claim: Claim::NotValue {
            slot: "s".to_string(),
            value: "v".to_string(),
        },
        source: "x".to_string(),
        observed_at: 258,
    };
    let mut buf = Vec::new();
    encode(&rec, &mut buf);
    assert_eq!(
        buf,
        vec![2, 1, 0, b'e', 1, 0, b'x', 2, 1, 0, 0, 0, 0, 0, 0, 1, 0, b's', 1, 0, b'v']
    );
}

#[test]
fn every_claim_kind_survives_the_log() {
    let recs = vec![
        EvidenceRecord {
            entity: "ä".to_string(),
            claim: Claim::NotValue {
                slot: "city".to_string(),
                value: "münchen".to_string(),
            },
            source: "s".to_string(),
            observed_at: -86_400,
        },
        EvidenceRecord {
            entity: "b".to_string(),
            claim: Claim::Interval {
                slot: "price".to_string(),
                lo_bits: (-1.5f64).to_bits(),
                hi_bits: 2.25f64.to_bits(),
            },
            source: "t".to_string(),
            observed_at: i64::MAX,
        },
    ];
    let mut buf = header();
    for r in &recs {
        encode(r, &mut buf);
    }
    let (out, trailing) = decode(&buf).unwrap();
    assert_eq!(trailing, 0);
    assert_eq!(out.len(), 2);
    assert_eq!(out[0].entity, "ä");
    assert_eq!(out[0].observed_at, -86_400);
    assert!(matches!(&out[0].claim, Claim::NotValue { slot, value } if slot == "city" && value == "münchen"));
    match &out[1].claim {
        Claim::Interval { slot, lo_bits, hi_bits } => {
            assert_eq!(slot, "price");
            assert_eq!(f64::from_bits(*lo_bits), -1.5);
            assert_eq!(f64::from_bits(*hi_bits), 2.25);
        }
        other => panic!("unexpected claim {other:?}"),
    }
    assert_eq!(out[1].observed_at, i64::MAX);
}

#[test]
fn unknown_tag_ends_the_log() {
    let mut buf = header();
    encode(&sample()[1], &mut buf);
    let good = buf.len();
    buf.extend_from_slice(&[9, 0, 0, 0, 0]);
    let (out, trailing) = decode(&buf).unwrap();
    assert_eq!(out.len(), 1);
    assert_eq!(trailing, buf.len() - good);
}

#[test]
fn short_garbage_is_a_bad_header() {
    assert!(decode(b"NSC").is_err());
    match decode(b"NSCLOG02") {
        Err(nescio::error::Error::Invalid(m)) => {
            assert_eq!(m, "log.bin: bad magic header (not a nescioDB binary log)")
        }
        other => panic!("unexpected {other:?}"),
    }
}
