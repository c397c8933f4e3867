use nescio::binlog::{decode, encode, encode_log, header};
use nescio::model::evidence::{Claim, EvidenceRecord};
use nescio::store::{erase_slot, erase_source};

fn rec(entity: &str, slot: &str, value: &str, source: &str, at: i64) -> EvidenceRecord {
    EvidenceRecord {
        entity: entity.to_string(),
        claim: Claim::Value {
            slot: slot.to_string(),
            value: value.to_string(),
        },
        source: source.to_string(),
        observed_at: at,
    }
}

fn log() -> Vec<EvidenceRecord> {
    vec![
        rec("obj1", "condition", "original", "broker", 1),
        rec("obj1", "city", "berlin", "notary", 2),
        rec("obj2", "condition", "derelict", "broker", 3),
        rec("obj3", "city", "munich", "scraper", 4),
    ]
}

#[test]
fn whole_log_encoding() {
    let recs = log();
    let mut expected = header();
    for r in &recs {
        encode(r, &mut expected);
    }
    assert_eq!(encode_log(&recs), expected);
    assert_eq!(encode_log(&Vec::new()), header());
}

#[test]
fn forgetting_a_source_erases_exactly_its_records() {
    let (kept, dropped) = erase_source(log(), "broker");
    assert_eq!(dropped, 2);
    let ats: Vec<i64> = kept.iter().map(|r| r.observed_at).collect();
    assert_eq!(ats, vec![2, 4]);
    let (out, trailing) = decode(&encode_log(&kept)).unwrap();
    assert_eq!(trailing, 0);
    assert_eq!(out.len(), 2);
    assert!(out.iter().all(|r| r.source != "broker"));
    let (same, none) = erase_source(log(), "nobody");
    assert_eq!(none, 0);
    assert_eq!(same.len(), 4);
}

#[test]
fn removing_a_slot_erases_its_records() {
    let (kept, dropped) = erase_slot(log(), "city");
    assert_eq!(dropped, 2);
    let ats: Vec<i64> = kept.iter().map(|r| r.observed_at).collect();
    assert_eq!(ats, vec![1, 3]);
    let (all, zero) = erase_slot(log(), "price");
    assert_eq!(zero, 0);
    assert_eq!(all.len(), 4);
}
