//! Evidence records: append-only claims from sources.
//!
//! An evidence record says who (`source`) claimed what (`claim`) about an
//! entity, and when (`observed_at`, unix seconds). The bounds of an
//! interval claim are IEEE-754 binary64 numbers; the log stores them as
//! their 64-bit patterns, and so do these types: a bound is carried as the
//! `u64` whose bits are the number (`f64::to_bits` / `f64::from_bits`).

use vstd::prelude::*;

verus! {

/// What an evidence says about one slot.
#[derive(Debug)]
pub enum Claim {
    /// "The value lies in [lo, hi]" — bounds as binary64 bit patterns.
    Interval { slot: String, lo_bits: u64, hi_bits: u64 },
    /// "The value is v" (categorical).
    Value { slot: String, value: String },
    /// "The value is NOT v" (categorical).
    NotValue { slot: String, value: String },
}

/// The mathematical content of a [`Claim`]: strings as character sequences.
pub enum ClaimView {
    Interval { slot: Seq<char>, lo_bits: u64, hi_bits: u64 },
    Value { slot: Seq<char>, value: Seq<char> },
    NotValue { slot: Seq<char>, value: Seq<char> },
}

impl ClaimView {
    pub open spec fn slot(self) -> Seq<char> {
        match self {
            ClaimView::Interval { slot, .. } => slot,
            ClaimView::Value { slot, .. } => slot,
            ClaimView::NotValue { slot, .. } => slot,
        }
    }
}

impl View for Claim {
    type V = ClaimView;

    open spec fn view(&self) -> ClaimView {
        match self {
            Claim::Interval { slot, lo_bits, hi_bits } => ClaimView::Interval {
                slot: slot@,
                lo_bits: *lo_bits,
                hi_bits: *hi_bits,
            },
            Claim::Value { slot, value } => ClaimView::Value { slot: slot@, value: value@ },
            Claim::NotValue { slot, value } => ClaimView::NotValue { slot: slot@, value: value@ },
        }
    }
}

impl Claim {
    /// The slot the claim is about.
    pub fn slot(&self) -> (s: &str)
        ensures
            s@ == self@.slot(),
    {
        match self {
            Claim::Interval { slot, .. } => slot.as_str(),
            Claim::Value { slot, .. } => slot.as_str(),
            Claim::NotValue { slot, .. } => slot.as_str(),
        }
    }
}

/// The persisted form of an evidence: source referenced by name, so that
/// re-calibrating a source corrects the interpretation of its history in
/// exactly one place.
#[derive(Debug)]
pub struct EvidenceRecord {
    pub entity: String,
    pub claim: Claim,
    pub source: String,
    /// Unix seconds.
    pub observed_at: i64,
}

/// The mathematical content of an [`EvidenceRecord`].
pub struct RecordView {
    pub entity: Seq<char>,
    pub claim: ClaimView,
    pub source: Seq<char>,
    pub observed_at: i64,
}

impl View for EvidenceRecord {
    type V = RecordView;

    open spec fn view(&self) -> RecordView {
        RecordView {
            entity: self.entity@,
            claim: self.claim@,
            source: self.source@,
            observed_at: self.observed_at,
        }
    }
}

/// The views of a sequence of records, in order.
pub open spec fn records_view(recs: Seq<EvidenceRecord>) -> Seq<RecordView> {
    recs.map_values(|r: EvidenceRecord| r@)
}

} // verus!
