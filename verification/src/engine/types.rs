//! Query types of the engine's verbs that carry no numbers.

use vstd::prelude::*;

use crate::error::Error;
use crate::text::str_eq;

verus! {

/// Three-valued truth: region containment, not value comparison.
#[derive(Clone, Copy, Debug, PartialEq, Eq, Structural)]
pub enum Tri {
    True,
    Possible,
    False,
}

impl Tri {
    /// The lowercase name ("true" / "possible" / "false").
    pub fn as_str(&self) -> (s: &'static str)
        ensures
            s@ == match self {
                Tri::True => "true"@,
                Tri::Possible => "possible"@,
                Tri::False => "false"@,
            },
    {
        match self {
            Tri::True => "true",
            Tri::Possible => "possible",
            Tri::False => "false",
        }
    }
}

/// Region containment as three-valued truth, from whether each cell of a
/// region's support satisfies a predicate: `True` when every cell does (an
/// empty support included), `Possible` when some do, `False` when none
/// does.
pub fn containment(matches: &Vec<bool>) -> (t: Tri)
    ensures
        t == (if forall|i: int| 0 <= i < matches@.len() ==> matches@[i] {
            Tri::True
        } else if exists|i: int| 0 <= i < matches@.len() && matches@[i] {
            Tri::Possible
        } else {
            Tri::False
        }),
{
    let mut any = false;
    let mut all = true;
    let mut i: usize = 0;
    while i < matches.len()
        invariant
            i <= matches@.len(),
            all == (forall|k: int| 0 <= k < i ==> matches@[k]),
            any == (exists|k: int| 0 <= k < i && matches@[k]),
        decreases matches@.len() - i,
    {
        if matches[i] {
            any = true;
        } else {
            all = false;
        }
        i += 1;
    }
    if all {
        Tri::True
    } else if any {
        Tri::Possible
    } else {
        Tri::False
    }
}

/// FIND mode: regions that certainly lie in a range, or possibly intersect it.
#[derive(Clone, Copy, Debug, PartialEq, Eq, Structural)]
pub enum FindMode {
    Possible,
    Certain,
}

impl FindMode {
    /// "possible" or "certain"; anything else is refused.
    pub fn parse(s: &str) -> (r: Result<FindMode, Error>)
        ensures
            s@ == "possible"@ ==> r == Ok::<FindMode, Error>(FindMode::Possible),
            s@ == "certain"@ ==> r == Ok::<FindMode, Error>(FindMode::Certain),
            s@ != "possible"@ && s@ != "certain"@ ==> (r matches Err(Error::Invalid(m)) && m@
                == "mode must be 'possible' or 'certain'"@),
    {
        proof {
            reveal_strlit("possible");
            reveal_strlit("certain");
            assert("possible"@[0] != "certain"@[0]);
        }
        if str_eq(s, "possible") {
            Ok(FindMode::Possible)
        } else if str_eq(s, "certain") {
            Ok(FindMode::Certain)
        } else {
            Err(Error::Invalid("mode must be 'possible' or 'certain'".to_owned()))
        }
    }
}

impl std::str::FromStr for FindMode {
    type Err = Error;

    fn from_str(s: &str) -> (r: Result<FindMode, Error>)
        ensures
            s@ == "possible"@ ==> r == Ok::<FindMode, Error>(FindMode::Possible),
            s@ == "certain"@ ==> r == Ok::<FindMode, Error>(FindMode::Certain),
            s@ != "possible"@ && s@ != "certain"@ ==> (r matches Err(Error::Invalid(m)) && m@
                == "mode must be 'possible' or 'certain'"@),
    {
        FindMode::parse(s)
    }
}

/// Default of `JoinOptions::require_evidence`: join only entities that have
/// evidence on the compared slot.
pub fn default_true() -> (b: bool)
    ensures
        b,
{
    true
}

/// Default cap on the matches a join returns.
pub fn default_join_limit() -> (n: usize)
    ensures
        n == 1000,
{
    1000
}

} // verus!
