//! Node parameters parsed from command-line words: the chain to run, the
//! state-journal strategy, and the resealing policy.

use vstd::prelude::*;
use vstd::slice::slice_to_vec;
use vstd::string::StringExecFns;

verus! {

broadcast use vstd::std_specs::vec::group_vec_axioms;

/// Whether two byte vectors hold the same bytes.
fn eq_bytes(a: &Vec<u8>, b: &Vec<u8>) -> (r: bool)
    ensures
        r == (a@ == b@),
{
    if a.len() != b.len() {
        proof {
            assert(a@ != b@);
        }
        return false;
    }
    let mut i: usize = 0;
    while i < a.len()
        invariant
            i <= a@.len(),
            a@.len() == b@.len(),
            forall|j: int| 0 <= j < i ==> a@[j] == b@[j],
        decreases a@.len() - i,
    {
        if a[i] != b[i] {
            return false;
        }
        i = i + 1;
    }
    proof {
        assert(a@ =~= b@);
    }
    true
}

/// Whether two words are the same string.
fn str_eq(a: &str, b: &str) -> (r: bool)
    ensures
        r == (a@ == b@),
{
    let av = slice_to_vec(a.as_bytes());
    let bv = slice_to_vec(b.as_bytes());
    let same = eq_bytes(&av, &bv);
    proof {
        if same {
            vstd::utf8::encode_utf8_decode_utf8(a@);
            vstd::utf8::encode_utf8_decode_utf8(b@);
        }
    }
    same
}

/// Which chain specification the node runs.
#[derive(Debug, PartialEq)]
pub enum SpecType {
    /// The main network.
    Mainnet,
    /// The test network.
    Testnet,
    /// The early public test network.
    Olympic,
    /// A specification loaded from the named file.
    Custom(String),
}

/// Whether a parsed value is the one its word names: the main network
/// under its three names, the test network under two, the early network
/// under one, and any other word a custom specification file of that
/// name.
pub open spec fn spec_type_matches(t: SpecType, s: Seq<char>) -> bool {
    if s == "frontier"@ || s == "homestead"@ || s == "mainnet"@ {
        t == SpecType::Mainnet
    } else if s == "morden"@ || s == "testnet"@ {
        t == SpecType::Testnet
    } else if s == "olympic"@ {
        t == SpecType::Olympic
    } else {
        t matches SpecType::Custom(c) && c@ == s
    }
}

impl SpecType {
    /// Parses a chain name; every word parses, unknown ones as the name
    /// of a custom specification file.
    pub fn from_str(s: &str) -> (r: Result<SpecType, String>)
        ensures
            r matches Ok(t) && spec_type_matches(t, s@),
    {
        let spec = if str_eq(s, "frontier") || str_eq(s, "homestead") || str_eq(s, "mainnet") {
            SpecType::Mainnet
        } else if str_eq(s, "morden") || str_eq(s, "testnet") {
            SpecType::Testnet
        } else if str_eq(s, "olympic") {
            SpecType::Olympic
        } else {
            SpecType::Custom(s.to_owned())
        };
        Ok(spec)
    }

}

impl Default for SpecType {
    fn default() -> (r: SpecType)
        ensures
            r == SpecType::Mainnet,
    {
        SpecType::Mainnet
    }
}

/// A state-journal strategy.
#[derive(Clone, Copy, Debug, PartialEq, Eq, Structural)]
pub enum Algorithm {
    /// Keep every state version.
    Archive,
    /// Merge journal entries early.
    EarlyMerge,
    /// Keep a recent overlay.
    OverlayRecent,
    /// Reference-counted journal entries.
    RefCounted,
}

/// The strategy a word names, if any.
pub open spec fn algorithm_of(s: Seq<char>) -> Option<Algorithm> {
    if s == "archive"@ {
        Some(Algorithm::Archive)
    } else if s == "earlymerge"@ {
        Some(Algorithm::EarlyMerge)
    } else if s == "overlayrecent"@ {
        Some(Algorithm::OverlayRecent)
    } else if s == "refcounted"@ {
        Some(Algorithm::RefCounted)
    } else {
        None
    }
}

impl Algorithm {
    /// Parses a strategy name.
    pub fn from_str(s: &str) -> (r: Result<Algorithm, String>)
        ensures
            match algorithm_of(s@) {
                Some(a) => r == Ok::<Algorithm, String>(a),
                None => r is Err,
            },
    {
        if str_eq(s, "archive") {
            Ok(Algorithm::Archive)
        } else if str_eq(s, "earlymerge") {
            Ok(Algorithm::EarlyMerge)
        } else if str_eq(s, "overlayrecent") {
            Ok(Algorithm::OverlayRecent)
        } else if str_eq(s, "refcounted") {
            Ok(Algorithm::RefCounted)
        } else {
            Err("unknown journal strategy".to_owned())
        }
    }

    /// The strategy used when the eras of every candidate database tie.
    pub fn default_algorithm() -> (r: Algorithm)
        ensures
            r == Algorithm::OverlayRecent,
    {
        Algorithm::OverlayRecent
    }
}

/// How the state journal is chosen.
#[derive(Debug, PartialEq)]
pub enum Pruning {
    /// The named strategy.
    Specific(Algorithm),
    /// Whichever existing database is furthest along.
    Auto,
}

/// The pruning choice a word names, if any.
pub open spec fn pruning_of(s: Seq<char>) -> Option<Pruning> {
    if s == "auto"@ {
        Some(Pruning::Auto)
    } else {
        match algorithm_of(s) {
            Some(a) => Some(Pruning::Specific(a)),
            None => None,
        }
    }
}

impl Pruning {
    /// Parses a pruning choice.
    pub fn from_str(s: &str) -> (r: Result<Pruning, String>)
        ensures
            match pruning_of(s@) {
                Some(p) => r == Ok::<Pruning, String>(p),
                None => r is Err,
            },
    {
        if str_eq(s, "auto") {
            Ok(Pruning::Auto)
        } else {
            match Algorithm::from_str(s) {
                Ok(a) => Ok(Pruning::Specific(a)),
                Err(e) => Err(e),
            }
        }
    }

    /// The strategy to run with: the named one, or the candidate whose
    /// database has the latest era — the caller probes one era per
    /// candidate strategy, the default strategy last.
    pub fn to_algorithm(&self, candidates: &Vec<(Algorithm, Option<u64>)>) -> (r: Algorithm)
        requires
            self matches Pruning::Auto ==> candidates@.len() > 0,
        ensures
            self matches Pruning::Specific(a) ==> r == a,
            self matches Pruning::Auto ==> is_best_candidate(candidates@, r),
    {
        match self {
            Pruning::Specific(algo) => *algo,
            Pruning::Auto => find_best_db(candidates),
        }
    }
}

impl Default for Pruning {
    fn default() -> (r: Pruning)
        ensures
            r == Pruning::Auto,
    {
        Pruning::Auto
    }
}

/// Whether one probed era is at most another: no era at all is earliest.
pub open spec fn era_le(a: Option<u64>, b: Option<u64>) -> bool {
    match (a, b) {
        (None, _) => true,
        (Some(_), None) => false,
        (Some(x), Some(y)) => x <= y,
    }
}

/// The strategy is one of the candidates, its era is latest, and no
/// later candidate ties it.
pub open spec fn is_best_candidate(cs: Seq<(Algorithm, Option<u64>)>, r: Algorithm) -> bool {
    exists|i: int|
        {
            &&& 0 <= i < cs.len()
            &&& #[trigger] cs[i].0 == r
            &&& forall|j: int| 0 <= j < cs.len() ==> era_le(#[trigger] cs[j].1, cs[i].1)
            &&& forall|j: int| i < j < cs.len() ==> !era_le(cs[i].1, #[trigger] cs[j].1)
        }
}

/// Picks the candidate with the latest era, the last of any that tie:
/// if all databases stand equally far, the default, listed last, wins.
#[verifier::loop_isolation(false)]
fn find_best_db(candidates: &Vec<(Algorithm, Option<u64>)>) -> (r: Algorithm)
    requires
        candidates@.len() > 0,
    ensures
        is_best_candidate(candidates@, r),
{
    let mut best: usize = 0;
    let mut i: usize = 1;
    while i < candidates.len()
        invariant
            best < i <= candidates@.len(),
            forall|j: int| 0 <= j < i ==> era_le(
                #[trigger] candidates@[j].1,
                candidates@[best as int].1,
            ),
            forall|j: int| best < j < i ==> !era_le(
                candidates@[best as int].1,
                #[trigger] candidates@[j].1,
            ),
        decreases candidates@.len() - i,
    {
        let takes = match (candidates[i].1, candidates[best].1) {
            (None, None) => true,
            (None, Some(_)) => false,
            (Some(_), None) => true,
            (Some(x), Some(y)) => x >= y,
        };
        if takes {
            best = i;
        }
        i = i + 1;
    }
    candidates[best].0
}

/// When the miner reseals: on its own new transactions, on external
/// ones, on both, or never.
#[derive(Debug, PartialEq, Eq, Structural)]
pub struct ResealPolicy {
    /// Reseal on the node's own transactions.
    pub own: bool,
    /// Reseal on external transactions.
    pub external: bool,
}

/// The policy a word names, if any.
pub open spec fn reseal_policy_of(s: Seq<char>) -> Option<ResealPolicy> {
    if s == "none"@ {
        Some(ResealPolicy { own: false, external: false })
    } else if s == "own"@ {
        Some(ResealPolicy { own: true, external: false })
    } else if s == "ext"@ {
        Some(ResealPolicy { own: false, external: true })
    } else if s == "all"@ {
        Some(ResealPolicy { own: true, external: true })
    } else {
        None
    }
}

impl ResealPolicy {
    /// Parses a reseal policy; an unknown word is rejected with a
    /// message naming it.
    pub fn from_str(s: &str) -> (r: Result<ResealPolicy, String>)
        ensures
            match reseal_policy_of(s@) {
                Some(p) => r == Ok::<ResealPolicy, String>(p),
                None => (r matches Err(m) && m@ == "Invalid reseal value: "@ + s@),
            },
    {
        let pair: (bool, bool);
        if str_eq(s, "none") {
            pair = (false, false);
        } else if str_eq(s, "own") {
            pair = (true, false);
        } else if str_eq(s, "ext") {
            pair = (false, true);
        } else if str_eq(s, "all") {
            pair = (true, true);
        } else {
            return Err("Invalid reseal value: ".to_owned().concat(s));
        }
        Ok(ResealPolicy { own: pair.0, external: pair.1 })
    }

}

impl Default for ResealPolicy {
    fn default() -> (r: ResealPolicy)
        ensures
            r == (ResealPolicy { own: true, external: true }),
    {
        ResealPolicy { own: true, external: true }
    }
}

} // verus!
