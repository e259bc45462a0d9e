//! Configuration of a simulation run: split strategy, relocation rate, drop
//! distribution, and the numeric parameters that the policies read.

use vstd::prelude::*;

verus! {

/// How eagerly a section is split in two.
#[derive(Clone, Copy, Debug, PartialEq, Eq, Structural)]
pub enum Strategy {
    /// Split as soon as one prospective child meets the growth threshold.
    Always,
    /// Split only when both prospective children meet the growth threshold.
    Complete,
}

impl Strategy {
    /// The strategy named by a piece of configuration text, if any.
    pub open spec fn spec_parse(s: Seq<char>) -> Result<Strategy, ()> {
        if s == "always"@ {
            Ok(Strategy::Always)
        } else if s == "complete"@ {
            Ok(Strategy::Complete)
        } else {
            Err(())
        }
    }

    /// Parse a strategy from configuration text; unrecognized text is an error.
    pub fn from_str(s: &str) -> (r: Result<Strategy, ()>)
        ensures
            r == Strategy::spec_parse(s@),
    {
        let t = s.to_owned();
        if t == "always".to_owned() {
            Ok(Strategy::Always)
        } else if t == "complete".to_owned() {
            Ok(Strategy::Complete)
        } else {
            Err(())
        }
    }
}

/// How fast the age-based relocation trigger fires.
///
/// The trigger is driven by the number of trailing zero bits of the event
/// hash: for an event with hash `h`, the nodes of age `a` relocate exactly
/// when `trailing_zeros(h) == a - init_age + 1 - r`, where `r` is 0 for the
/// standard rate and 1 for the aggressive rate. Under the standard rate half
/// of all events relocate nobody, a quarter relocate the nodes at `init_age`,
/// an eighth those at `init_age + 1`, and so on; the aggressive rate shifts
/// every tier one step toward relocating more eagerly.
#[derive(Clone, Copy, Debug, PartialEq, Eq, Structural)]
pub enum RelocationRate {
    Standard,
    Aggressive,
}

impl RelocationRate {
    /// The rate named by a piece of configuration text, if any.
    pub open spec fn spec_parse(s: Seq<char>) -> Result<RelocationRate, ()> {
        if s == "standard"@ {
            Ok(RelocationRate::Standard)
        } else if s == "aggressive"@ {
            Ok(RelocationRate::Aggressive)
        } else {
            Err(())
        }
    }

    /// Parse a relocation rate from configuration text; unrecognized text is
    /// an error.
    pub fn from_str(s: &str) -> (r: Result<RelocationRate, ()>)
        ensures
            r == RelocationRate::spec_parse(s@),
    {
        let t = s.to_owned();
        if t == "standard".to_owned() {
            Ok(RelocationRate::Standard)
        } else if t == "aggressive".to_owned() {
            Ok(RelocationRate::Aggressive)
        } else {
            Err(())
        }
    }
}

/// The age weighting used when a node is chosen to be dropped.
///
/// Both distributions give every live node strictly positive weight and give
/// younger nodes at least as much weight as older ones:
/// - `Exponential` halves the weight for each year of age above `init_age`.
/// - `RevProp` gives a node of age `a` weight inversely proportional to
///   `a - init_age + 1`.
#[derive(Clone, Copy, Debug, PartialEq, Eq, Structural)]
pub enum DropDist {
    Exponential,
    RevProp,
}

impl DropDist {
    /// The distribution named by a piece of configuration text, if any.
    pub open spec fn spec_parse(s: Seq<char>) -> Result<DropDist, ()> {
        if s == "exp"@ || s == "exponential"@ {
            Ok(DropDist::Exponential)
        } else if s == "rev"@ || s == "reverse-proportional"@ {
            Ok(DropDist::RevProp)
        } else {
            Err(())
        }
    }

    /// Parse a drop distribution from configuration text; unrecognized text
    /// is an error.
    pub fn from_str(s: &str) -> (r: Result<DropDist, ()>)
        ensures
            r == DropDist::spec_parse(s@),
    {
        let t = s.to_owned();
        if t == "exp".to_owned() || t == "exponential".to_owned() {
            Ok(DropDist::Exponential)
        } else if t == "rev".to_owned() || t == "reverse-proportional".to_owned() {
            Ok(DropDist::RevProp)
        } else {
            Err(())
        }
    }
}

/// Denominator of the distant-relocation probability: the probability is
/// expressed in parts per million, so that no floating point enters the core.
pub const PPM_SCALE: u32 = 1000000;

/// The immutable-for-the-run parameters of a simulation.
#[derive(Debug)]
pub struct Params {
    /// Age assigned to a node on join, rejoin and relocation.
    pub init_age: u8,
    /// Split strategy used by the split policy.
    pub split_strategy: Strategy,
    /// Hard cap on young members: above it a split is forced regardless of
    /// strategy.
    pub max_young: usize,
    /// Number of iterations the driver intends to run; not read by the core.
    pub iterations: usize,
    /// How often the driver prints summaries; not read by the core.
    pub summary_intervals: usize,
    /// Growth thresholds `(g0, g1)` on (young count, mature count): a
    /// prospective child meets them when its young count exceeds `g0` and its
    /// total membership exceeds `g0 + g1`.
    pub growth: (u8, u8),
    /// Where the driver writes an optional structure dump; not read by the core.
    pub structure_output_file: Option<String>,
    /// Age weighting for the choice of which node to drop.
    pub drop_dist: DropDist,
    /// Speed of the age-based relocation trigger.
    pub relocation_rate: RelocationRate,
    /// Probability of a distant relocation, in parts per million
    /// (0 = purely local, `PPM_SCALE` = purely distant).
    pub distant_relocation_ppm: u32,
}

impl Params {
    /// A parameter set the core accepts: the distant-relocation probability
    /// lies in [0, 1].
    pub open spec fn valid(&self) -> bool {
        self.distant_relocation_ppm <= PPM_SCALE
    }

    /// Check the numeric ranges of a parameter set; out-of-range values are a
    /// configuration error, never silently clamped.
    pub fn check(&self) -> (r: bool)
        ensures
            r == self.valid(),
    {
        self.distant_relocation_ppm <= PPM_SCALE
    }
}

} // verus!
