//! Simulation settings: what a run samples and records, its pseudo-random
//! stream, and the samplers of energy deposits and particles.
pub mod random;
pub mod sampler;
pub mod source;

use sampler::SamplerMode;
use vstd::prelude::*;

verus! {

/// What a simulation run samples and records.
#[derive(Clone, Copy, PartialEq, Eq, Structural, Debug)]
pub struct RunFlags {
    /// Sampling mode for energy deposits, if they are sampled.
    pub sample_deposits: Option<SamplerMode>,
    /// Whether particles are sampled at volume boundaries.
    pub sample_particles: bool,
    /// Whether secondary particles are produced.
    pub secondaries: bool,
    /// Whether Monte Carlo tracks are recorded.
    pub tracking: bool,
}

impl RunFlags {
    /// The flags given, the others by default: brief energy deposits,
    /// secondaries, no particles sampled and no tracks recorded.
    pub fn new(
        sample_deposits: Option<SamplerMode>,
        sample_particles: Option<bool>,
        secondaries: Option<bool>,
        tracking: Option<bool>,
    ) -> (r: RunFlags)
        ensures
            r.sample_deposits == match sample_deposits {
                Some(mode) => Some(mode),
                None => Some(SamplerMode::Brief),
            },
            r.sample_particles == match sample_particles {
                Some(b) => b,
                None => false,
            },
            r.secondaries == match secondaries {
                Some(b) => b,
                None => true,
            },
            r.tracking == match tracking {
                Some(b) => b,
                None => false,
            },
    {
        RunFlags {
            sample_deposits: match sample_deposits {
                Some(mode) => Some(mode),
                None => Some(SamplerMode::Brief),
            },
            sample_particles: match sample_particles {
                Some(b) => b,
                None => false,
            },
            secondaries: match secondaries {
                Some(b) => b,
                None => true,
            },
            tracking: match tracking {
                Some(b) => b,
                None => false,
            },
        }
    }
}

/// The named fields of the result of a run, in order: deposits, particles,
/// then tracks and vertices, those recorded only (so that, by default, the
/// energy deposits are read as the `deposits` field of the result).
pub open spec fn result_fields_spec(deposits: bool, particles: bool, tracks: bool) -> Seq<Seq<char>> {
    (if deposits { seq!["deposits"@] } else { seq![] })
        + (if particles { seq!["particles"@] } else { seq![] })
        + (if tracks { seq!["tracks"@, "vertices"@] } else { seq![] })
}

/// The fields of the result of a run.
pub fn result_fields(deposits: bool, particles: bool, tracks: bool) -> (r: Vec<&'static str>)
    ensures
        r@.map_values(|s: &str| s@) == result_fields_spec(deposits, particles, tracks),
{
    let mut fields: Vec<&'static str> = Vec::new();
    if deposits {
        fields.push("deposits");
    }
    if particles {
        fields.push("particles");
    }
    if tracks {
        fields.push("tracks");
        fields.push("vertices");
    }
    assert(fields@.map_values(|s: &str| s@) =~= result_fields_spec(deposits, particles, tracks));
    fields
}

} // verus!
