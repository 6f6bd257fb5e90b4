//! The decisions of a particles generator: each property of the particles is
//! set once, by one operation, weighted or not; what is left unset when the
//! particles are generated takes its default.
use crate::utils::text::str_eq;
use vstd::prelude::*;

verus! {

/// A property of the particles that an operation of a generator sets.
#[derive(Clone, Copy, PartialEq, Eq, Structural, Debug)]
pub enum Setting {
    /// Positions, drawn inside a volume.
    Position,
    /// Energies, drawn from a spectrum.
    Energy,
    /// Directions, drawn within a solid angle.
    Direction,
}

impl Setting {
    /// The name of the operation that sets this property.
    pub open spec fn operation_text(self) -> Seq<char> {
        match self {
            Setting::Position => "inside"@,
            Setting::Energy => "spectrum"@,
            Setting::Direction => "solid_angle"@,
        }
    }

    /// Why this property cannot be set again.
    pub open spec fn defined_text(self) -> Seq<char> {
        match self {
            Setting::Position => "position already defined"@,
            Setting::Energy => "energy already defined"@,
            Setting::Direction => "direction already defined"@,
        }
    }
}

/// The refusal of an operation whose property is already set.
#[derive(Clone, Copy, PartialEq, Eq, Structural, Debug)]
pub struct GeneratorError {
    pub setting: Setting,
}

impl GeneratorError {
    /// The operation refused.
    pub fn what(&self) -> (r: &'static str)
        ensures
            r@ == self.setting.operation_text(),
    {
        match self.setting {
            Setting::Position => "inside",
            Setting::Energy => "spectrum",
            Setting::Direction => "solid_angle",
        }
    }

    /// Why it was refused.
    pub fn why(&self) -> (r: &'static str)
        ensures
            r@ == self.setting.defined_text(),
    {
        match self.setting {
            Setting::Position => "position already defined",
            Setting::Energy => "energy already defined",
            Setting::Direction => "direction already defined",
        }
    }
}

/// How an operation goes about weights: whether it creates them first (all
/// ones), and whether it multiplies them by what it draws from.
#[derive(Clone, Copy, PartialEq, Eq, Structural, Debug)]
pub struct Plan {
    pub create_weights: bool,
    pub weight: bool,
}

/// The properties of the particles that take their default value: directions
/// along the z axis, 1 for energies, 22 (photons) for particle identifiers.
#[derive(Clone, Copy, PartialEq, Eq, Structural, Debug)]
pub struct Defaults {
    pub direction: bool,
    pub energy: bool,
    pub pid: bool,
}

/// Which properties of its particles a generator has set, and whether it
/// weights them.
#[derive(Clone, Copy, PartialEq, Eq, Structural, Debug)]
pub struct GeneratorState {
    pub pid: bool,
    pub energy: bool,
    pub position: bool,
    pub direction: bool,
    pub weighted: bool,
}

impl GeneratorState {
    /// Whether the property is set.
    pub open spec fn is_set(self, setting: Setting) -> bool {
        match setting {
            Setting::Position => self.position,
            Setting::Energy => self.energy,
            Setting::Direction => self.direction,
        }
    }

    /// This state, the property set.
    pub open spec fn with_set(self, setting: Setting) -> GeneratorState {
        match setting {
            Setting::Position => GeneratorState { position: true, ..self },
            Setting::Energy => GeneratorState { energy: true, ..self },
            Setting::Direction => GeneratorState { direction: true, ..self },
        }
    }

    /// The plan of an operation asked to weight or not, or else weighting as
    /// the generator does.
    pub open spec fn plan_for(self, weight: Option<bool>) -> Plan {
        let w = match weight {
            Some(w) => w,
            None => self.weighted,
        };
        Plan { create_weights: w && !self.weighted, weight: w }
    }

    /// A generator that has set nothing, weighting its particles if asked to.
    pub fn new(weight: Option<bool>) -> (r: GeneratorState)
        ensures
            r == (GeneratorState {
                pid: false,
                energy: false,
                position: false,
                direction: false,
                weighted: weight == Some(true),
            }),
    {
        let weighted = match weight {
            Some(w) => w,
            None => false,
        };
        GeneratorState { pid: false, energy: false, position: false, direction: false, weighted }
    }

    /// Whether the operation setting `setting` may go on, and how it goes
    /// about weights.
    pub fn start(&self, setting: Setting, weight: Option<bool>) -> (r: Result<Plan, GeneratorError>)
        ensures
            match r {
                Ok(plan) => !self.is_set(setting) && plan == self.plan_for(weight),
                Err(e) => self.is_set(setting) && e.setting == setting,
            },
    {
        let set = match setting {
            Setting::Position => self.position,
            Setting::Energy => self.energy,
            Setting::Direction => self.direction,
        };
        if set {
            return Err(GeneratorError { setting });
        }
        let w = match weight {
            Some(w) => w,
            None => self.weighted,
        };
        Ok(Plan { create_weights: w && !self.weighted, weight: w })
    }

    /// The weights are created.
    pub fn weights_created(&mut self)
        ensures
            *final(self) == (GeneratorState { weighted: true, ..*old(self) }),
    {
        self.weighted = true;
    }

    /// The operation setting `setting` is done.
    pub fn finish(&mut self, setting: Setting)
        ensures
            *final(self) == old(self).with_set(setting),
    {
        match setting {
            Setting::Position => self.position = true,
            Setting::Energy => self.energy = true,
            Setting::Direction => self.direction = true,
        }
    }

    /// Generating the particles: identifiers and energies not set take their
    /// default, and are set; so are positions, left at the origin; the
    /// direction, where unset, is then to be drawn over the whole solid angle.
    pub fn generate(&mut self) -> (r: Defaults)
        ensures
            r == (Defaults { direction: false, energy: !old(self).energy, pid: !old(self).pid }),
            *final(self) == (GeneratorState { pid: true, energy: true, position: true, ..*old(self) }),
    {
        let r = Defaults { direction: false, energy: !self.energy, pid: !self.pid };
        self.pid = true;
        self.energy = true;
        self.position = true;
        r
    }
}

/// Whether `keys` holds `key`.
pub open spec fn has_key(keys: Seq<Seq<char>>, key: Seq<char>) -> bool {
    exists|i: int| 0 <= i < keys.len() && keys[i] == key
}

/// Whether `keys` holds `key`.
fn contains_key(keys: &[&str], key: &str) -> (r: bool)
    ensures
        r == has_key(keys@.map_values(|k: &str| k@), key@),
{
    let ghost ks = keys@.map_values(|k: &str| k@);
    let mut i: usize = 0;
    while i < keys.len()
        invariant
            0 <= i <= keys@.len(),
            ks == keys@.map_values(|k: &str| k@),
            forall|j: int| 0 <= j < i ==> ks[j] != key@,
        decreases keys@.len() - i,
    {
        if str_eq(keys[i], key) {
            assert(ks[i as int] == key@);
            return true;
        }
        i = i + 1;
    }
    false
}

/// The properties that an array of particles created with the given fields
/// `keys` takes by default: those that no key names.
pub fn particle_defaults(keys: &[&str]) -> (r: Defaults)
    ensures
        ({
            let ks = keys@.map_values(|k: &str| k@);
            r == (Defaults {
                direction: !has_key(ks, "direction"@),
                energy: !has_key(ks, "energy"@),
                pid: !has_key(ks, "pid"@),
            })
        }),
{
    Defaults {
        direction: !contains_key(keys, "direction"),
        energy: !contains_key(keys, "energy"),
        pid: !contains_key(keys, "pid"),
    }
}

/// Each property is set once: once its operation is done, `start` refuses it
/// again, and the other properties stay as they were.
pub proof fn law_set_once(state: GeneratorState, setting: Setting, other: Setting)
    ensures
        state.with_set(setting).is_set(setting),
        other != setting ==> state.with_set(setting).is_set(other) == state.is_set(other),
{
}

/// Weights are created once: once created, no operation creates them again,
/// and each weights its particles unless told not to.
pub proof fn law_weights_once(state: GeneratorState, weight: Option<bool>)
    ensures
        ({
            let after = GeneratorState { weighted: true, ..state };
            &&& !after.plan_for(weight).create_weights
            &&& after.plan_for(weight).weight == (weight != Some(false))
        }),
{
}

} // verus!
