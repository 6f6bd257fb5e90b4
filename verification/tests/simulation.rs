use calzone::cxx::{Action, Roles};
use calzone::simulation::random::Random;
use calzone::simulation::sampler::{Role, RoleSubject, RoleVerb, SamplerMode};
use calzone::simulation::source::{particle_defaults, Defaults, GeneratorState, Plan, Setting};
use calzone::simulation::{result_fields, RunFlags};
use rand::RngCore;

#[test]
fn random_seeded() {
    let mut random = Random::new(Some(123)).ok().unwrap();
    assert_eq!(random.seed(), 123);
    assert_eq!(random.index(), 0);
    let a = random.draw().next_u64();
    let b = random.draw().next_u64();
    assert_eq!(random.index(), 2);

    // The same seed gives the same stream.
    let mut other = Random::new(Some(123)).ok().unwrap();
    assert_eq!(other.draw().next_u64(), a);

    // Moving to an index gives the draws from there on.
    other.set_index(Some(1));
    assert_eq!(other.index(), 1);
    assert_eq!(other.draw().next_u64(), b);

    // Back to the start.
    other.set_index(None);
    assert_eq!(other.index(), 0);
    assert_eq!(other.seed(), 123);
    assert_eq!(other.draw().next_u64(), a);

    assert!(other.set_seed(Some(7)).is_ok());
    assert_eq!(other.seed(), 7);
    assert_eq!(other.index(), 0);
}

#[test]
fn random_from_entropy() {
    let random = Random::new(None).ok().unwrap();
    assert_eq!(random.index(), 0);
}

#[test]
fn run_flags() {
    let flags = RunFlags::new(None, None, None, None);
    assert_eq!(flags.sample_deposits, Some(SamplerMode::Brief));
    assert!(!flags.sample_particles);
    assert!(flags.secondaries);
    assert!(!flags.tracking);
    let flags = RunFlags::new(Some(SamplerMode::Detailed), Some(true), Some(false), Some(true));
    assert_eq!(flags.sample_deposits, Some(SamplerMode::Detailed));
    assert!(flags.sample_particles && !flags.secondaries && flags.tracking);
}

#[test]
fn run_result_fields() {
    assert_eq!(result_fields(true, false, false), vec!["deposits"]);
    assert_eq!(result_fields(false, true, false), vec!["particles"]);
    assert_eq!(result_fields(false, false, true), vec!["tracks", "vertices"]);
    assert_eq!(result_fields(true, true, true), vec!["deposits", "particles", "tracks", "vertices"]);
    assert!(result_fields(false, false, false).is_empty());
}

#[test]
fn roles_parsed() {
    let roles = Roles::try_from(&["record_deposits".to_string(), "kill_outgoing".to_string()]).ok().unwrap();
    assert_eq!(roles.deposits, Action::Record);
    assert_eq!(roles.outgoing, Action::Kill);
    assert_eq!(roles.ingoing, Action::NoAction);
    assert_eq!(roles.names(), vec!["record_deposits".to_string(), "kill_outgoing".to_string()]);
    assert!(roles.any());
    assert!(!Roles::default().any());

    let all = Roles::try_from(&["record_all".to_string()]).ok().unwrap();
    assert_eq!(all.ingoing, Action::Record);
    assert_eq!(all.outgoing, Action::Record);
    assert_eq!(all.deposits, Action::Record);

    assert_eq!(
        Roles::try_from(&["catch_deposits".to_string()]).err().unwrap(),
        "cannot 'catch' deposits"
    );
    assert_eq!(
        Roles::try_from(&["catch".to_string()]).err().unwrap(),
        "syntax error: missing verb or subject"
    );
    assert_eq!(
        Role::try_from("kill_everything").err().unwrap(),
        "unknown subject: expected one of 'all', 'deposits', 'ingoing', 'outgoing' or 'particles', found 'everything'"
    );
    let role = Role::try_from("catch_particles").ok().unwrap();
    assert_eq!(role.verb, RoleVerb::Catch);
    assert_eq!(role.subject, RoleSubject::Particles);
    assert_eq!(SamplerMode::from_str("detailed").ok(), Some(SamplerMode::Detailed));
    assert_eq!(SamplerMode::from_str("full").unwrap_err(), vec!["brief", "detailed"]);
}

#[test]
fn generator_sets_each_property_once() {
    let mut state = GeneratorState::new(None);
    assert!(!state.weighted);
    let plan = state.start(Setting::Position, None).ok().unwrap();
    assert_eq!(plan, Plan { create_weights: false, weight: false });
    state.finish(Setting::Position);
    let e = state.start(Setting::Position, Some(true)).err().unwrap();
    assert_eq!(e.what(), "inside");
    assert_eq!(e.why(), "position already defined");
    assert!(state.start(Setting::Energy, None).is_ok());
    state.finish(Setting::Energy);
    let e = state.start(Setting::Energy, None).err().unwrap();
    assert_eq!((e.what(), e.why()), ("spectrum", "energy already defined"));
    assert!(state.start(Setting::Direction, None).is_ok());
}

#[test]
fn generator_weights() {
    let mut state = GeneratorState::new(None);
    let plan = state.start(Setting::Energy, Some(true)).ok().unwrap();
    assert_eq!(plan, Plan { create_weights: true, weight: true });
    state.weights_created();
    state.finish(Setting::Energy);
    // Once created, weights apply by default and are not created again.
    assert_eq!(state.start(Setting::Direction, None).ok().unwrap(), Plan { create_weights: false, weight: true });
    assert_eq!(state.start(Setting::Direction, Some(false)).ok().unwrap(), Plan { create_weights: false, weight: false });
    let weighted = GeneratorState::new(Some(true));
    assert!(weighted.weighted);
    assert_eq!(weighted.start(Setting::Position, None).ok().unwrap(), Plan { create_weights: false, weight: true });
}

#[test]
fn generator_defaults() {
    let mut state = GeneratorState::new(None);
    state.finish(Setting::Energy);
    let defaults = state.generate();
    assert_eq!(defaults, Defaults { direction: false, energy: false, pid: true });
    assert!(state.pid && state.energy && state.position && !state.direction);
    let e = state.start(Setting::Direction, None);
    assert!(e.is_ok());
    assert_eq!(state.generate(), Defaults { direction: false, energy: false, pid: false });
    assert_eq!(
        particle_defaults(&["energy", "weight"]),
        Defaults { direction: true, energy: false, pid: true }
    );
    assert_eq!(
        particle_defaults(&["pid", "direction", "energy"]),
        Defaults { direction: false, energy: false, pid: false }
    );
    assert_eq!(particle_defaults(&[]), Defaults { direction: true, energy: true, pid: true });
}

#[test]
fn random_set_index_replays_the_stream() {
    let mut fresh = Random::new(Some(7)).ok().unwrap();
    let values: Vec<u64> = (0..6).map(|_| fresh.draw().next_u64()).collect();
    let mut random = Random::new(Some(7)).ok().unwrap();
    random.set_index(Some(3));
    assert_eq!(random.index(), 3);
    assert_eq!(random.draw().next_u64(), values[3]);
    assert_eq!(random.draw().next_u64(), values[4]);
    // Back, the long way round.
    random.set_index(Some(1));
    assert_eq!(random.draw().next_u64(), values[1]);
    random.set_index(None);
    assert_eq!(random.index(), 0);
    assert_eq!(random.draw().next_u64(), values[0]);
}
