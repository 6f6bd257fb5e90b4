//! Plain data types shared with the Geant4 engine.
use vstd::prelude::*;

verus! {

/// Kind of an error reported by the engine.
#[derive(Clone, Copy, PartialEq, Eq, Structural, Debug)]
pub enum ErrorType {
    NoError,
    FileNotFoundError,
    Geant4Exception,
    IndexError,
    KeyboardInterrupt,
    MemoryError,
    ValueError,
}

/// Side of a point with respect to a solid.
#[derive(Clone, Copy, PartialEq, Eq, Structural, Debug)]
#[allow(non_camel_case_types)]
pub enum EInside {
    kOutside,
    kSurface,
    kInside,
}

/// Shape of a geometry volume, as known to the engine.
#[derive(Clone, Copy, PartialEq, Eq, Structural, Debug)]
pub enum ShapeType {
    Box,
    Cylinder,
    Envelope,
    Sphere,
    Tessellation,
}

/// Traversal algorithm for tessellated shapes.
#[derive(Clone, Copy, PartialEq, Eq, Structural, Debug)]
pub enum TSTAlgorithm {
    Bvh,
    Geant4,
}

/// State of matter of a material.
#[derive(Clone, Copy, PartialEq, Eq, Structural, Debug)]
#[allow(non_camel_case_types)]
pub enum G4State {
    kStateUndefined,
    kStateSolid,
    kStateLiquid,
    kStateGas,
}

/// Electromagnetic physics model.
#[derive(Clone, Copy, PartialEq, Eq, Structural, Debug)]
pub enum EmPhysicsModel {
    Dna,
    Livermore,
    NoModel,
    Option1,
    Option2,
    Option3,
    Option4,
    Penelope,
    Standard,
}

/// Hadronic physics model.
#[derive(Clone, Copy, PartialEq, Eq, Structural, Debug)]
#[allow(non_camel_case_types)]
pub enum HadPhysicsModel {
    FTFP_BERT,
    FTFP_BERT_HP,
    QGSP_BERT,
    QGSP_BERT_HP,
    QGSP_BIC,
    QGSP_BIC_HP,
    NoModel,
}

/// What a volume does with particles or energy deposits.
#[derive(Clone, Copy, PartialEq, Eq, Structural, Debug)]
pub enum Action {
    NoAction,
    Catch,
    Kill,
    Record,
}

/// The actions of a volume on ingoing particles, outgoing particles and
/// energy deposits.
#[derive(Clone, Copy, PartialEq, Eq, Structural, Debug)]
pub struct Roles {
    pub ingoing: Action,
    pub outgoing: Action,
    pub deposits: Action,
}

/// What the engine tells of a daughter volume.
pub struct DaughterInfo {
    pub path: String,
    pub solid: String,
}

/// What the engine tells of a volume: its absolute path, material, solid,
/// mother path (empty for the root volume) and daughters.
pub struct VolumeInfo {
    pub path: String,
    pub material: String,
    pub solid: String,
    pub mother: String,
    pub daughters: Vec<DaughterInfo>,
}

/// An error reported by the engine.
pub struct Error {
    pub tp: ErrorType,
    pub message: String,
}

} // verus!
