//! Verified core of Calzone, a Geant4 wrapper simulating the energy deposited
//! by high-energy particles in a calorimeter.
pub mod cxx;
pub mod geometry;
pub mod simulation;
pub mod utils;
