//! Finite-field arithmetic, arithmetic gates and circuit scaffolding for a
//! PLONK/Halo-style proof system.
pub mod limbs;
pub mod field;
pub mod circuit;
pub mod gates;
pub mod plonk_recursion;
pub mod curve;
pub mod hash_to_curve;
