//! The chips: each declares its gates on a constraint system and assigns
//! regions that satisfy them.

pub mod arth_chips;
pub mod merkle_chip;
pub mod poseidon_chip;
