//! Arithmetization of a sponge hash and of a Merkle path into rows, columns,
//! selector-gated polynomial identities and copy constraints, with the
//! relations that the gates enforce stated and proved.
//!
//! - [`field`]: the elements of the field and their arithmetic, which the
//!   `pasta` field does.
//! - [`plonk`]: columns, polynomial expressions, gates and the constraint
//!   system; the table that a proof system is handed, and what it means for a
//!   table to satisfy its gates and its equality constraints.
//! - [`circuit`]: the layouter, into whose table the chips assign their
//!   regions, and the check of a finished table.
//! - [`chips`]: the sponge chip, the Merkle path chip and a small arithmetic
//!   chip. Each declares its gates, with the relation that each gate is
//!   equivalent to, and lays out regions that satisfy them.
//! - [`circuits`]: the circuits that put the chips together, with the
//!   statement that a circuit's table is satisfied for.
//!
//! A table is laid out for given public inputs. Whether it satisfies its
//! constraint system is decided by [`circuit::Layouter::satisfied`], and is
//! stated for each circuit in terms of the witness and the public inputs.

pub mod field;
pub mod plonk;
pub mod circuit;
pub mod chips;
pub mod circuits;
