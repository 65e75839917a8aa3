//! Internal coordinates of a molecule: bonds, bond angles and torsions,
//! derived from element symbols and Cartesian positions.
//!
//! Positions are integers in femtometres (1 Å = 100 000 fm), covalent radii
//! are integers in picometres. With integer positions every quantity the
//! analysis decides on (squared distances, dot and cross products, the side
//! of a plane) is computed exactly; the conversion to angles in degrees is
//! left to the caller.

pub mod vector;
pub mod order;
pub mod coordinate;
pub mod radii;
pub mod bonds;
pub mod angles;
pub mod torsions;
