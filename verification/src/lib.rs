//! Fixed-width unsigned multi-limb integers.
//!
//! `Uint<LIMBS>` stores an unsigned integer as `LIMBS` little-endian 64-bit
//! limbs and offers wrapping addition, truncating schoolbook multiplication,
//! and bit-width-bounded modular reduction helpers.  Every operation carries a
//! contract relating the limbs of the result to the mathematical value of the
//! operands.

pub mod columns;
pub mod laws;
pub mod limbs;
mod uint;

pub use limbs::limbs_value;
pub use limbs::prefix_value;
pub use uint::Uint;
pub use uint::Uint64;
pub use uint::Uint128;
pub use uint::Uint256;
pub use uint::Uint512;
pub use uint::Uint1024;
