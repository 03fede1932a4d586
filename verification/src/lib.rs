//! Bit-level codecs for compact numbers.
//!
//! Every function here works on the bit patterns of IEEE-754 numbers, held in
//! unsigned integers, and on exact integer models of the values that those
//! patterns stand for. Three pieces share that layout knowledge:
//!
//! * [`binary32`] splits a 32-bit pattern into its sign, exponent and
//!   fraction fields and joins them again;
//! * [`decoded`] turns the raw fields into their numeric meaning and
//!   multiplies the decoded parts back into a pattern;
//! * [`q7`] packs a number of the range from -1 to 1 into one signed byte,
//!   and [`unit_interval`] spreads a byte over the range from 0 to 1.
//!
//! [`binary64`] does for 64-bit patterns what [`binary32`] does for 32-bit
//! ones, and widens the narrow format into the wide one; [`power`] holds what
//! the others need to know about powers of two.
//!
//! No function takes or returns a float. A caller turns a float into its
//! pattern with `to_bits` and a pattern into a float with `from_bits`.

pub mod binary32;
pub mod binary64;
pub mod decoded;
pub mod power;
pub mod q7;
pub mod unit_interval;

pub use binary32::{decompose, RawFields};
pub use decoded::{decode, reconstruct, round_trip, Category, Decoded};
pub use q7::Q7;
pub use unit_interval::{unit_interval_from_byte, unit_interval_pattern};
