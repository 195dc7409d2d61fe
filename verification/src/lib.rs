//! Conversion between unsigned integers and extended Roman numerals in
//! vinculum notation, where combining overline and underline marks on a
//! numeral multiply its value by successive powers of ten.

pub mod arith;
pub mod table;
pub mod text;
pub mod encode;
pub mod decode;
pub mod laws;

pub use decode::DecodeError;
pub use decode::vinculum2arabic;
pub use encode::EncodeError;
pub use encode::arabic2vinculum;
