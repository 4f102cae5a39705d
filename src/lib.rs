//! Signed-overpunch (zoned decimal) fields: the encoding of fixed-point
//! numbers used by COBOL-style records, where the last digit and the sign of
//! a number share one character.
pub mod codec;
pub mod decimal;
pub mod laws;
pub mod picture;
pub mod table;

pub use codec::{
    convert_from_signed_format, convert_to_signed_format, extract, OverpunchError,
};
pub use decimal::ExactDecimal;
pub use picture::decimal_places_from_picture;
