//! RGB(A) colors: hexadecimal and functional notation, and the blend of two
//! colors.
//!
//! A [`Color`] holds three 8-bit channels and an opacity. It is read from
//! `#RGB`, `#RRGGBB`, `#RRGGBBAA`, `rgb(r, g, b)` and `rgba(r, g, b, a)`,
//! written as `#RRGGBB[AA]` and as `rgb(...)` or `rgba(...)`, and blended with
//! another color by a percentage.
//!
//! The opacity, the percentage and the numbers of the functional notation are
//! IEEE 754 binary32 numbers. They are held as their bit patterns, and
//! [`binary32`] computes on the patterns: comparison, the four operations with
//! rounding to the nearest, and decimal notation both ways. Every contract
//! is stated over integers, as the value of a number in units of 2^-149, and
//! proved; a caller with a floating-point number at hand passes its bits.
pub mod binary32;
pub mod color;
pub mod error;
pub mod round_trip;
pub mod utils;

pub use color::Color;
pub use error::ColorError;
