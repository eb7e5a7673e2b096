//! Dimensionally safe physical quantities: the dimensional-analysis and
//! conversion-factor engine.
//!
//! - [`dimension`]: sparse, canonical dimension vectors (base-dimension key to exponent);
//! - [`conversion`]: exact positive conversion factors, closed under product, quotient,
//!   reciprocal and integer power;
//! - [`rational`]: signed exact fractions;
//! - [`base_unit`]: base-unit identities, scaled base units, the graph of declared
//!   conversion edges between them, and the catalog of base units;
//! - [`unit`]: unit systems, system units, scaled units, the conversion resolver, and
//!   the units of products and quotients;
//! - [`system`]: the standard dimensions, the SI and imperial systems and their units;
//! - [`notation`] and [`arith`]: decimal text and integer helpers.
//!
//! Every conversion is exact until the caller reads a factor out as a floating value.

pub mod arith;
pub mod base_unit;
pub mod conversion;
pub mod dimension;
pub mod notation;
pub mod rational;
pub mod system;
pub mod unit;
