//! A bounded registry of open backing files with clock-hand eviction,
//! and the arithmetic that places byte ranges inside them.
pub mod cache;
pub mod clock;
pub mod range;
