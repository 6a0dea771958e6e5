//! Nested midpoint-rule quadrature over exact rational numbers.
//!
//! The library approximates an iterated integral of an expression over a
//! region whose bounds in each dimension may depend on the values already
//! chosen for outer dimensions.  One `BoundIter` partitions a single
//! interval into equal-width cells and yields midpoint/width pairs; the
//! nested driver rebuilds one such sampler per dimension for every outer
//! sample and accumulates `integrand * product of cell widths`.
//!
//! All values are exact rationals, so the composite midpoint rule is stated
//! and proved exactly: the widths of one dimension sum to `high - low`, a
//! constant integrand integrates to `c * (high - low)`, and the linear
//! integrand integrates to exactly half the square of the upper bound.
//! Every entry point also says exactly when it succeeds: the rejection
//! errors are classified input by input, and on well-scoped input with
//! positive sample counts the driver returns a value if and only if every
//! step of the computation fits the rational representation.

pub mod expr;
pub mod quad;
pub mod rat;
pub mod sampler;
