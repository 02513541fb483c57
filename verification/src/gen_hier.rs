//! The configuration types of the generic statistics hierarchy: the
//! levels of a hierarchy, their periods and retention counts, and the
//! names of the instances in it.  They are those of `hier`.

pub use crate::hier::{HierDescriptor, HierDimension, HierIndex, HierSet};
