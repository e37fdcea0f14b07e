//! Decides whether sides taken from four triangles can be regrouped into the
//! three sides of one triangle that a caller-supplied oracle accepts.
//!
//! The search is exhaustive over small index spaces. Every enumeration is
//! driven by one primitive, the combination cursor of [`cursor`]; [`counting`]
//! says how many combinations a run of it visits. [`grouping`] splits a list
//! of sides into three summed groups, [`selector`] chooses the sides, and
//! [`relaxation`] relates the search within the selection rules to the one
//! without them.
//!
//! The oracle is any function of three side lengths. A caller that wants the
//! triangles regrouped by area hands in the comparison of areas.

pub mod counting;
pub mod cursor;
pub mod grouping;
pub mod relaxation;
pub mod selector;
