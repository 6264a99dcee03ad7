//! Classification of inorganic substances.
//!
//! Given a multiset of (element, stoichiometric index) pairs, the library
//! decides which taxonomic class the substance belongs to (simple substance,
//! hydride, oxide, peroxide, base, acid or salt) and assigns every element
//! an oxidation state such that the whole species is electrically neutral
//! and every assigned state is one the element's valencies permit.

pub mod element;
pub mod laws;
pub mod math_util;
pub mod periodic_table;
pub mod recognizers;
pub mod salt;
pub mod search;
pub mod substance;

use vstd::prelude::*;

verus! {

} // verus!
