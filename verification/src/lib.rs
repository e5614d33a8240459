//! Reading the pages of the Japan Racing Association's web site: the list of
//! graded races of a year, the entry lists of coming races and the results of
//! past ones.
//!
//! `dom` is where the library meets the HTML parser; `text` holds the small
//! operations on text that the readers use; `common`, `graderace`, `wakuban`
//! and `result` read the pages.
use vstd::prelude::*;

pub mod args;
pub mod common;
pub mod dom;
pub mod graderace;
pub mod result;
pub mod text;
pub mod wakuban;

verus! {

} // verus!
