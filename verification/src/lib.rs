//! Composition and normalization of lists of textual edits.
//!
//! An edit replaces a byte range of a text by a replacement. A list of edits
//! is canonical when its ranges are well formed, sorted and do not overlap;
//! such a list is carried out at once, every range taken in the text as it
//! was before.
//!
//! [`merge`] composes two canonical lists made one after the other, the
//! second against the text that the first produces, into one canonical list
//! against the first text. An edit of either list may overlap any number of
//! edits of the other; what overlaps becomes one edit. [`normalize`] turns a
//! list of edits made one at a time, each against the text as the edits
//! before it left it, into the canonical list against the first text.
//! [`apply`] carries out a canonical list, and [`validate`] tells whether a
//! list is canonical.
//!
//! The contracts speak of edits over byte sequences ([`model::Edit`]). The
//! composed list is [`compose::compose`], and [`laws`] proves that it does to
//! every text what the two lists do one after the other.

pub mod model;
pub mod shape;
pub mod chars;
pub mod compose;
pub mod effect;
pub mod cuts;
pub mod edits;
pub mod merge;
pub mod apply;
pub mod normalize;
pub mod laws;
pub mod normal_laws;
pub mod text_laws;

pub use crate::apply::apply;
pub use crate::edits::{validate, EditError, Text};
pub use crate::merge::{merge, merge_lists};
pub use crate::normalize::normalize;
