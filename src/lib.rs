//! Turning a statute's text into legal-code records: the text is cleaned and cut into
//! chapters, the chapters wait in a work queue, and an operator annotates each one line by
//! line through a small command vocabulary; each chapter's records are committed at once.

use vstd::prelude::*;

pub mod record;
pub mod text;
pub mod normalize;
pub mod split;
pub mod session;
pub mod queue;

verus! {

} // verus!
