//! Status messages for a chat platform that renders a small subset of HTML:
//! a builder that lays out a status glyph, a label and free text, and a
//! sanitizer that bounds, escapes and selectively re-enables inline markup.
use vstd::prelude::*;

pub mod laws;
pub mod markup;
pub mod telegram;
pub mod telegram_queue_message;

verus! {

} // verus!
