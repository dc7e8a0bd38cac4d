//! Origin of a note block's content. Kept as a plain string (rather than an
//! enum) so a future source needs no change to the stored data.

use vstd::prelude::*;

verus! {

/// Captured from dictation.
pub const DICTATION: &'static str = "dictation";

/// Captured from dictation and run through post-processing.
pub const POST_PROCESSED: &'static str = "post_processed";

/// Typed in by hand in the notepad.
pub const MANUAL: &'static str = "manual";

} // verus!
