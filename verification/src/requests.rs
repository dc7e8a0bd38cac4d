//! Checks made on what the notepad window and the on-device language model
//! hand over, before the store acts on it.

use vstd::prelude::*;

verus! {

/// The selection offsets the window sends, as `char` offsets; `None` when
/// either is negative.
pub fn selection_offsets(start: i64, end: i64) -> (r: Option<(usize, usize)>)
    ensures
        r is Some <==> start >= 0 && end >= 0,
        r matches Some(o) ==> o.0 == start as usize && o.1 == end as usize,
{
    if start < 0 || end < 0 {
        None
    } else {
        Some((start as usize, end as usize))
    }
}

/// Message of a failed reply that carries none.
pub const UNKNOWN_ERROR: &'static str = "Unknown error";

/// The outcome of a reply of the on-device language model: its text (empty
/// when there is none) when `success` is 1, else its error message (or
/// `UNKNOWN_ERROR` when there is none).
pub fn llm_reply(success: i32, response: Option<String>, error_message: Option<String>) -> (r: Result<String, String>)
    ensures
        match r {
            Ok(t) => success == 1 && t@ == match response {
                Some(x) => x@,
                None => Seq::<char>::empty(),
            },
            Err(m) => success != 1 && m@ == match error_message {
                Some(x) => x@,
                None => UNKNOWN_ERROR@,
            },
        },
{
    if success == 1 {
        match response {
            Some(t) => Ok(t),
            None => Ok(String::new()),
        }
    } else {
        match error_message {
            Some(m) => Err(m),
            None => Err(UNKNOWN_ERROR.to_owned()),
        }
    }
}

} // verus!
