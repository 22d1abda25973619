//! What the client prints for each answered call.
//!
//! The REPL itself — line editing, command words, the transport — lives
//! outside the library; these functions fix the one decision it makes per
//! response: which line a store answer turns into. A transport failure
//! never reaches them; it is reported as an error by the layer that saw
//! it.

use vstd::prelude::*;

verus! {

/// The line printed for a `get` answer: the value, or `nil` when the key
/// is absent.
pub fn render_get(resp: &Option<String>) -> (out: String)
    ensures
        match resp {
            Some(v) => out@ == v@,
            None => out@ == "nil"@,
        },
{
    match resp {
        Some(v) => v.clone(),
        None => "nil".to_owned(),
    }
}

/// The line printed for an answered `set`, whatever value it displaced.
pub fn render_set() -> (out: String)
    ensures
        out@ == "OK"@,
{
    "OK".to_owned()
}

/// The line printed for a `del` answer: `1` when a pair was removed, `0`
/// when the key was absent and nothing was deleted.
pub fn render_del(resp: &Option<String>) -> (out: String)
    ensures
        resp is Some ==> out@ == "1"@,
        resp is None ==> out@ == "0"@,
{
    match resp {
        Some(_) => "1".to_owned(),
        None => "0".to_owned(),
    }
}

} // verus!
