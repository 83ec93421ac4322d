//! Stub answers for the APIs the frontend calls but a private deployment
//! does not offer (no database, no accounts, no community). Well-formed
//! empty data keeps the UI working without error toasts.

use vstd::prelude::*;

use crate::text::str_eq;

verus! {

/// The `data` of a stub answer.
#[derive(Debug)]
pub enum StubData {
    /// `{results: []}`: an empty community search.
    NoResults,
    /// `{authenticated: false, userId: 0, username: null, author: null,
    /// type: null}`: a logged-out session.
    LoggedOut,
    /// `{version}`: the PCRE2 version.
    Version(String),
    /// `{}`.
    Empty,
}

/// The stub answer for `action`. Never fails.
pub fn stub_response(action: &str, pcre2_version: &str) -> (r: StubData)
    ensures
        if action@ == "patterns/search"@ || action@ == "account/patterns"@ {
            r is NoResults
        } else if action@ == "account/verify"@ {
            r is LoggedOut
        } else if action@ == "regex/version"@ {
            r matches StubData::Version(v) && v@ == pcre2_version@
        } else {
            r is Empty
        },
{
    if str_eq(action, "patterns/search") || str_eq(action, "account/patterns") {
        StubData::NoResults
    } else if str_eq(action, "account/verify") {
        StubData::LoggedOut
    } else if str_eq(action, "regex/version") {
        let mut v = String::new();
        v.push_str(pcre2_version);
        StubData::Version(v)
    } else {
        // patterns/load (no storage) and every other action
        // (save/delete/favorite/rate/...): an empty success object
        StubData::Empty
    }
}

} // verus!
