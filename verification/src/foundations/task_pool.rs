//! The reply of a simulated fetch.
use vstd::prelude::*;
use vstd::string::StringExecFns;

verus! {

/// The reply to fetching `url`: `fetched: ` followed by the url.
pub fn fetched_message(url: &str) -> (reply: String)
    ensures
        reply@ == seq!['f', 'e', 't', 'c', 'h', 'e', 'd', ':', ' '] + url@,
{
    proof {
        reveal_strlit("fetched: ");
    }
    let mut reply = String::from_str("fetched: ");
    reply.append(url);
    reply
}

} // verus!
