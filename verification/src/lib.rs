//! Parsing of `.http`-style request description files.
//!
//! A file holds one or more HTTP request descriptions separated by `###`
//! marker lines.  Each block is parsed by a small line-oriented state
//! machine into a [`request::Request`] value: method, URL, protocol,
//! headers, URL query parameters and a raw body.  `{{NAME}}` placeholders
//! are expanded from a caller-supplied environment before any parsing.

use vstd::prelude::*;

pub mod expand;
pub mod request;
pub mod text;
pub mod worker;

verus! {

/// The positions of the requests that a selection asks for: every index
/// in file order for `-1` ("all"), the single index `reqn` when it lies
/// within the parsed list, and nothing for any other selection.
pub open spec fn selected_indexes(n_requests: nat, reqn: int) -> Option<Seq<int>> {
    if reqn == -1 {
        Some(Seq::new(n_requests, |k: int| k))
    } else if 0 <= reqn < n_requests {
        Some(seq![reqn])
    } else {
        None
    }
}

/// Computes which requests a selection asks for, equal to
/// [`selected_indexes`].
pub fn select_request_indexes(n_requests: usize, reqn: isize) -> (r: Option<Vec<usize>>)
    ensures
        match selected_indexes(n_requests as nat, reqn as int) {
            Some(ks) => r matches Some(v) && v@.map_values(|u: usize| u as int) == ks,
            None => r is None,
        },
{
    if reqn == -1 {
        let mut v: Vec<usize> = Vec::new();
        for i in 0..n_requests
            invariant
                v@.len() == i,
                forall|k: int| 0 <= k < v@.len() ==> v@[k] == k,
        {
            v.push(i);
        }
        proof {
            assert(v@.map_values(|u: usize| u as int) =~= Seq::new(
                n_requests as nat,
                |k: int| k,
            ));
        }
        Some(v)
    } else if reqn >= 0 && (reqn as usize) < n_requests {
        let mut v: Vec<usize> = Vec::new();
        v.push(reqn as usize);
        proof {
            assert(v@.map_values(|u: usize| u as int) =~= seq![reqn as int]);
        }
        Some(v)
    } else {
        None
    }
}

} // verus!
