//! Ready-made endpoints.

use crate::body::Body;
use crate::http_codec::{Response, ResponseView};
use vstd::prelude::*;
use vstd::string::StringSliceAdditionalSpecFns;
use vstd::string::StringExecFns;

verus! {

/// Serves a directory; for now it answers every request with `ok`.
pub struct Dir {
    pub path: String,
}

impl Dir {
    pub fn new(path: &str) -> (r: Self)
        ensures
            r.path@ == path@,
    {
        Dir { path: String::from_str(path) }
    }

    /// The answer to any request.
    pub fn respond(&self) -> (r: Response)
        ensures
            r@ == (ResponseView { status: 200, headers: Seq::empty(), body: Some("ok".spec_bytes()) }),
    {
        Response::new(200, Body::from_text("ok"))
    }
}

/// A redirection to another path.
pub struct Redirect {
    pub path: String,
}

impl Redirect {
    pub fn to(path: &str) -> (r: Self)
        ensures
            r.path@ == path@,
    {
        Redirect { path: String::from_str(path) }
    }
}

} // verus!
