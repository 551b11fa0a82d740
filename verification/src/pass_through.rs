//! The pass-through proxy's rule: GET and POST requests go upstream, others
//! are replaced by a request that carries "Not Found".
use vstd::prelude::*;

use crate::parser::parser::Method;

verus! {

/// What the pass-through proxy sends upstream for a request.
#[derive(Clone, Copy, Debug, PartialEq, Eq, Structural)]
pub enum Passage {
    /// The request itself.
    Forward,
    /// The request itself, after logging its method.
    ForwardLogged,
    /// A request whose body is `NOTFOUND`, after logging the method.
    NotFoundRequest,
}

/// What the pass-through proxy sends upstream for a request of `method`.
pub fn pass_through(method: Method) -> (r: Passage)
    ensures
        r == (match method {
            Method::Get => Passage::Forward,
            Method::Post => Passage::ForwardLogged,
            Method::Other => Passage::NotFoundRequest,
        }),
{
    match method {
        Method::Post => Passage::ForwardLogged,
        Method::Get => Passage::Forward,
        Method::Other => Passage::NotFoundRequest,
    }
}

} // verus!
