//! The answer of the plain web server.
use vstd::prelude::*;
use vstd::string::*;

verus! {

/// The response that serves `contents` as a page: a `200 OK` status line, an
/// empty header block, then the contents.
pub fn page_response(contents: &str) -> (r: String)
    ensures
        r@ == "HTTP/1.1 200 OK\r\n\r\n"@ + contents@,
{
    let mut response = String::new();
    response.append("HTTP/1.1 200 OK\r\n\r\n");
    response.append(contents);
    response
}

} // verus!
