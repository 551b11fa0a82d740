//! The fixed texts and routes of the proxy.
use vstd::prelude::*;

verus! {

pub const NOTFOUND: &'static str = "Not Found";

pub const INDEX: &'static str = "<a href=\"test.html\">test.html</a>";

pub const LOWERCASE: &'static str = "i am a lower case string";

pub const MISSING: &'static str = "Missing field";

pub const NOTNUMERIC: &'static str = "Number field is not numeric";

pub const HOMEPAGE: &'static str = "/";

pub const TESTPAGE: &'static str = "/test";

pub const LOGINPAGE: &'static str = "/login";

pub const SIGN_IN: &'static str = "/api/auth/signin";

pub const API_PAGE: &'static str = "/web_api";

pub const ROUTES: [&'static str; 5] = [HOMEPAGE, TESTPAGE, LOGINPAGE, SIGN_IN, API_PAGE];

} // verus!
