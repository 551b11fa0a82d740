//! How the proxy answers a request: which requests it forwards, which it
//! answers itself and with what, and the bodies it computes on the way.
use vstd::prelude::*;
use vstd::string::*;

use crate::codec::{
    base64_decoded,
    debug_of,
    debug_text,
    decode_base64,
    form_pairs,
    json_of_texts,
    json_texts,
    parse_form,
};
use crate::parser::resources::{HOMEPAGE, LOWERCASE, NOTFOUND, ROUTES, SIGN_IN};
use crate::text::{
    is_last_pair,
    lacks_key,
    law_last_value,
    join_front,
    occurs_at,
    decimal,
    decimal_text,
    last_value,
    last_value_of,
    lemma_split_on_nonempty,
    same_text,
    split_on,
    split_text,
    words,
    words_of,
};

verus! {

broadcast use vstd::string::group_string_axioms;

/// The request methods the proxy tells apart.
#[derive(Clone, Copy, Debug, PartialEq, Eq, Structural)]
pub enum Method {
    Get,
    Post,
    Other,
}

/// A response that the proxy makes itself.
pub struct Reply {
    pub status: u16,
    /// Whether the response carries `Content-Type: application/json`.
    pub json: bool,
    pub body: String,
}

pub struct ReplyView {
    pub status: u16,
    pub json: bool,
    pub body: Seq<char>,
}

impl View for Reply {
    type V = ReplyView;

    open spec fn view(&self) -> ReplyView {
        ReplyView { status: self.status, json: self.json, body: self.body@ }
    }
}

/// What the proxy does with a request.
pub enum Plan {
    /// Send the request on to the upstream server as it is.
    Forward,
    /// Look at the `authorization` header, then forward the request.
    ForwardSignIn,
    /// Forward the request with its URI changed to the upstream server's root.
    ForwardToRoot,
    /// Answer with the body of the request in upper case.
    UppercaseEcho,
    /// Read the body as an HTML form and answer from its fields.
    ReadForm,
    /// Send `LOWERCASE` upstream and answer with both texts.
    CompareLowercase,
    /// Turn a sample JSON list into a user record.
    SampleUserJson,
    /// Answer without asking the upstream server.
    Respond(Reply),
}

pub enum PlanView {
    Forward,
    ForwardSignIn,
    ForwardToRoot,
    UppercaseEcho,
    ReadForm,
    CompareLowercase,
    SampleUserJson,
    Respond(ReplyView),
}

impl View for Plan {
    type V = PlanView;

    open spec fn view(&self) -> PlanView {
        match self {
            Plan::Forward => PlanView::Forward,
            Plan::ForwardSignIn => PlanView::ForwardSignIn,
            Plan::ForwardToRoot => PlanView::ForwardToRoot,
            Plan::UppercaseEcho => PlanView::UppercaseEcho,
            Plan::ReadForm => PlanView::ReadForm,
            Plan::CompareLowercase => PlanView::CompareLowercase,
            Plan::SampleUserJson => PlanView::SampleUserJson,
            Plan::Respond(r) => PlanView::Respond(r@),
        }
    }
}

/// The routes the proxy knows by name.
pub open spec fn known_routes() -> Seq<Seq<char>> {
    seq![ROUTES[0]@, ROUTES[1]@, ROUTES[2]@, ROUTES[3]@, ROUTES[4]@]
}

/// The named routes are exactly "/", "/test", "/login", "/api/auth/signin"
/// and "/web_api".
pub proof fn law_known_routes(path: Seq<char>)
    ensures
        known_routes().contains(path) <==> (path == "/"@ || path == "/test"@ || path == "/login"@
            || path == "/api/auth/signin"@ || path == "/web_api"@),
{
    if path == "/"@ {
        assert(known_routes()[0] == path);
    } else if path == "/test"@ {
        assert(known_routes()[1] == path);
    } else if path == "/login"@ {
        assert(known_routes()[2] == path);
    } else if path == "/api/auth/signin"@ {
        assert(known_routes()[3] == path);
    } else if path == "/web_api"@ {
        assert(known_routes()[4] == path);
    }
}

/// The first user segment is at `i` exactly when the segment at `i` is
/// "user" or "users" and no earlier segment is.
pub proof fn law_first_user_index(data: Seq<Seq<char>>, i: int)
    ensures
        first_user_index(data) == Some(i) <==> (0 <= i < data.len() && (data[i] == "user"@
            || data[i] == "users"@) && forall|j: int|
            0 <= j < i ==> #[trigger] data[j] != "user"@ && data[j] != "users"@),
        first_user_index(data) is None <==> forall|j: int|
            0 <= j < data.len() ==> #[trigger] data[j] != "user"@ && data[j] != "users"@,
    decreases data.len(),
{
    if data.len() > 0 {
        let rest = data.drop_first();
        law_first_user_index(rest, i - 1);
        if !is_user_word(data[0]) {
            assert forall|j: int| 0 <= j < rest.len() implies #[trigger] rest[j] == data[j + 1] by {}
            if forall|j: int| 0 <= j < data.len() ==> #[trigger] data[j] != "user"@ && data[j]
                != "users"@ {
                assert forall|j: int| 0 <= j < rest.len() implies #[trigger] rest[j] != "user"@
                    && rest[j] != "users"@ by {
                    assert(rest[j] == data[j + 1]);
                }
            }
            if first_user_index(rest) is None {
                assert forall|j: int| 0 <= j < data.len() implies #[trigger] data[j] != "user"@
                    && data[j] != "users"@ by {
                    if j > 0 {
                        assert(data[j] == rest[j - 1]);
                    }
                }
            }
            if 0 <= i < data.len() && (data[i] == "user"@ || data[i] == "users"@) && forall|j: int|
                0 <= j < i ==> #[trigger] data[j] != "user"@ && data[j] != "users"@ {
                assert(i > 0);
                assert forall|j: int| 0 <= j < i - 1 implies #[trigger] rest[j] != "user"@
                    && rest[j] != "users"@ by {
                    assert(rest[j] == data[j + 1]);
                }
                assert(rest[i - 1] == data[i]);
            }
            if first_user_index(data) == Some(i) {
                assert forall|j: int| 0 <= j < i implies #[trigger] data[j] != "user"@ && data[j]
                    != "users"@ by {
                    if j > 0 {
                        assert(data[j] == rest[j - 1]);
                    }
                }
                assert(data[i] == rest[i - 1]);
            }
        }
    }
}

/// Whether `path` is one of `ROUTES`.
pub fn is_known_route(path: &str) -> (r: bool)
    ensures
        r == known_routes().contains(path@),
        r <==> (path@ == "/"@ || path@ == "/test"@ || path@ == "/login"@ || path@
            == "/api/auth/signin"@ || path@ == "/web_api"@),
{
    proof {
        law_known_routes(path@);
    }
    let mut i: usize = 0;
    while i < 5
        invariant
            i <= 5,
            forall|j: int| 0 <= j < i ==> known_routes()[j] != path@,
        decreases 5 - i,
    {
        if same_text(ROUTES[i], path) {
            proof {
                assert(known_routes()[i as int] == path@);
            }
            return true;
        }
        i = i + 1;
    }
    proof {
        if known_routes().contains(path@) {
            let j = choose|j: int| 0 <= j < known_routes().len() && known_routes()[j] == path@;
            assert(known_routes()[j] == path@);
        }
    }
    false
}

/// A 404 answer with body `msg`.
pub open spec fn not_found(msg: Seq<char>) -> ReplyView {
    ReplyView { status: 404, json: false, body: msg }
}

/// The segments of `path` after its first `/` (`path.split("/").skip(1)`).
pub open spec fn segments(path: Seq<char>) -> Seq<Seq<char>> {
    split_on(path, "/"@).drop_first()
}

/// Whether a segment names users.
pub open spec fn is_user_word(w: Seq<char>) -> bool {
    w == "user"@ || w == "users"@
}

/// The index of the first segment that names users.
pub open spec fn first_user_index(data: Seq<Seq<char>>) -> Option<int>
    decreases data.len(),
{
    if data.len() == 0 {
        None
    } else if is_user_word(data[0]) {
        Some(0)
    } else {
        match first_user_index(data.drop_first()) {
            Some(i) => Some(i + 1),
            None => None,
        }
    }
}

/// The answer that lists the segments `idx`: the two of a user path as
/// "You probably a <segment> with id: <id>", longer lists as a JSON array.
pub open spec fn listing(idx: Seq<Seq<char>>) -> ReplyView {
    if idx.len() == 2 {
        ReplyView {
            status: 200,
            json: true,
            body: "You probably a "@ + debug_text(idx[0]) + " with id: "@ + debug_text(idx[1]),
        }
    } else if idx.len() > 2 {
        ReplyView { status: 200, json: true, body: json_texts(idx) }
    } else {
        ReplyView { status: 200, json: true, body: "You probably a requested a /"@ }
    }
}

/// What a GET of a path that is not a named route does, given the path's
/// segments; `None` where a user segment is the last one, so that it has no
/// id after it.
pub open spec fn segment_plan(data: Seq<Seq<char>>) -> Option<PlanView> {
    if data.len() >= 2 {
        if data[0] == "api"@ && data[1] == "users"@ {
            Some(PlanView::Forward)
        } else {
            match first_user_index(data) {
                Some(i) => if i + 1 < data.len() {
                    Some(PlanView::Respond(listing(data.subrange(i, i + 2))))
                } else {
                    None
                },
                None => Some(PlanView::Respond(listing(data))),
            }
        }
    } else {
        Some(PlanView::Respond(not_found("Error reaching un-existing route"@)))
    }
}

/// What the proxy does with a request of `method` on `path`; `None` where it
/// has no answer (see `segment_plan`).
pub open spec fn route_plan(method: Method, path: Seq<char>) -> Option<PlanView> {
    if method == Method::Get && (path == HOMEPAGE@ || path == "/index.html"@) {
        Some(PlanView::Forward)
    } else if method == Method::Post && path == "/uppercase"@ {
        Some(PlanView::UppercaseEcho)
    } else if method == Method::Post && path == "/post"@ {
        Some(PlanView::ReadForm)
    } else if method == Method::Get && path == "/test"@ {
        Some(PlanView::ForwardToRoot)
    } else if method == Method::Get && path == "/test.html"@ {
        Some(PlanView::CompareLowercase)
    } else if method == Method::Get && path == "/json"@ {
        Some(PlanView::SampleUserJson)
    } else if method == Method::Post && path == "/json"@ {
        Some(PlanView::Respond(ReplyView { status: 200, json: true, body: "hello world"@ }))
    } else if method == Method::Get && path == SIGN_IN@ {
        Some(PlanView::Forward)
    } else if method == Method::Post && path == SIGN_IN@ {
        Some(PlanView::ForwardSignIn)
    } else if method == Method::Get {
        segment_plan(segments(path))
    } else {
        Some(PlanView::Respond(not_found(NOTFOUND@)))
    }
}

/// The segments of `path` after its first `/`.
pub fn path_segments(path: &str) -> (r: Vec<String>)
    ensures
        r.deep_view() == segments(path@),
{
    proof {
        reveal_strlit("/");
    }
    let mut pieces = split_text(path, "/");
    proof {
        lemma_split_on_nonempty(path@, "/"@);
    }
    let ghost before = pieces.deep_view();
    pieces.remove(0);
    proof {
        assert(pieces.deep_view() =~= before.drop_first());
    }
    pieces
}

proof fn lemma_first_user_index(data: Seq<Seq<char>>, i: int)
    requires
        0 <= i <= data.len(),
        forall|j: int| 0 <= j < i ==> !is_user_word(#[trigger] data[j]),
    ensures
        i < data.len() && is_user_word(data[i]) ==> first_user_index(data) == Some(i),
        i == data.len() ==> first_user_index(data) is None,
    decreases i,
{
    if i > 0 {
        let rest = data.drop_first();
        assert forall|j: int| 0 <= j < i - 1 implies !is_user_word(#[trigger] rest[j]) by {
            assert(rest[j] == data[j + 1]);
        }
        lemma_first_user_index(rest, i - 1);
        assert(!is_user_word(data[0]));
        if i < data.len() {
            assert(rest[i - 1] == data[i]);
        }
    }
}

/// The index of the first segment that names users.
pub fn user_index(data: &Vec<String>) -> (r: Option<usize>)
    ensures
        match r {
            Some(i) => i < data@.len() && first_user_index(data.deep_view()) == Some(i as int),
            None => first_user_index(data.deep_view()) is None,
        },
{
    let mut i: usize = 0;
    while i < data.len()
        invariant
            i <= data@.len(),
            forall|j: int| 0 <= j < i ==> !is_user_word(#[trigger] data.deep_view()[j]),
        decreases data@.len() - i,
    {
        let u1 = same_text(data[i].as_str(), "user");
        let u2 = same_text(data[i].as_str(), "users");
        if u1 || u2 {
            proof {
                assert(data.deep_view()[i as int] == data@[i as int]@);
                lemma_first_user_index(data.deep_view(), i as int);
            }
            return Some(i);
        }
        i = i + 1;
    }
    proof {
        lemma_first_user_index(data.deep_view(), i as int);
    }
    None
}

/// The body that names a user segment and its id, both already rendered:
/// "You probably a <segment> with id: <id>".
pub fn user_listing_body(segment: &str, id: &str) -> (r: String)
    ensures
        r@ == "You probably a "@ + segment@ + " with id: "@ + id@,
{
    let mut body = String::new();
    body.append("You probably a ");
    body.append(segment);
    body.append(" with id: ");
    body.append(id);
    body
}

/// The answer that lists the segments `idx`.
pub fn listing_reply(idx: &Vec<String>) -> (r: Reply)
    ensures
        r@ == listing(idx.deep_view()),
{
    if idx.len() == 2 {
        let first = debug_of(idx[0].as_str());
        let second = debug_of(idx[1].as_str());
        let body = user_listing_body(first.as_str(), second.as_str());
        proof {
            assert(idx.deep_view()[0] == idx@[0]@);
            assert(idx.deep_view()[1] == idx@[1]@);
        }
        Reply { status: 200, json: true, body }
    } else if idx.len() > 2 {
        let body = json_of_texts(idx);
        Reply { status: 200, json: true, body }
    } else {
        Reply { status: 200, json: true, body: "You probably a requested a /".to_string() }
    }
}

/// What a GET of a path that is not a named route does, given its segments.
pub fn plan_segments(data: &Vec<String>) -> (r: Option<Plan>)
    ensures
        match r {
            Some(p) => segment_plan(data.deep_view()) == Some(p@),
            None => segment_plan(data.deep_view()) is None,
        },
{
    if data.len() >= 2 {
        let api = same_text(data[0].as_str(), "api");
        let users = same_text(data[1].as_str(), "users");
        if api && users {
            Some(Plan::Forward)
        } else {
            match user_index(data) {
                Some(i) => {
                    if i + 1 < data.len() {
                        let mut idx: Vec<String> = Vec::new();
                        idx.push(data[i].clone());
                        idx.push(data[i + 1].clone());
                        proof {
                            assert(idx.deep_view() =~= data.deep_view().subrange(
                                i as int,
                                i + 2,
                            ));
                        }
                        Some(Plan::Respond(listing_reply(&idx)))
                    } else {
                        None
                    }
                },
                None => Some(Plan::Respond(listing_reply(data))),
            }
        }
    } else {
        Some(
            Plan::Respond(
                Reply {
                    status: 404,
                    json: false,
                    body: "Error reaching un-existing route".to_string(),
                },
            ),
        )
    }
}

/// What the proxy does with a request of `method` on `path`, or `None` for a
/// GET of a path whose last segment names users with no id after it, which
/// has no answer.
pub fn plan_request(method: Method, path: &str) -> (r: Option<Plan>)
    ensures
        match r {
            Some(p) => route_plan(method, path@) == Some(p@),
            None => route_plan(method, path@) is None,
        },
        method == Method::Post && path@ != "/uppercase"@ && path@ != "/post"@ && path@
            != "/json"@ && path@ != "/api/auth/signin"@ ==> (r matches Some(Plan::Respond(rep))
            && rep.status == 404 && !rep.json && rep.body@ == "Not Found"@),
        r matches Some(Plan::Forward) ==> method == Method::Get,
{
    proof {
        law_post_routes(path@);
        law_forward_only_get(method, path@);
    }
    let get = match method {
        Method::Get => true,
        _ => false,
    };
    let post = match method {
        Method::Post => true,
        _ => false,
    };
    if get && (same_text(path, HOMEPAGE) || same_text(path, "/index.html")) {
        Some(Plan::Forward)
    } else if post && same_text(path, "/uppercase") {
        Some(Plan::UppercaseEcho)
    } else if post && same_text(path, "/post") {
        Some(Plan::ReadForm)
    } else if get && same_text(path, "/test") {
        Some(Plan::ForwardToRoot)
    } else if get && same_text(path, "/test.html") {
        Some(Plan::CompareLowercase)
    } else if get && same_text(path, "/json") {
        Some(Plan::SampleUserJson)
    } else if post && same_text(path, "/json") {
        Some(Plan::Respond(Reply { status: 200, json: true, body: "hello world".to_string() }))
    } else if get && same_text(path, SIGN_IN) {
        Some(Plan::Forward)
    } else if post && same_text(path, SIGN_IN) {
        Some(Plan::ForwardSignIn)
    } else if get {
        let data = path_segments(path);
        plan_segments(&data)
    } else {
        Some(Plan::Respond(Reply { status: 404, json: false, body: NOTFOUND.to_string() }))
    }
}

/// Why the credentials of an `authorization` header could not be read.
#[derive(Clone, Copy, Debug, PartialEq, Eq, Structural)]
pub enum AuthError {
    /// The header has fewer than two words.
    MissingCredentials,
    /// The second word is too long for `base64::decode` to size its buffer.
    TooLong,
    /// The second word is not valid Base64.
    InvalidEncoding,
}

/// The credentials of an `authorization` header: its second word
/// ("Basic <credentials>"), Base64-decoded.
pub open spec fn credentials_of(header: Seq<char>) -> Result<Seq<u8>, AuthError> {
    let w = words(header);
    if w.len() < 2 {
        Err(AuthError::MissingCredentials)
    } else if vstd::utf8::encode_utf8(w[1]).len() + 3 > usize::MAX {
        Err(AuthError::TooLong)
    } else {
        match base64_decoded(w[1]) {
            Some(bytes) => Ok(bytes),
            None => Err(AuthError::InvalidEncoding),
        }
    }
}

/// An `authorization` header lacks credentials exactly when it has fewer
/// than two words; a second word whose UTF-8 length plus 3 fits in `usize`
/// is decoded as Base64, giving its bytes or `InvalidEncoding`; `TooLong`
/// comes only when that length plus 3 exceeds `usize::MAX`.
pub proof fn law_credentials(header: Seq<char>)
    ensures
        words(header).len() < 2 <==> credentials_of(header) == Err::<Seq<u8>, AuthError>(
            AuthError::MissingCredentials,
        ),
        credentials_of(header) == Err::<Seq<u8>, AuthError>(AuthError::TooLong) <==> (words(
            header,
        ).len() >= 2 && vstd::utf8::encode_utf8(words(header)[1]).len() + 3 > usize::MAX),
        words(header).len() >= 2 && vstd::utf8::encode_utf8(words(header)[1]).len() + 3
            <= usize::MAX ==> credentials_of(header) == match base64_decoded(words(header)[1]) {
            Some(b) => Ok::<Seq<u8>, AuthError>(b),
            None => Err::<Seq<u8>, AuthError>(AuthError::InvalidEncoding),
        },
{
}

/// The credentials of an `authorization` header: its second word,
/// Base64-decoded.
pub fn decode_authorization(header: &str) -> (r: Result<Vec<u8>, AuthError>)
    ensures
        match r {
            Ok(bytes) => credentials_of(header@) == Ok::<Seq<u8>, AuthError>(bytes@),
            Err(e) => credentials_of(header@) == Err::<Seq<u8>, AuthError>(e),
        },
        words(header@).len() < 2 <==> r == Err::<Vec<u8>, AuthError>(AuthError::MissingCredentials),
        r == Err::<Vec<u8>, AuthError>(AuthError::TooLong) <==> (words(header@).len() >= 2
            && vstd::utf8::encode_utf8(words(header@)[1]).len() + 3 > usize::MAX),
        words(header@).len() >= 2 && vstd::utf8::encode_utf8(words(header@)[1]).len() + 3
            <= usize::MAX ==> match base64_decoded(words(header@)[1]) {
            Some(b) => r matches Ok(bytes) && bytes@ == b,
            None => r == Err::<Vec<u8>, AuthError>(AuthError::InvalidEncoding),
        },
{
    proof {
        law_credentials(header@);
    }
    let w = words_of(header);
    if w.len() < 2 {
        return Err(AuthError::MissingCredentials);
    }
    let token = w[1].as_str();
    proof {
        assert(token@ == words(header@)[1]);
    }
    let encoded = token.as_bytes();
    if encoded.len() > usize::MAX - 3 {
        return Err(AuthError::TooLong);
    }
    match decode_base64(token) {
        Some(bytes) => Ok(bytes),
        None => Err(AuthError::InvalidEncoding),
    }
}

/// `b` in ASCII upper case (`u8::to_ascii_uppercase`).
pub open spec fn ascii_upper(b: u8) -> u8 {
    if 97 <= b <= 122 {
        (b - 32) as u8
    } else {
        b
    }
}

/// `bytes` with each ASCII lower-case letter made upper case.
pub fn uppercase_ascii(bytes: &[u8]) -> (r: Vec<u8>)
    ensures
        r@ == bytes@.map_values(|b: u8| ascii_upper(b)),
        r@.len() == bytes@.len(),
        forall|i: int|
            0 <= i < bytes@.len() ==> if 97 <= #[trigger] bytes@[i] <= 122 {
                r@[i] == bytes@[i] - 32
            } else {
                r@[i] == bytes@[i]
            },
        forall|i: int| 0 <= i < r@.len() ==> !(97 <= #[trigger] r@[i] <= 122),
{
    let mut r: Vec<u8> = Vec::new();
    let mut i: usize = 0;
    while i < bytes.len()
        invariant
            i <= bytes@.len(),
            r@ == bytes@.take(i as int).map_values(|b: u8| ascii_upper(b)),
        decreases bytes@.len() - i,
    {
        let b = bytes[i];
        let u = if 97 <= b && b <= 122 {
            b - 32
        } else {
            b
        };
        r.push(u);
        proof {
            assert(bytes@.take(i + 1).map_values(|b: u8| ascii_upper(b)) =~= bytes@.take(
                i as int,
            ).map_values(|b: u8| ascii_upper(b)).push(ascii_upper(bytes@[i as int])));
        }
        i = i + 1;
    }
    proof {
        assert(bytes@.take(bytes@.len() as int) =~= bytes@);
        law_uppercase_ascii(bytes@, r@);
    }
    r
}

/// Upper-casing maps each lower-case ASCII letter `a`..=`z` (bytes 97 to
/// 122) to its capital (32 less) and keeps every other byte, so no lower-case
/// ASCII letter is left.
pub proof fn law_uppercase_ascii(bytes: Seq<u8>, upper: Seq<u8>)
    requires
        upper == bytes.map_values(|b: u8| ascii_upper(b)),
    ensures
        upper.len() == bytes.len(),
        forall|i: int|
            0 <= i < bytes.len() ==> if 97 <= #[trigger] bytes[i] <= 122 {
                upper[i] == bytes[i] - 32
            } else {
                upper[i] == bytes[i]
            },
        forall|i: int| 0 <= i < upper.len() ==> !(97 <= #[trigger] upper[i] <= 122),
{
}

/// Making a body upper case a second time changes nothing.
pub proof fn law_uppercase_idempotent(bytes: Seq<u8>)
    ensures
        bytes.map_values(|b: u8| ascii_upper(b)).map_values(|b: u8| ascii_upper(b))
            == bytes.map_values(|b: u8| ascii_upper(b)),
{
    assert(bytes.map_values(|b: u8| ascii_upper(b)).map_values(|b: u8| ascii_upper(b))
        =~= bytes.map_values(|b: u8| ascii_upper(b)));
}

/// A request whose method is neither GET nor POST is answered 404 "Not
/// Found", whatever its path.
pub proof fn law_other_methods_not_found(path: Seq<char>)
    ensures
        route_plan(Method::Other, path) == Some(
            PlanView::Respond(ReplyView { status: 404, json: false, body: "Not Found"@ }),
        ),
{
}

/// A POST is answered by its route only on "/uppercase", "/post", "/json"
/// and "/api/auth/signin"; on every other path it is answered 404 "Not Found".
pub proof fn law_post_routes(path: Seq<char>)
    ensures
        route_plan(Method::Post, path) == if path == "/uppercase"@ {
            Some(PlanView::UppercaseEcho)
        } else if path == "/post"@ {
            Some(PlanView::ReadForm)
        } else if path == "/json"@ {
            Some(PlanView::Respond(ReplyView { status: 200, json: true, body: "hello world"@ }))
        } else if path == "/api/auth/signin"@ {
            Some(PlanView::ForwardSignIn)
        } else {
            Some(PlanView::Respond(ReplyView { status: 404, json: false, body: "Not Found"@ }))
        },
{
}

/// Only GET requests are forwarded as they are; a GET of "/", "/index.html"
/// or "/api/auth/signin" is.
pub proof fn law_forward_only_get(method: Method, path: Seq<char>)
    ensures
        route_plan(method, path) == Some(PlanView::Forward) ==> method == Method::Get,
        route_plan(Method::Get, "/"@) == Some(PlanView::Forward),
        route_plan(Method::Get, "/index.html"@) == Some(PlanView::Forward),
        route_plan(Method::Get, "/api/auth/signin"@) == Some(PlanView::Forward),
{
    reveal_strlit("/");
    reveal_strlit("/index.html");
    reveal_strlit("/api/auth/signin");
    reveal_strlit("/test");
    reveal_strlit("/test.html");
    reveal_strlit("/json");
    assert(("/api/auth/signin"@)[1] != ("/test"@)[1]);
    assert(("/api/auth/signin"@)[1] != ("/json"@)[1]);
    assert(("/api/auth/signin"@)[1] != ("/index.html"@)[1]);
    assert(("/api/auth/signin"@).len() != ("/"@).len());
}

/// A GET of a path under "/api/users/" is forwarded as it is, unless the path
/// is one of the routes the proxy answers itself.
pub proof fn law_api_users_forwarded(path: Seq<char>)
    requires
        segments(path).len() >= 2,
        segments(path)[0] == "api"@,
        segments(path)[1] == "users"@,
    ensures
        route_plan(Method::Get, path) == Some(PlanView::Forward),
{
    reveal_strlit("api");
    reveal_strlit("/");
    assert(path != "/test"@ && path != "/test.html"@ && path != "/json"@) by {
        reveal_strlit("/test");
        reveal_strlit("/test.html");
        reveal_strlit("/json");
        if path == "/test"@ || path == "/test.html"@ || path == "/json"@ {
            let rest = path.skip(1);
            assert(path.subrange(0, 1) =~= "/"@);
            assert(occurs_at(path, "/"@, 0));
            assert(split_on(path, "/"@) == seq![Seq::<char>::empty()] + split_on(rest, "/"@));
            lemma_split_on_nonempty(rest, "/"@);
            assert(segments(path) =~= split_on(rest, "/"@));
            assert(rest[0] == 't' || rest[0] == 'j');
            assert(rest.subrange(0, 1)[0] == rest[0]);
            assert(!occurs_at(rest, "/"@, 0));
            lemma_split_on_nonempty(rest.drop_first(), "/"@);
            assert(split_on(rest, "/"@)[0] == seq![rest[0]] + split_on(rest.drop_first(), "/"@)[0]);
            assert(segments(path)[0][0] != 'a');
        }
    }
}

/// A GET of a path that is not a named route, cut into its segments after
/// the first `/`: fewer than two segments is 404 "Error reaching un-existing
/// route"; "api" then "users" is forwarded; otherwise the first "user" or
/// "users" segment and the one after it are named in a JSON answer, and with
/// no such segment two segments are named that way and more are listed as a
/// JSON array.
pub proof fn law_unnamed_get(path: Seq<char>)
    requires
        path != "/"@,
        path != "/index.html"@,
        path != "/test"@,
        path != "/test.html"@,
        path != "/json"@,
        path != "/api/auth/signin"@,
    ensures
        ({
            let data = segments(path);
            let named = |a: Seq<char>, b: Seq<char>|
                "You probably a "@ + debug_text(a) + " with id: "@ + debug_text(b);
            route_plan(Method::Get, path) == if data.len() < 2 {
                Some(
                    PlanView::Respond(
                        ReplyView {
                            status: 404,
                            json: false,
                            body: "Error reaching un-existing route"@,
                        },
                    ),
                )
            } else if data[0] == "api"@ && data[1] == "users"@ {
                Some(PlanView::Forward)
            } else if exists|i: int| 0 <= i < data.len() && is_user_word(#[trigger] data[i]) {
                let i = choose|i: int|
                    0 <= i < data.len() && is_user_word(#[trigger] data[i]) && forall|j: int|
                        0 <= j < i ==> !is_user_word(#[trigger] data[j]);
                if i + 1 < data.len() {
                    Some(
                        PlanView::Respond(
                            ReplyView { status: 200, json: true, body: named(data[i], data[i + 1]) },
                        ),
                    )
                } else {
                    None
                }
            } else if data.len() == 2 {
                Some(
                    PlanView::Respond(
                        ReplyView { status: 200, json: true, body: named(data[0], data[1]) },
                    ),
                )
            } else {
                Some(PlanView::Respond(ReplyView { status: 200, json: true, body: json_texts(data) }))
            }
        }),
{
    let data = segments(path);
    if data.len() >= 2 && !(data[0] == "api"@ && data[1] == "users"@) {
        match first_user_index(data) {
            Some(k) => {
                law_first_user_index(data, k);
                let i = choose|i: int|
                    0 <= i < data.len() && is_user_word(#[trigger] data[i]) && forall|j: int|
                        0 <= j < i ==> !is_user_word(#[trigger] data[j]);
                law_first_user_index(data, i);
                if k + 1 < data.len() {
                    assert(data.subrange(k, k + 2)[0] == data[k]);
                    assert(data.subrange(k, k + 2)[1] == data[k + 1]);
                }
            },
            None => {
                law_first_user_index(data, 0);
            },
        }
    }
}

/// A GET of "/test" and only of it is forwarded to the upstream root; a GET
/// of "/test.html" and only of it compares the lower-case text; a GET of
/// "/json" and only of it decodes the sample user.
pub proof fn law_get_named_routes(method: Method, path: Seq<char>)
    ensures
        route_plan(method, path) == Some(PlanView::ForwardToRoot) <==> (method == Method::Get
            && path == "/test"@),
        route_plan(method, path) == Some(PlanView::CompareLowercase) <==> (method == Method::Get
            && path == "/test.html"@),
        route_plan(method, path) == Some(PlanView::SampleUserJson) <==> (method == Method::Get
            && path == "/json"@),
{
    reveal_strlit("/");
    reveal_strlit("/index.html");
    reveal_strlit("/test");
    reveal_strlit("/test.html");
    reveal_strlit("/json");
    assert(("/test"@).len() != ("/"@).len());
    assert(("/test"@)[1] != ("/index.html"@)[1]);
    assert(("/test.html"@).len() != ("/"@).len());
    assert(("/test.html"@)[1] != ("/index.html"@)[1]);
    assert(("/test.html"@).len() != ("/test"@).len());
    assert(("/json"@).len() != ("/"@).len());
    assert(("/json"@)[1] != ("/index.html"@)[1]);
    assert(("/json"@)[1] != ("/test"@)[1]);
    assert(("/json"@)[1] != ("/test.html"@)[1]);
}

/// Every request has a plan except a GET of a path that is not a named
/// route, whose segments (at least two, not starting "api", "users") have
/// their first user segment last.
pub proof fn law_plan_defined(method: Method, path: Seq<char>)
    ensures
        route_plan(method, path) is None <==> {
            let data = segments(path);
            &&& method == Method::Get
            &&& path != HOMEPAGE@ && path != "/index.html"@ && path != "/test"@
            &&& path != "/test.html"@ && path != "/json"@ && path != SIGN_IN@
            &&& data.len() >= 2
            &&& !(data[0] == "api"@ && data[1] == "users"@)
            &&& first_user_index(data) == Some(data.len() - 1)
        },
{
    let data = segments(path);
    if data.len() >= 2 && !(data[0] == "api"@ && data[1] == "users"@) {
        match first_user_index(data) {
            Some(i) => {
                lemma_first_user_index_bound(data);
            },
            None => {},
        }
    }
}

proof fn lemma_first_user_index_bound(data: Seq<Seq<char>>)
    ensures
        first_user_index(data) matches Some(i) ==> 0 <= i < data.len(),
    decreases data.len(),
{
    if data.len() > 0 {
        lemma_first_user_index_bound(data.drop_first());
    }
}

proof fn lemma_split_char_free(y: Seq<char>, c: char)
    requires
        forall|i: int| 0 <= i < y.len() ==> y[i] != c,
    ensures
        split_on(y, seq![c]) == seq![y],
    decreases y.len(),
{
    if y.len() > 0 {
        let y1 = y.drop_first();
        assert forall|i: int| 0 <= i < y1.len() implies y1[i] != c by {
            assert(y1[i] == y[i + 1]);
        }
        lemma_split_char_free(y1, c);
        assert(!occurs_at(y, seq![c], 0)) by {
            if occurs_at(y, seq![c], 0) {
                assert(y.subrange(0, 1)[0] == y[0]);
            }
        }
        assert(seq![y[0]] + y1 =~= y);
        assert(join_front(seq![y[0]], seq![y1]) =~= seq![y]);
    } else {
        assert(y =~= Seq::<char>::empty());
    }
}

proof fn lemma_split_char_after(x: Seq<char>, c: char, y: Seq<char>)
    requires
        forall|i: int| 0 <= i < x.len() ==> x[i] != c,
    ensures
        split_on(x + seq![c] + y, seq![c]) == seq![x] + split_on(y, seq![c]),
    decreases x.len(),
{
    let s = x + seq![c] + y;
    if x.len() == 0 {
        assert(s =~= seq![c] + y);
        assert(s.subrange(0, 1) =~= seq![c]);
        assert(s.skip(1) =~= y);
        assert(x =~= Seq::<char>::empty());
    } else {
        let x1 = x.drop_first();
        assert forall|i: int| 0 <= i < x1.len() implies x1[i] != c by {
            assert(x1[i] == x[i + 1]);
        }
        lemma_split_char_after(x1, c, y);
        assert(!occurs_at(s, seq![c], 0)) by {
            if occurs_at(s, seq![c], 0) {
                assert(s.subrange(0, 1)[0] == s[0]);
                assert(s[0] == x[0]);
            }
        }
        assert(s.drop_first() =~= x1 + seq![c] + y);
        assert(seq![s[0]] + x1 =~= x);
        assert(join_front(seq![s[0]], seq![x1] + split_on(y, seq![c])) =~= seq![x] + split_on(
            y,
            seq![c],
        ));
    }
}

/// A GET of "/user/<id>" or "/users/<id>", where the id holds no "/", is
/// answered by naming the segment and the id.
pub proof fn law_user_path_answer(word: Seq<char>, id: Seq<char>)
    requires
        is_user_word(word),
        forall|i: int| 0 <= i < id.len() ==> id[i] != '/',
    ensures
        route_plan(Method::Get, "/"@ + word + "/"@ + id) == Some(
            PlanView::Respond(listing(seq![word, id])),
        ),
{
    reveal_strlit("/");
    reveal_strlit("user");
    reveal_strlit("users");
    reveal_strlit("api");
    reveal_strlit("/index.html");
    reveal_strlit("/test");
    reveal_strlit("/test.html");
    reveal_strlit("/json");
    reveal_strlit("/api/auth/signin");
    let path = "/"@ + word + "/"@ + id;
    assert("/"@ =~= seq!['/']);
    assert(path[1] == word[0]);
    assert(word[0] == 'u');
    assert(path != HOMEPAGE@) by {
        assert(path.len() > 1);
    }
    assert(path != "/index.html"@) by {
        assert(("/index.html"@)[1] == 'i');
    }
    assert(path != "/test"@) by {
        assert(("/test"@)[1] == 't');
    }
    assert(path != "/test.html"@) by {
        assert(("/test.html"@)[1] == 't');
    }
    assert(path != "/json"@) by {
        assert(("/json"@)[1] == 'j');
    }
    assert(path != SIGN_IN@) by {
        assert((SIGN_IN@)[1] == 'a');
    }
    assert forall|i: int| 0 <= i < word.len() implies word[i] != '/' by {}
    let empty = Seq::<char>::empty();
    assert(path =~= empty + seq!['/'] + (word + seq!['/'] + id));
    lemma_split_char_after(empty, '/', word + seq!['/'] + id);
    lemma_split_char_after(word, '/', id);
    lemma_split_char_free(id, '/');
    assert(segments(path) =~= seq![word, id]);
    let data = seq![word, id];
    assert(data[0] != "api"@) by {
        assert(("api"@)[0] == 'a');
    }
    assert(first_user_index(data) == Some(0int));
    assert(data.subrange(0, 2) =~= data);
}

/// What the proxy answers to a form: both fields, or that one is missing.
pub enum FormReply {
    /// The form has no `name` field or no `number` field.
    Missing,
    /// The last `name` and the last `number` field of the form.
    Fields { name: String, number: String },
}

/// The fields of a form body, with the pair ("1", "a") added at the end.
pub open spec fn form_params(body: Seq<u8>) -> Seq<(Seq<char>, Seq<char>)> {
    form_pairs(body).push(("1"@, "a"@))
}

/// The `name` and `number` fields of a form body.
pub fn form_reply(body: &[u8]) -> (r: FormReply)
    ensures
        match r {
            FormReply::Missing => last_value(form_params(body@), "name"@) is None || last_value(
                form_params(body@),
                "number"@,
            ) is None,
            FormReply::Fields { name, number } => last_value(form_params(body@), "name"@) == Some(
                name@,
            ) && last_value(form_params(body@), "number"@) == Some(number@),
        },
        match r {
            FormReply::Missing => lacks_key(form_pairs(body@), "name"@) || lacks_key(
                form_pairs(body@),
                "number"@,
            ),
            FormReply::Fields { name, number } => is_last_pair(form_pairs(body@), "name"@, name@)
                && is_last_pair(form_pairs(body@), "number"@, number@),
        },
{
    form_reply_from_pairs(parse_form(body))
}

/// Looking up "name" or "number" after the pair ("1", "a") is appended finds
/// a value exactly when some pair carries that name, and the value is then
/// the full value of the last such pair.
pub proof fn law_lookup_after_marker(pairs: Seq<(Seq<char>, Seq<char>)>, key: Seq<char>)
    requires
        key == "name"@ || key == "number"@,
    ensures
        last_value(pairs.push(("1"@, "a"@)), key) is None <==> lacks_key(pairs, key),
        last_value(pairs.push(("1"@, "a"@)), key) matches Some(v) ==> is_last_pair(
            pairs,
            key,
            v,
        ),
{
    reveal_strlit("name");
    reveal_strlit("number");
    reveal_strlit("1");
    let ps = pairs.push(("1"@, "a"@));
    let n = pairs.len() as int;
    assert(key != "1"@) by {
        assert(key.len() != ("1"@).len());
    }
    law_last_value(ps, key);
    assert(ps[n] == ("1"@, "a"@));
    if lacks_key(pairs, key) {
        assert forall|i: int| 0 <= i < ps.len() implies (#[trigger] ps[i]).0 != key by {
            if i < n {
                assert(ps[i] == pairs[i]);
            }
        }
    }
    if lacks_key(ps, key) {
        assert forall|i: int| 0 <= i < pairs.len() implies (#[trigger] pairs[i]).0 != key by {
            assert(ps[i] == pairs[i]);
        }
    }
    match last_value(ps, key) {
        Some(v) => {
            let i = choose|i: int|
                0 <= i < ps.len() && #[trigger] ps[i] == (key, v) && forall|j: int|
                    i < j < ps.len() ==> (#[trigger] ps[j]).0 != key;
            assert(i < n);
            assert(pairs[i] == ps[i]);
            assert forall|j: int| i < j < pairs.len() implies (#[trigger] pairs[j]).0 != key by {
                assert(ps[j] == pairs[j]);
            }
        },
        None => {},
    }
}

/// A form field is found exactly when some decoded pair of the form carries
/// its name, and its value is then the full decoded value of the last such
/// pair.
pub proof fn law_form_fields(body: Seq<u8>, key: Seq<char>)
    requires
        key == "name"@ || key == "number"@,
    ensures
        last_value(form_params(body), key) is None <==> lacks_key(form_pairs(body), key),
        last_value(form_params(body), key) matches Some(v) ==> is_last_pair(
            form_pairs(body),
            key,
            v,
        ),
{
    law_lookup_after_marker(form_pairs(body), key);
}

/// The `name` and `number` fields of a form, given its (name, value) pairs
/// in order; the pair ("1", "a") is added at the end before the fields are
/// looked up.
pub fn form_reply_from_pairs(pairs: Vec<(String, String)>) -> (r: FormReply)
    ensures
        match r {
            FormReply::Missing => last_value(pairs.deep_view().push(("1"@, "a"@)), "name"@) is None
                || last_value(pairs.deep_view().push(("1"@, "a"@)), "number"@) is None,
            FormReply::Fields { name, number } => last_value(
                pairs.deep_view().push(("1"@, "a"@)),
                "name"@,
            ) == Some(name@) && last_value(pairs.deep_view().push(("1"@, "a"@)), "number"@)
                == Some(number@),
        },
        match r {
            FormReply::Missing => lacks_key(pairs.deep_view(), "name"@) || lacks_key(
                pairs.deep_view(),
                "number"@,
            ),
            FormReply::Fields { name, number } => is_last_pair(pairs.deep_view(), "name"@, name@)
                && is_last_pair(pairs.deep_view(), "number"@, number@),
        },
{
    proof {
        law_lookup_after_marker(pairs.deep_view(), "name"@);
        law_lookup_after_marker(pairs.deep_view(), "number"@);
    }
    let mut params = pairs;
    let ghost before = params.deep_view();
    params.push(("1".to_string(), "a".to_string()));
    proof {
        assert(params.deep_view() =~= before.push(("1"@, "a"@)));
    }
    let name = match last_value_of(&params, "name") {
        Some(n) => n,
        None => {
            return FormReply::Missing;
        },
    };
    let number = match last_value_of(&params, "number") {
        Some(n) => n,
        None => {
            return FormReply::Missing;
        },
    };
    FormReply::Fields { name, number }
}

/// The page that shows `LOWERCASE` before and `after` after the upstream
/// server changed it.
pub fn compare_page(after: &str) -> (r: String)
    ensures
        r@ == "<b>before</b>: "@ + LOWERCASE@ + "<br><b>after</b>: "@ + after@,
{
    let mut page = String::new();
    page.append("<b>before</b>: ");
    page.append(LOWERCASE);
    page.append("<br><b>after</b>: ");
    page.append(after);
    page
}

/// The URI of the root of the server at `host`:`port`.
pub fn root_uri(host: &str, port: u16) -> (r: String)
    ensures
        r@ == "http://"@ + host@ + ":"@ + decimal(port as nat) + "/"@,
{
    let mut uri = String::new();
    uri.append("http://");
    uri.append(host);
    uri.append(":");
    let digits = decimal_text(port as u64);
    uri.append(digits.as_str());
    uri.append("/");
    uri
}

/// The URI under which a request for `path_and_query` reaches the upstream
/// server at `authority`.
pub fn upstream_uri(authority: &str, path_and_query: Option<&str>) -> (r: String)
    ensures
        r@ == "http://"@ + authority@ + match path_and_query {
            Some(p) => p@,
            None => Seq::<char>::empty(),
        },
{
    let mut uri = String::new();
    uri.append("http://");
    uri.append(authority);
    match path_and_query {
        Some(p) => uri.append(p),
        None => {},
    }
    uri
}

} // verus!
