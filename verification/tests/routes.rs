use rbac_proxy::pass_through::{pass_through, Passage};
use rbac_proxy::parser::parser::{
    compare_page, decode_authorization, form_reply, form_reply_from_pairs, user_listing_body, is_known_route, path_segments, plan_request,
    root_uri, upstream_uri, uppercase_ascii, AuthError, FormReply, Method, Plan,
};

fn respond(method: Method, path: &str) -> (u16, bool, String) {
    match plan_request(method, path) {
        Some(Plan::Respond(r)) => (r.status, r.json, r.body),
        _ => panic!("expected a direct answer for {}", path),
    }
}

#[test]
fn named_routes_are_known() {
    assert!(is_known_route("/"));
    assert!(is_known_route("/api/auth/signin"));
    assert!(is_known_route("/web_api"));
    assert!(!is_known_route("/json"));
    assert!(!is_known_route(""));
}

#[test]
fn forwarded_and_handled_routes() {
    assert!(matches!(plan_request(Method::Get, "/"), Some(Plan::Forward)));
    assert!(matches!(plan_request(Method::Get, "/index.html"), Some(Plan::Forward)));
    assert!(matches!(plan_request(Method::Post, "/uppercase"), Some(Plan::UppercaseEcho)));
    assert!(matches!(plan_request(Method::Post, "/post"), Some(Plan::ReadForm)));
    assert!(matches!(plan_request(Method::Get, "/test"), Some(Plan::ForwardToRoot)));
    assert!(matches!(plan_request(Method::Get, "/test.html"), Some(Plan::CompareLowercase)));
    assert!(matches!(plan_request(Method::Get, "/json"), Some(Plan::SampleUserJson)));
    assert!(matches!(plan_request(Method::Get, "/api/auth/signin"), Some(Plan::Forward)));
    assert!(matches!(plan_request(Method::Post, "/api/auth/signin"), Some(Plan::ForwardSignIn)));
    assert!(matches!(plan_request(Method::Get, "/api/users/5/messages"), Some(Plan::Forward)));
}

#[test]
fn post_json_answers_hello_world() {
    assert_eq!(respond(Method::Post, "/json"), (200, true, "hello world".to_string()));
}

#[test]
fn unknown_method_or_post_route_is_not_found() {
    assert_eq!(respond(Method::Other, "/"), (404, false, "Not Found".to_string()));
    assert_eq!(respond(Method::Post, "/nowhere"), (404, false, "Not Found".to_string()));
}

#[test]
fn short_unknown_get_path_is_not_found() {
    assert_eq!(
        respond(Method::Get, "/login"),
        (404, false, "Error reaching un-existing route".to_string())
    );
    assert_eq!(
        respond(Method::Get, "nothing"),
        (404, false, "Error reaching un-existing route".to_string())
    );
}

#[test]
fn user_path_names_the_user() {
    assert_eq!(
        respond(Method::Get, "/user/42"),
        (200, true, "You probably a \"user\" with id: \"42\"".to_string())
    );
    assert_eq!(
        respond(Method::Get, "/a/users/7/b"),
        (200, true, "You probably a \"users\" with id: \"7\"".to_string())
    );
    assert_eq!(
        respond(Method::Get, "/x/y"),
        (200, true, "You probably a \"x\" with id: \"y\"".to_string())
    );
}

#[test]
fn longer_path_is_listed_as_json() {
    assert_eq!(respond(Method::Get, "/a/b/c"), (200, true, "[\"a\",\"b\",\"c\"]".to_string()));
    assert_eq!(
        respond(Method::Get, "/a/\"q\"/c"),
        (200, true, "[\"a\",\"\\\"q\\\"\",\"c\"]".to_string())
    );
}

#[test]
fn user_segment_without_id_has_no_plan() {
    assert!(plan_request(Method::Get, "/a/user").is_none());
    assert!(plan_request(Method::Get, "/a/b/users").is_none());
}

#[test]
fn segments_follow_split() {
    assert_eq!(path_segments("/a//b"), vec!["a".to_string(), String::new(), "b".to_string()]);
    assert_eq!(path_segments("/"), vec![String::new()]);
    assert_eq!(path_segments("abc"), Vec::<String>::new());
}

#[test]
fn authorization_credentials_are_decoded() {
    assert_eq!(decode_authorization("Basic am9objpwYXNz"), Ok(b"john:pass".to_vec()));
    assert_eq!(decode_authorization("  Basic\tam9objpwYXNz  extra"), Ok(b"john:pass".to_vec()));
    assert_eq!(decode_authorization("Basic"), Err(AuthError::MissingCredentials));
    assert_eq!(decode_authorization(""), Err(AuthError::MissingCredentials));
    assert_eq!(decode_authorization("Basic !!!"), Err(AuthError::InvalidEncoding));
}

#[test]
fn uppercase_changes_only_ascii_letters() {
    assert_eq!(uppercase_ascii(b"abc XyZ 09 \xc3\xa9"), b"ABC XYZ 09 \xc3\xa9".to_vec());
    assert_eq!(uppercase_ascii(b""), Vec::<u8>::new());
}

#[test]
fn form_fields_are_read() {
    match form_reply(b"name=Ann&number=12.5") {
        FormReply::Fields { name, number } => {
            assert_eq!(name, "Ann");
            assert_eq!(number, "12.5");
        }
        FormReply::Missing => panic!("fields expected"),
    }
    match form_reply(b"name=A+B&name=Zo%C3%A9&&number=x") {
        FormReply::Fields { name, number } => {
            assert_eq!(name, "Zoé");
            assert_eq!(number, "x");
        }
        FormReply::Missing => panic!("fields expected"),
    }
    assert!(matches!(form_reply(b"name=Ann"), FormReply::Missing));
    assert!(matches!(form_reply(b"number=3"), FormReply::Missing));
    assert!(matches!(form_reply(b""), FormReply::Missing));
}

#[test]
fn compare_page_shows_both_texts() {
    assert_eq!(
        compare_page("I AM"),
        "<b>before</b>: i am a lower case string<br><b>after</b>: I AM"
    );
}

#[test]
fn uris_are_built() {
    assert_eq!(root_uri("127.0.0.1", 1331), "http://127.0.0.1:1331/");
    assert_eq!(root_uri("h", 0), "http://h:0/");
    assert_eq!(upstream_uri("127.0.0.1:1331", Some("/a?b=1")), "http://127.0.0.1:1331/a?b=1");
    assert_eq!(upstream_uri("127.0.0.1:1331", None), "http://127.0.0.1:1331");
}

#[test]
fn form_pairs_are_looked_up_last_first() {
    let pairs = vec![
        ("name".to_string(), "A".to_string()),
        ("number".to_string(), "1".to_string()),
        ("name".to_string(), "B".to_string()),
    ];
    match form_reply_from_pairs(pairs) {
        FormReply::Fields { name, number } => {
            assert_eq!(name, "B");
            assert_eq!(number, "1");
        }
        FormReply::Missing => panic!("fields expected"),
    }
    assert!(matches!(form_reply_from_pairs(Vec::new()), FormReply::Missing));
}

#[test]
fn user_listing_body_names_both() {
    assert_eq!(user_listing_body("\"user\"", "\"9\""), "You probably a \"user\" with id: \"9\"");
}

#[test]
fn pass_through_rule() {
    assert_eq!(pass_through(Method::Get), Passage::Forward);
    assert_eq!(pass_through(Method::Post), Passage::ForwardLogged);
    assert_eq!(pass_through(Method::Other), Passage::NotFoundRequest);
}

#[test]
fn uppercase_twice_is_uppercase_once() {
    let once = uppercase_ascii(b"Mixed Case 123 ok");
    assert_eq!(uppercase_ascii(&once), once);
}
