use rbac_proxy::fields;
use rbac_proxy::text::last_value_of;

#[test]
fn parse_request_fields() {
    let test_string = "{\"username\": \"testname8\", \"password\": \"paswrd\", \"email\": \"test@email.com\"}".to_string();
    let v2 = fields::parse_request_fields(&test_string).unwrap();

    assert_eq!(last_value_of(&v2, "username"), Some("testname8".to_string()));
    assert_eq!(last_value_of(&v2, "password"), Some("paswrd".to_string()));
    assert_eq!(last_value_of(&v2, "email"), Some("test@email.com".to_string()));
}

#[test]
fn item_without_colon_is_refused() {
    assert_eq!(fields::parse_request_fields("{\"username\": \"a\", \"oops\"}"), None);
}

#[test]
fn later_field_wins_and_extra_colons_are_ignored() {
    let v = fields::parse_request_fields("{\"a\": \"1\", \"a\": \"2:3\"}").unwrap();
    assert_eq!(v, vec![("a".to_string(), "1".to_string()), ("a".to_string(), "2".to_string())]);
    assert_eq!(last_value_of(&v, "a"), Some("2".to_string()));
    assert_eq!(last_value_of(&v, "b"), None);
}
