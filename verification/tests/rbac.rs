use rbac_proxy::parser::models::{Grants, RBAC};

fn strings(items: &[&str]) -> Vec<String> {
    items.iter().map(|s| s.to_string()).collect()
}

fn sample_rbac() -> RBAC {
    let mut grants = Grants::new();
    grants.insert("guest".to_string(), strings(&["Read"]));
    grants.insert("user".to_string(), strings(&["Read", "CreateOwnData", "UpdateOwnData"]));
    grants.insert(
        "admin".to_string(),
        strings(&["Read", "CreateUser", "DeleteUser", "DeleteAny", "UpdateRole"]),
    );
    grants.insert("superuser".to_string(), strings(&["Any", "CreateAdmin"]));
    RBAC {
        roles: strings(&["guest", "user", "admin", "superuser"]),
        permissions: strings(&["Create", "Read", "Update", "Delete"]),
        grants,
    }
}

#[test]
fn user_check_access() {
    let id = "10001";
    let status = "admin";
    let rbac = sample_rbac();
    assert!(rbac.check_access(id, status, "CreateUser"), "{}", true);
    assert_eq!(rbac.check_access(id, status, "createuser"), false);
    assert_eq!(rbac.check_access(id, "hacker", "create"), false);
}

#[test]
fn user_check_no_access() {
    let id = "10001";
    let rbac = sample_rbac();
    assert_eq!(rbac.check_access(id, "hacker", "create"), false);
}

#[test]
fn guest_may_only_read() {
    let rbac = sample_rbac();
    assert!(rbac.check_access("1", "guest", "Read"));
    assert!(!rbac.check_access("1", "guest", "CreateUser"));
    assert!(rbac.check_access("2", "superuser", "CreateAdmin"));
}

#[test]
fn grant_replaces_earlier_grant() {
    let mut rbac = sample_rbac();
    rbac.grants.insert("guest".to_string(), strings(&["Write"]));
    assert!(!rbac.check_access("1", "guest", "Read"));
    assert!(rbac.check_access("1", "guest", "Write"));
    assert!(rbac.check_access("1", "admin", "DeleteAny"));
    assert_eq!(rbac.grants.get("guest"), Some(&strings(&["Write"])));
    assert_eq!(rbac.grants.get("nobody"), None);
}

#[test]
fn empty_grants_refuse_everything() {
    let rbac = RBAC { roles: Vec::new(), permissions: Vec::new(), grants: Grants::new() };
    assert!(!rbac.check_access("1", "admin", "Read"));
    assert!(!rbac.check_access("1", "", ""));
}

#[test]
fn tokens_are_never_accepted() {
    assert!(!RBAC::check_token("JHJFGFS"));
    assert!(!RBAC::is_allowed("JHJFGFS"));
}

#[test]
fn add_admin() {
    let r = RBAC::add_user_roles("123", "JHJFGFS", "Admin");
    assert_eq!(r.id, "123");
    assert_eq!(r.token, Some("JHJFGFS".to_string()));
    assert_eq!(r.role, Some("Admin".to_string()));
}

#[test]
fn default_rules_are_empty() {
    let rbac = RBAC::default();
    assert!(rbac.roles.is_empty());
    assert!(rbac.grants.entries().is_empty());
    assert!(!rbac.check_access("1", "guest", "Read"));
}

#[test]
fn entries_list_each_role_once() {
    let rbac = sample_rbac();
    let roles: Vec<&str> = rbac.grants.entries().iter().map(|(r, _)| r.as_str()).collect();
    assert_eq!(roles, vec!["guest", "user", "admin", "superuser"]);
}
