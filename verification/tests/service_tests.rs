use rbacrab::{decide, PermissionInfo, PermissionRegistry, RbacError, Role, RoleMap, RoleS};

fn strings(items: &[&str]) -> Vec<String> {
    items.iter().map(|s| s.to_string()).collect()
}

fn role(name: &str, items: &[&str]) -> Role {
    Role::new(name, strings(items))
}

fn decision(roles: &RoleMap, fallback: &[&str], held: &[&str], perm: &str) -> Result<(), RbacError> {
    let parts: Vec<&str> = perm.split("::").collect();
    decide(roles, &strings(fallback), &strings(held), perm, parts[0], parts[1])
}

fn denied(perm: &str) -> Result<(), RbacError> {
    Err(RbacError::PermissionDenied(perm.to_string()))
}

fn sample_roles() -> RoleMap {
    let mut roles = RoleMap::new();
    roles.insert(role(
        "OrderManager",
        &["Orders::Order::*", "Orders::OrderItem::*", "Orders::Invoice::{Read,Generate}"],
    ));
    roles.insert(role("Admin", &["*"]));
    roles.insert(role("Reader", &["Orders::Order::Read"]));
    roles
}

#[test]
fn order_manager_scenario() {
    let roles = sample_roles();
    assert_eq!(decision(&roles, &["Default"], &["OrderManager"], "Orders::Order::Update"), Ok(()));
    assert_eq!(
        decision(&roles, &["Default"], &["OrderManager"], "Orders::Invoice::Send"),
        denied("Orders::Invoice::Send")
    );
    assert_eq!(decision(&roles, &["Default"], &["OrderManager"], "Orders::Invoice::Read"), Ok(()));
}

#[test]
fn admin_scenario() {
    let roles = sample_roles();
    for perm in ["Orders::Order::Update", "Users::User::Delete", "Templates::Template::Read", "X::Y::Z"] {
        assert_eq!(decision(&roles, &["Default"], &["Admin"], perm), Ok(()));
    }
}

#[test]
fn no_roles_and_no_default_role_denies_everything() {
    let roles = sample_roles();
    for perm in ["Orders::Order::Update", "Orders::Order::Read", "Users::User::Delete"] {
        assert_eq!(decision(&roles, &["Default"], &[], perm), denied(perm));
    }
}

#[test]
fn fallback_roles_stand_in_for_a_subject_without_roles() {
    let roles = sample_roles();
    assert_eq!(decision(&roles, &["Reader"], &[], "Orders::Order::Read"), Ok(()));
    assert_eq!(decision(&roles, &["Reader"], &[], "Orders::Order::Update"), denied("Orders::Order::Update"));
    assert_eq!(decision(&roles, &["Ghost", "Admin"], &[], "Orders::Order::Update"), Ok(()));
}

#[test]
fn fallback_roles_are_not_consulted_for_a_subject_with_roles() {
    let roles = sample_roles();
    assert_eq!(decision(&roles, &["Admin"], &["Reader"], "Orders::Order::Update"), denied("Orders::Order::Update"));
    assert_eq!(decision(&roles, &["Admin"], &["Ghost"], "Orders::Order::Read"), denied("Orders::Order::Read"));
}

#[test]
fn empty_fallback_and_no_roles_denies() {
    let roles = sample_roles();
    assert_eq!(decision(&roles, &[], &[], "Orders::Order::Read"), denied("Orders::Order::Read"));
}

#[test]
fn absent_role_names_grant_nothing_and_break_nothing() {
    let roles = sample_roles();
    for perm in ["Orders::Order::Read", "Orders::Order::Update", "Users::User::Read"] {
        let plain = decision(&roles, &["Default"], &["Reader"], perm);
        assert_eq!(decision(&roles, &["Default"], &["Ghost", "Reader"], perm), plain);
        assert_eq!(decision(&roles, &["Default"], &["Reader", "Ghost"], perm), plain);
        assert_eq!(decision(&roles, &["Default"], &["Ghost", "Reader", "Phantom"], perm), plain);
    }
    assert_eq!(decision(&roles, &["Default"], &["Ghost"], "Orders::Order::Read"), denied("Orders::Order::Read"));
}

#[test]
fn any_granting_role_suffices() {
    let roles = sample_roles();
    assert_eq!(decision(&roles, &[], &["Reader", "OrderManager"], "Orders::Invoice::Read"), Ok(()));
    assert_eq!(decision(&roles, &[], &["OrderManager", "Reader"], "Orders::Invoice::Read"), Ok(()));
    assert_eq!(decision(&roles, &[], &["Reader", "Reader"], "Orders::Invoice::Read"), denied("Orders::Invoice::Read"));
}

#[test]
fn role_map_insert_get_remove() {
    let mut roles = RoleMap::new();
    assert!(roles.get("A").is_none());
    roles.insert(role("A", &["X::Y::Z"]));
    roles.insert(role("B", &["*"]));
    assert_eq!(roles.get("A").unwrap().name(), "A");
    assert_eq!(roles.get("A").unwrap().permissions(), &strings(&["X::Y::Z"]));
    roles.insert(role("A", &["X::Y::W"]));
    assert_eq!(roles.get("A").unwrap().permissions(), &strings(&["X::Y::W"]));
    roles.remove("A");
    assert!(roles.get("A").is_none());
    assert_eq!(roles.get("B").unwrap().name(), "B");
    roles.remove("A");
    roles.remove("Nobody");
    assert!(roles.get("B").is_some());
    roles.insert(role("A", &["X::Y::V"]));
    assert_eq!(roles.get("A").unwrap().permissions(), &strings(&["X::Y::V"]));
}

#[test]
fn role_map_clone_holds_the_same_roles() {
    let mut roles = sample_roles();
    roles.remove("Reader");
    roles.insert(role("Reader", &["Orders::Order::Read", "Orders::Order::Cancel"]));
    let copy = roles.clone();
    roles.remove("Admin");
    assert!(copy.get("Admin").is_some());
    assert_eq!(
        copy.get("Reader").unwrap().permissions(),
        &strings(&["Orders::Order::Read", "Orders::Order::Cancel"])
    );
    assert!(copy.get("OrderManager").is_some());
    assert!(copy.get("Ghost").is_none());
    assert_eq!(decision(&copy, &[], &["Reader"], "Orders::Order::Cancel"), Ok(()));
}

#[test]
fn role_keeps_its_patterns_and_compiles_them() {
    let made = role("OrderManager", &["Orders::Order::*", "Orders::Invoice::{Read}"]);
    assert_eq!(made.name(), "OrderManager");
    assert_eq!(made.permissions(), &strings(&["Orders::Order::*", "Orders::Invoice::{Read}"]));
    assert!(made.compiled_permissions().matches("Orders::Order::Read", "Orders", "Order"));
    assert!(made.compiled_permissions().matches("Orders::Invoice::Read", "Orders", "Invoice"));
    assert!(!made.compiled_permissions().matches("Orders::Invoice::Send", "Orders", "Invoice"));
    let copy = made.clone();
    assert_eq!(copy.name(), "OrderManager");
    assert_eq!(copy.permissions(), made.permissions());
    assert!(copy.compiled_permissions().matches("Orders::Order::Read", "Orders", "Order"));
    assert!(!copy.compiled_permissions().matches("Orders::Invoice::Send", "Orders", "Invoice"));
}

#[test]
fn role_records_convert_both_ways() {
    let record = RoleS { name: "Reader".to_string(), permissions: strings(&["Orders::Order::Read"]) };
    let copy = record.clone();
    assert_eq!(copy.name, "Reader");
    assert_eq!(copy.permissions, strings(&["Orders::Order::Read"]));
    let made: Role = record.into();
    assert_eq!(made.name(), "Reader");
    assert!(made.compiled_permissions().matches("Orders::Order::Read", "Orders", "Order"));
    let back: RoleS = made.into();
    assert_eq!(back.name, "Reader");
    assert_eq!(back.permissions, strings(&["Orders::Order::Read"]));
}

#[test]
fn error_message() {
    let error = RbacError::PermissionDenied("Orders::Invoice::Send".to_string());
    assert_eq!(error.message(), "Permission denied: Orders::Invoice::Send");
    assert_eq!(RbacError::PermissionDenied(String::new()).message(), "Permission denied: ");
}

fn info(full_name: &str, description: &str) -> PermissionInfo {
    let parts: Vec<&str> = full_name.split("::").collect();
    PermissionInfo {
        domain: parts[0].to_string(),
        object_type: parts[1].to_string(),
        action: parts[2].to_string(),
        full_name: full_name.to_string(),
        description: description.to_string(),
    }
}

#[test]
fn registry_lists_in_the_order_of_the_texts() {
    let mut registry = PermissionRegistry::new();
    assert!(registry.list().is_empty());
    for name in ["Users::User::Read", "Orders::Order::Read", "Users::Method::Read", "Orders::Invoice::Send", "Templates::Template::Read"] {
        registry.insert(info(name, "first"));
    }
    registry.insert(info("Orders::Order::Read", "second"));
    let names: Vec<&str> = registry.list().iter().map(|p| p.full_name.as_str()).collect();
    assert_eq!(
        names,
        vec![
            "Orders::Invoice::Send",
            "Orders::Order::Read",
            "Templates::Template::Read",
            "Users::Method::Read",
            "Users::User::Read",
        ]
    );
    assert_eq!(registry.get("Orders::Order::Read").unwrap().description, "second");
    assert_eq!(registry.get("Users::User::Read").unwrap().description, "first");
    assert!(registry.get("Users::User::Write").is_none());
    assert!(registry.get("").is_none());
    let copy = registry.clone();
    assert_eq!(copy.list().len(), 5);
    assert_eq!(copy.get("Orders::Order::Read").unwrap().description, "second");
    let cloned = copy.get("Orders::Order::Read").unwrap().clone();
    assert_eq!(cloned.domain, "Orders");
    assert_eq!(cloned.object_type, "Order");
    assert_eq!(cloned.action, "Read");
    assert_eq!(cloned.full_name, "Orders::Order::Read");
}
