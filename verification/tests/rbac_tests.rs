use rbacrab::{
    parse_permission, Permission, RbacError, RbacService, RbacServiceBuilder, RbacServiceUpdater,
    RbacSubject, Role, RoleMap,
};

#[derive(Debug, Clone, PartialEq, Eq, Hash)]
enum UsersUser {
    Read,
    Write,
    Create,
    Delete,
    Lock,
    Archive,
}

impl std::fmt::Display for UsersUser {
    fn fmt(&self, f: &mut std::fmt::Formatter) -> std::fmt::Result {
        f.write_str(&self.to_permission_string())
    }
}

impl Permission for UsersUser {
    fn domain() -> &'static str {
        "Users"
    }

    fn object_type(&self) -> &'static str {
        "User"
    }

    fn action(&self) -> &'static str {
        match self {
            UsersUser::Read => "Read",
            UsersUser::Write => "Write",
            UsersUser::Create => "Create",
            UsersUser::Delete => "Delete",
            UsersUser::Lock => "Lock",
            UsersUser::Archive => "Archive",
        }
    }

    fn from_string(s: &str) -> Option<Self> {
        parse_permission::<Self>(s)
    }

    fn all_permissions() -> Vec<Self> {
        vec![
            UsersUser::Read,
            UsersUser::Write,
            UsersUser::Create,
            UsersUser::Delete,
            UsersUser::Lock,
            UsersUser::Archive,
        ]
    }

    fn description(&self) -> &'static str {
        match self {
            UsersUser::Read => "View user information",
            UsersUser::Write => "Modify user information",
            UsersUser::Create => "Create new users",
            UsersUser::Delete => "Delete users",
            UsersUser::Lock => "Lock/unlock user accounts",
            UsersUser::Archive => "Archive user accounts",
        }
    }
}

#[derive(Debug, Clone, PartialEq, Eq, Hash)]
enum UsersMethod {
    Read,
    Write,
    Delete,
    Activate,
}

impl std::fmt::Display for UsersMethod {
    fn fmt(&self, f: &mut std::fmt::Formatter) -> std::fmt::Result {
        f.write_str(&self.to_permission_string())
    }
}

impl Permission for UsersMethod {
    fn domain() -> &'static str {
        "Users"
    }

    fn object_type(&self) -> &'static str {
        "Method"
    }

    fn action(&self) -> &'static str {
        match self {
            UsersMethod::Read => "Read",
            UsersMethod::Write => "Write",
            UsersMethod::Delete => "Delete",
            UsersMethod::Activate => "Activate",
        }
    }

    fn from_string(s: &str) -> Option<Self> {
        parse_permission::<Self>(s)
    }

    fn all_permissions() -> Vec<Self> {
        vec![
            UsersMethod::Read,
            UsersMethod::Write,
            UsersMethod::Delete,
            UsersMethod::Activate,
        ]
    }

    fn description(&self) -> &'static str {
        match self {
            UsersMethod::Read => "View authentication methods",
            UsersMethod::Write => "Modify authentication methods",
            UsersMethod::Delete => "Delete authentication methods",
            UsersMethod::Activate => "Activate/deactivate methods",
        }
    }
}

#[derive(Debug, Clone, PartialEq, Eq, Hash)]
enum UsersNotify {
    Write,
}

impl std::fmt::Display for UsersNotify {
    fn fmt(&self, f: &mut std::fmt::Formatter) -> std::fmt::Result {
        f.write_str(&self.to_permission_string())
    }
}

impl Permission for UsersNotify {
    fn domain() -> &'static str {
        "Users"
    }

    fn object_type(&self) -> &'static str {
        "Notify"
    }

    fn action(&self) -> &'static str {
        match self {
            UsersNotify::Write => "Write",
        }
    }

    fn from_string(s: &str) -> Option<Self> {
        parse_permission::<Self>(s)
    }

    fn all_permissions() -> Vec<Self> {
        vec![
            UsersNotify::Write,
        ]
    }

    fn description(&self) -> &'static str {
        match self {
            UsersNotify::Write => "Send notifications",
        }
    }
}

#[derive(Debug, Clone, PartialEq, Eq, Hash)]
enum TemplatesTemplate {
    Read,
    Write,
    Create,
    Delete,
}

impl std::fmt::Display for TemplatesTemplate {
    fn fmt(&self, f: &mut std::fmt::Formatter) -> std::fmt::Result {
        f.write_str(&self.to_permission_string())
    }
}

impl Permission for TemplatesTemplate {
    fn domain() -> &'static str {
        "Templates"
    }

    fn object_type(&self) -> &'static str {
        "Template"
    }

    fn action(&self) -> &'static str {
        match self {
            TemplatesTemplate::Read => "Read",
            TemplatesTemplate::Write => "Write",
            TemplatesTemplate::Create => "Create",
            TemplatesTemplate::Delete => "Delete",
        }
    }

    fn from_string(s: &str) -> Option<Self> {
        parse_permission::<Self>(s)
    }

    fn all_permissions() -> Vec<Self> {
        vec![
            TemplatesTemplate::Read,
            TemplatesTemplate::Write,
            TemplatesTemplate::Create,
            TemplatesTemplate::Delete,
        ]
    }

    fn description(&self) -> &'static str {
        match self {
            TemplatesTemplate::Read => "View templates",
            TemplatesTemplate::Write => "Modify templates",
            TemplatesTemplate::Create => "Create new templates",
            TemplatesTemplate::Delete => "Delete templates",
        }
    }
}

#[derive(Debug, Clone, PartialEq, Eq, Hash)]
enum OrdersOrder {
    Read,
    Create,
    Update,
    Cancel,
}

impl std::fmt::Display for OrdersOrder {
    fn fmt(&self, f: &mut std::fmt::Formatter) -> std::fmt::Result {
        f.write_str(&self.to_permission_string())
    }
}

impl Permission for OrdersOrder {
    fn domain() -> &'static str {
        "Orders"
    }

    fn object_type(&self) -> &'static str {
        "Order"
    }

    fn action(&self) -> &'static str {
        match self {
            OrdersOrder::Read => "Read",
            OrdersOrder::Create => "Create",
            OrdersOrder::Update => "Update",
            OrdersOrder::Cancel => "Cancel",
        }
    }

    fn from_string(s: &str) -> Option<Self> {
        parse_permission::<Self>(s)
    }

    fn all_permissions() -> Vec<Self> {
        vec![
            OrdersOrder::Read,
            OrdersOrder::Create,
            OrdersOrder::Update,
            OrdersOrder::Cancel,
        ]
    }

    fn description(&self) -> &'static str {
        match self {
            OrdersOrder::Read => "View orders",
            OrdersOrder::Create => "Create orders",
            OrdersOrder::Update => "Update orders",
            OrdersOrder::Cancel => "Cancel orders",
        }
    }
}

#[derive(Debug, Clone, PartialEq, Eq, Hash)]
enum OrdersOrderItem {
    Read,
    Add,
    Remove,
}

impl std::fmt::Display for OrdersOrderItem {
    fn fmt(&self, f: &mut std::fmt::Formatter) -> std::fmt::Result {
        f.write_str(&self.to_permission_string())
    }
}

impl Permission for OrdersOrderItem {
    fn domain() -> &'static str {
        "Orders"
    }

    fn object_type(&self) -> &'static str {
        "OrderItem"
    }

    fn action(&self) -> &'static str {
        match self {
            OrdersOrderItem::Read => "Read",
            OrdersOrderItem::Add => "Add",
            OrdersOrderItem::Remove => "Remove",
        }
    }

    fn from_string(s: &str) -> Option<Self> {
        parse_permission::<Self>(s)
    }

    fn all_permissions() -> Vec<Self> {
        vec![
            OrdersOrderItem::Read,
            OrdersOrderItem::Add,
            OrdersOrderItem::Remove,
        ]
    }

    fn description(&self) -> &'static str {
        match self {
            OrdersOrderItem::Read => "View order items",
            OrdersOrderItem::Add => "Add items to order",
            OrdersOrderItem::Remove => "Remove items from order",
        }
    }
}

#[derive(Debug, Clone, PartialEq, Eq, Hash)]
enum OrdersInvoice {
    Read,
    Generate,
    Send,
}

impl std::fmt::Display for OrdersInvoice {
    fn fmt(&self, f: &mut std::fmt::Formatter) -> std::fmt::Result {
        f.write_str(&self.to_permission_string())
    }
}

impl Permission for OrdersInvoice {
    fn domain() -> &'static str {
        "Orders"
    }

    fn object_type(&self) -> &'static str {
        "Invoice"
    }

    fn action(&self) -> &'static str {
        match self {
            OrdersInvoice::Read => "Read",
            OrdersInvoice::Generate => "Generate",
            OrdersInvoice::Send => "Send",
        }
    }

    fn from_string(s: &str) -> Option<Self> {
        parse_permission::<Self>(s)
    }

    fn all_permissions() -> Vec<Self> {
        vec![
            OrdersInvoice::Read,
            OrdersInvoice::Generate,
            OrdersInvoice::Send,
        ]
    }

    fn description(&self) -> &'static str {
        match self {
            OrdersInvoice::Read => "View invoices",
            OrdersInvoice::Generate => "Generate invoices",
            OrdersInvoice::Send => "Send invoices to customers",
        }
    }
}

fn register_users(builder: &mut RbacServiceBuilder) {
    builder.register_permissions::<UsersUser>();
    builder.register_permissions::<UsersMethod>();
    builder.register_permissions::<UsersNotify>();
}

fn register_templates(builder: &mut RbacServiceBuilder) {
    builder.register_permissions::<TemplatesTemplate>();
}

fn register_orders(builder: &mut RbacServiceBuilder) {
    builder.register_permissions::<OrdersOrder>();
    builder.register_permissions::<OrdersOrderItem>();
    builder.register_permissions::<OrdersInvoice>();
}

struct User {
    name: String,
    roles: Vec<String>,
}

impl RbacSubject for User {
    fn get_roles(&self) -> &Vec<String> {
        &self.roles
    }

    fn name(&self) -> &str {
        &self.name
    }
}

fn user(name: &str, roles: &[&str]) -> User {
    User { name: name.to_string(), roles: roles.iter().map(|r| r.to_string()).collect() }
}

fn patterns(items: &[&str]) -> Vec<String> {
    items.iter().map(|s| s.to_string()).collect()
}

fn setup_rbac() -> RbacService {
    let mut builder = RbacService::builder();

    register_users(&mut builder);
    register_templates(&mut builder);
    register_orders(&mut builder);

    builder.add_role(Role::new("UserManager", patterns(&["Users::User::*", "Users::Method::*"])));
    builder.add_role(Role::new(
        "TemplateCreator",
        patterns(&["Templates::Template::{Create,Write}", "Users::Notify::Write"]),
    ));
    builder.add_role(Role::new(
        "OrderManager",
        patterns(&["Orders::Order::*", "Orders::OrderItem::*", "Orders::Invoice::{Read,Generate}"]),
    ));
    builder.add_role(Role::new("Admin", patterns(&["*"])));

    builder.build()
}

#[test]
fn test_clean_permission_syntax() {
    let rbac_service = setup_rbac();

    println!(
        "Full permission list: \n{:#?}",
        rbac_service
            .get_all_permissions()
            .iter()
            .map(|perm| { format!("{} => {}", perm.full_name, perm.description) })
            .collect::<Vec<String>>()
    );

    let mgmt_user = user("mgmt", &["UserManager", "TemplateCreator"]);

    assert!(rbac_service.has_permission(&mgmt_user, UsersUser::Create).is_ok());
    assert!(rbac_service.has_permission(&mgmt_user, UsersMethod::Read).is_ok());
    assert!(rbac_service.has_permission(&mgmt_user, TemplatesTemplate::Create).is_ok());
    assert!(rbac_service.has_permission(&mgmt_user, TemplatesTemplate::Delete).is_err());
    assert!(rbac_service.has_permission(&mgmt_user, UsersNotify::Write).is_ok());
}

#[test]
fn test_order_permissions() {
    let rbac_service = setup_rbac();

    let order_mgr = user("order_manager", &["OrderManager"]);

    assert!(rbac_service.has_permission(&order_mgr, OrdersOrder::Create).is_ok());
    assert!(rbac_service.has_permission(&order_mgr, OrdersOrderItem::Add).is_ok());
    assert!(rbac_service.has_permission(&order_mgr, OrdersInvoice::Read).is_ok());
    assert!(rbac_service.has_permission(&order_mgr, OrdersInvoice::Generate).is_ok());
    assert!(rbac_service.has_permission(&order_mgr, OrdersInvoice::Send).is_err());
}

#[test]
fn test_admin_has_all() {
    let rbac_service = setup_rbac();

    let admin = user("admin", &["Admin"]);

    assert!(rbac_service.has_permission(&admin, UsersUser::Delete).is_ok());
    assert!(rbac_service.has_permission(&admin, TemplatesTemplate::Delete).is_ok());
    assert!(rbac_service.has_permission(&admin, OrdersInvoice::Generate).is_ok());
}

#[test]
fn test_permission_string_format() {
    assert_eq!(UsersUser::Create.to_permission_string(), "Users::User::Create");
    assert_eq!(OrdersInvoice::Generate.to_permission_string(), "Orders::Invoice::Generate");
    assert_eq!(TemplatesTemplate::Read.to_permission_string(), "Templates::Template::Read");
    assert_eq!(UsersUser::Create.to_string(), "Users::User::Create");
    assert_eq!(OrdersInvoice::Generate.to_string(), "Orders::Invoice::Generate");
    assert_eq!(TemplatesTemplate::Read.to_string(), "Templates::Template::Read");
}

#[test]
fn test_permission_registry() {
    let service = setup_rbac();

    let perm_info = service.get("Users::User::Create").unwrap();
    assert_eq!(perm_info.domain, "Users");
    assert_eq!(perm_info.object_type, "User");
    assert_eq!(perm_info.action, "Create");
    assert_eq!(perm_info.description, "Create new users");

    let order_perm = service.get("Orders::Invoice::Generate").unwrap();
    assert_eq!(order_perm.domain, "Orders");
    assert_eq!(order_perm.object_type, "Invoice");
    assert_eq!(order_perm.action, "Generate");
}

#[test]
fn test_wildcard_patterns() {
    let rbac_service = setup_rbac();

    let user_mgr = user("user_mgr", &["UserManager"]);

    assert!(rbac_service.has_permission(&user_mgr, UsersUser::Read).is_ok());
    assert!(rbac_service.has_permission(&user_mgr, UsersUser::Archive).is_ok());
    assert!(rbac_service.has_permission(&user_mgr, TemplatesTemplate::Read).is_err());
}

#[test]
fn test_action_set_patterns() {
    let rbac_service = setup_rbac();

    let creator = user("creator", &["TemplateCreator"]);

    assert!(rbac_service.has_permission(&creator, TemplatesTemplate::Create).is_ok());
    assert!(rbac_service.has_permission(&creator, TemplatesTemplate::Write).is_ok());
    assert!(rbac_service.has_permission(&creator, TemplatesTemplate::Read).is_err());
    assert!(rbac_service.has_permission(&creator, TemplatesTemplate::Delete).is_err());
}

#[test]
fn test_update_roles() {
    let rbac_service = setup_rbac();

    let creator = user("creator", &["TemplateCreator"]);

    assert!(rbac_service.has_permission(&creator, TemplatesTemplate::Write).is_ok());

    let mut updater = rbac_service.updater_clean();
    updater.add_role(Role::new(
        "TemplateCreator",
        patterns(&["Templates::Template::{Create}", "Users::Notify::Write"]),
    ));

    updater.update(&rbac_service);

    assert!(rbac_service.has_permission(&creator, TemplatesTemplate::Write).is_err());
    assert!(rbac_service.has_permission(&creator, UsersNotify::Write).is_ok());
}

#[test]
fn denial_names_the_permission() {
    let rbac_service = setup_rbac();
    let creator = user("creator", &["TemplateCreator"]);
    let refused = rbac_service.has_permission(&creator, TemplatesTemplate::Delete);
    assert_eq!(refused, Err(RbacError::PermissionDenied("Templates::Template::Delete".to_string())));
    assert_eq!(refused.unwrap_err().message(), "Permission denied: Templates::Template::Delete");
}

fn all_texts<P: Permission>() -> Vec<String> {
    P::all_permissions().iter().map(|p| p.to_permission_string()).collect()
}

fn round_trips<P: Permission>() {
    let all = P::all_permissions();
    assert!(!all.is_empty());
    for p in all {
        let text = p.to_permission_string();
        assert_eq!(text, format!("{}::{}::{}", P::domain(), p.object_type(), p.action()));
        assert_eq!(P::from_string(&text), Some(p.clone()));
        assert_eq!(parse_permission::<P>(&text), Some(p));
    }
}

#[test]
fn parsing_the_canonical_text_gives_the_value_back() {
    round_trips::<UsersUser>();
    round_trips::<UsersMethod>();
    round_trips::<UsersNotify>();
    round_trips::<TemplatesTemplate>();
    round_trips::<OrdersOrder>();
    round_trips::<OrdersOrderItem>();
    round_trips::<OrdersInvoice>();
}

#[test]
fn parsing_matches_all_three_segments() {
    assert_eq!(UsersUser::from_string("Users::User::Read"), Some(UsersUser::Read));
    assert_eq!(UsersUser::from_string("Users::User::Activate"), None);
    assert_eq!(UsersUser::from_string("Users::Method::Read"), None);
    assert_eq!(UsersUser::from_string("Orders::User::Read"), None);
    assert_eq!(UsersUser::from_string("Users::User::Read::"), None);
    assert_eq!(UsersUser::from_string("Users::User::read"), None);
    assert_eq!(UsersUser::from_string(" Users::User::Read"), None);
    assert_eq!(UsersUser::from_string("Users::User"), None);
    assert_eq!(UsersUser::from_string(""), None);
    assert_eq!(UsersMethod::from_string("Users::Method::Read"), Some(UsersMethod::Read));
    assert_eq!(OrdersInvoice::from_string("Orders::Invoice::Send"), Some(OrdersInvoice::Send));
}

#[test]
fn order_manager_scenario_through_the_service() {
    let rbac_service = setup_rbac();
    let manager = user("manager", &["OrderManager"]);
    assert_eq!(rbac_service.has_permission(&manager, OrdersOrder::Update), Ok(()));
    assert_eq!(
        rbac_service.has_permission(&manager, OrdersInvoice::Send),
        Err(RbacError::PermissionDenied("Orders::Invoice::Send".to_string()))
    );
    assert_eq!(rbac_service.has_permission(&manager, OrdersInvoice::Read), Ok(()));
}

#[test]
fn admin_scenario_through_the_service() {
    let rbac_service = setup_rbac();
    let admin = user("admin", &["Admin"]);
    for p in UsersUser::all_permissions() {
        assert_eq!(rbac_service.has_permission(&admin, p), Ok(()));
    }
    for p in OrdersInvoice::all_permissions() {
        assert_eq!(rbac_service.has_permission(&admin, p), Ok(()));
    }
    for p in TemplatesTemplate::all_permissions() {
        assert_eq!(rbac_service.has_permission(&admin, p), Ok(()));
    }
}

#[test]
fn atomic_update_scenario() {
    let mut builder = RbacService::builder();
    builder.add_role(Role::new("TemplateCreator", patterns(&["Templates::Template::{Create,Write}"])));
    let rbac_service = builder.build();
    let creator = user("creator", &["TemplateCreator"]);

    assert_eq!(rbac_service.has_permission(&creator, TemplatesTemplate::Write), Ok(()));
    assert_eq!(rbac_service.has_permission(&creator, TemplatesTemplate::Create), Ok(()));

    let mut updater = rbac_service.updater_clean();
    updater.add_role(Role::new("TemplateCreator", patterns(&["Templates::Template::{Create}"])));
    assert_eq!(rbac_service.has_permission(&creator, TemplatesTemplate::Write), Ok(()));
    updater.update(&rbac_service);

    assert_eq!(
        rbac_service.has_permission(&creator, TemplatesTemplate::Write),
        Err(RbacError::PermissionDenied("Templates::Template::Write".to_string()))
    );
    assert_eq!(rbac_service.has_permission(&creator, TemplatesTemplate::Create), Ok(()));
}

#[test]
fn subject_without_roles_and_without_default_role_is_denied() {
    let rbac_service = setup_rbac();
    let nobody = user("nobody", &[]);
    assert_eq!(nobody.name(), "nobody");
    for p in UsersUser::all_permissions() {
        let text = p.to_permission_string();
        assert_eq!(rbac_service.has_permission(&nobody, p), Err(RbacError::PermissionDenied(text)));
    }
    assert!(rbac_service.has_permission(&nobody, OrdersOrder::Read).is_err());
    assert!(rbac_service.has_permission(&nobody, TemplatesTemplate::Read).is_err());
}

#[test]
fn default_role_stands_in_for_a_subject_without_roles() {
    let mut builder = RbacService::builder();
    builder.add_role(Role::new("Default", patterns(&["Orders::Order::Read"])));
    builder.add_role(Role::new("Admin", patterns(&["*"])));
    let rbac_service = builder.build();
    let nobody = user("nobody", &[]);
    assert_eq!(rbac_service.has_permission(&nobody, OrdersOrder::Read), Ok(()));
    assert!(rbac_service.has_permission(&nobody, OrdersOrder::Cancel).is_err());
    let stranger = user("stranger", &["Ghost"]);
    assert!(rbac_service.has_permission(&stranger, OrdersOrder::Read).is_err());
}

#[test]
fn configured_fallback_roles_replace_the_default() {
    let mut builder = RbacService::builder();
    builder
        .add_role(Role::new("Default", patterns(&["Orders::Order::Read"])))
        .add_role(Role::new("Guest", patterns(&["Orders::Order::Create"])))
        .set_fallback_roles(patterns(&["Ghost", "Guest"]));
    let rbac_service = builder.build();
    let nobody = user("nobody", &[]);
    assert_eq!(rbac_service.has_permission(&nobody, OrdersOrder::Create), Ok(()));
    assert!(rbac_service.has_permission(&nobody, OrdersOrder::Read).is_err());
}

#[test]
fn absent_role_names_are_skipped() {
    let rbac_service = setup_rbac();
    let mixed = user("mixed", &["Ghost", "OrderManager", "Phantom"]);
    assert_eq!(rbac_service.has_permission(&mixed, OrdersOrder::Update), Ok(()));
    assert!(rbac_service.has_permission(&mixed, OrdersInvoice::Send).is_err());
    let ghost = user("ghost", &["Ghost"]);
    assert!(rbac_service.has_permission(&ghost, OrdersOrder::Update).is_err());
}

#[test]
fn builder_roles_last_write_wins() {
    let mut builder = RbacService::builder();
    builder.load_roles(vec![
        Role::new("Reader", patterns(&["Orders::Order::Read"])),
        Role::new("Writer", patterns(&["Orders::Order::Update"])),
        Role::new("Reader", patterns(&["Orders::Order::Cancel"])),
    ]);
    let rbac_service = builder.build();
    let reader = user("reader", &["Reader"]);
    assert_eq!(rbac_service.has_permission(&reader, OrdersOrder::Cancel), Ok(()));
    assert!(rbac_service.has_permission(&reader, OrdersOrder::Read).is_err());
    let writer = user("writer", &["Writer"]);
    assert_eq!(rbac_service.has_permission(&writer, OrdersOrder::Update), Ok(()));
}

#[test]
fn building_copies_the_roles_of_the_builder() {
    let mut builder = RbacService::builder();
    builder.add_role(Role::new("Reader", patterns(&["Orders::Order::Read"])));
    let first = builder.build();
    builder.add_role(Role::new("Reader", patterns(&["Orders::Order::Cancel"])));
    let second = builder.build();
    let reader = user("reader", &["Reader"]);
    assert_eq!(first.has_permission(&reader, OrdersOrder::Read), Ok(()));
    assert!(first.has_permission(&reader, OrdersOrder::Cancel).is_err());
    assert_eq!(second.has_permission(&reader, OrdersOrder::Cancel), Ok(()));
    assert!(second.has_permission(&reader, OrdersOrder::Read).is_err());
}

#[test]
fn updater_copy_edits_the_current_roles() {
    let rbac_service = setup_rbac();
    let manager = user("manager", &["OrderManager"]);
    let creator = user("creator", &["TemplateCreator"]);
    let admin = user("admin", &["Admin"]);

    let mut updater = rbac_service.updater_copy();
    updater
        .remove_role("Admin")
        .remove_role("Nobody")
        .add_role(Role::new("OrderManager", patterns(&["Orders::Invoice::{Send}"])))
        .load_roles(vec![Role::new("Auditor", patterns(&["Orders::*"]))]);

    assert_eq!(rbac_service.has_permission(&admin, UsersUser::Delete), Ok(()));
    assert_eq!(rbac_service.has_permission(&manager, OrdersOrder::Update), Ok(()));

    updater.update(&rbac_service);

    assert!(rbac_service.has_permission(&admin, UsersUser::Delete).is_err());
    assert!(rbac_service.has_permission(&manager, OrdersOrder::Update).is_err());
    assert_eq!(rbac_service.has_permission(&manager, OrdersInvoice::Send), Ok(()));
    assert_eq!(rbac_service.has_permission(&creator, TemplatesTemplate::Write), Ok(()));
    assert_eq!(rbac_service.has_permission(&user("a", &["Auditor"]), OrdersOrder::Cancel), Ok(()));
}

#[test]
fn updater_clean_replaces_every_role() {
    let rbac_service = setup_rbac();
    let updater = rbac_service.updater_clean();
    updater.update(&rbac_service);
    assert!(rbac_service.has_permission(&user("admin", &["Admin"]), UsersUser::Read).is_err());
    assert!(rbac_service.has_permission(&user("m", &["OrderManager"]), OrdersOrder::Read).is_err());
}

#[test]
fn an_updater_can_be_applied_again_and_to_other_services() {
    let first = setup_rbac();
    let second = RbacService::builder().build();
    let reader = user("reader", &["Reader"]);
    let mut updater = first.updater_clean();
    updater.add_role(Role::new("Reader", patterns(&["Orders::Order::Read"])));
    updater.update(&first);
    updater.update(&second);
    assert_eq!(first.has_permission(&reader, OrdersOrder::Read), Ok(()));
    assert_eq!(second.has_permission(&reader, OrdersOrder::Read), Ok(()));
    updater.remove_role("Reader");
    assert_eq!(first.has_permission(&reader, OrdersOrder::Read), Ok(()));
    updater.update(&first);
    assert!(first.has_permission(&reader, OrdersOrder::Read).is_err());
    assert_eq!(second.has_permission(&reader, OrdersOrder::Read), Ok(()));
}

#[test]
fn an_update_leaves_fallback_roles_and_registry_alone() {
    let mut builder = RbacService::builder();
    register_templates(&mut builder);
    builder.add_role(Role::new("Guest", patterns(&["Orders::Order::Read"])));
    builder.add_role(Role::new("Other", patterns(&["Orders::Order::Cancel"])));
    builder.set_fallback_roles(patterns(&["Guest"]));
    let rbac_service = builder.build();
    let nobody = user("nobody", &[]);

    let mut updater = rbac_service.updater_copy();
    updater.set_fallback_roles(patterns(&["Other"]));
    updater.update(&rbac_service);

    assert_eq!(rbac_service.has_permission(&nobody, OrdersOrder::Read), Ok(()));
    assert!(rbac_service.has_permission(&nobody, OrdersOrder::Cancel).is_err());
    assert_eq!(rbac_service.get_all_permissions().len(), 4);
    assert!(rbac_service.get("Templates::Template::Read").is_some());
}

#[test]
fn registry_lists_every_registered_permission_in_order() {
    let rbac_service = setup_rbac();
    let listed: Vec<String> =
        rbac_service.get_all_permissions().iter().map(|p| p.full_name.clone()).collect();
    let mut expected: Vec<String> = Vec::new();
    expected.extend(all_texts::<UsersUser>());
    expected.extend(all_texts::<UsersMethod>());
    expected.extend(all_texts::<UsersNotify>());
    expected.extend(all_texts::<TemplatesTemplate>());
    expected.extend(all_texts::<OrdersOrder>());
    expected.extend(all_texts::<OrdersOrderItem>());
    expected.extend(all_texts::<OrdersInvoice>());
    expected.sort();
    assert_eq!(listed.len(), 25);
    assert_eq!(listed, expected);
    assert_eq!(listed[0], "Orders::Invoice::Generate");
    assert_eq!(listed[24], "Users::User::Write");
}

#[test]
fn registry_records_hold_every_part() {
    let rbac_service = setup_rbac();
    let info = rbac_service.get("Orders::OrderItem::Remove").unwrap();
    assert_eq!(info.domain, "Orders");
    assert_eq!(info.object_type, "OrderItem");
    assert_eq!(info.action, "Remove");
    assert_eq!(info.full_name, "Orders::OrderItem::Remove");
    assert_eq!(info.description, "Remove items from order");
    assert!(rbac_service.get("Orders::OrderItem::Drop").is_none());
    assert!(rbac_service.get("Orders::OrderItem").is_none());
}

#[test]
fn registering_twice_changes_nothing() {
    let mut builder = RbacService::builder();
    register_orders(&mut builder);
    register_orders(&mut builder);
    builder.register_list(&vec![OrdersOrder::Read, OrdersOrder::Read]);
    let rbac_service = builder.build();
    assert_eq!(rbac_service.get_all_permissions().len(), 10);
}

#[test]
fn a_service_without_registrations_lists_nothing() {
    let rbac_service = RbacService::builder().build();
    assert!(rbac_service.get_all_permissions().is_empty());
    assert!(rbac_service.get("Users::User::Read").is_none());
}

fn shareable<T: Send + Sync>() {}

#[test]
fn a_service_can_be_shared_between_threads() {
    shareable::<RbacService>();
    shareable::<Role>();
}

#[test]
fn a_new_service_gets_its_roles_from_an_updater() {
    let rbac_service = RbacService::new(None);
    let nobody = user("nobody", &[]);
    let reader = user("reader", &["Reader"]);
    assert!(rbac_service.has_permission(&nobody, OrdersOrder::Read).is_err());
    assert!(rbac_service.has_permission(&reader, OrdersOrder::Read).is_err());
    assert!(rbac_service.get_all_permissions().is_empty());

    let mut updater = rbac_service.updater_clean();
    updater.add_role(Role::new("Default", patterns(&["Orders::Order::Read"])));
    updater.add_role(Role::new("Reader", patterns(&["Orders::Order::*"])));
    updater.update(&rbac_service);
    assert_eq!(rbac_service.has_permission(&nobody, OrdersOrder::Read), Ok(()));
    assert!(rbac_service.has_permission(&nobody, OrdersOrder::Cancel).is_err());
    assert_eq!(rbac_service.has_permission(&reader, OrdersOrder::Cancel), Ok(()));

    let guarded = RbacService::new(Some(patterns(&["Reader"])));
    updater.update(&guarded);
    assert_eq!(guarded.has_permission(&nobody, OrdersOrder::Cancel), Ok(()));
    let closed = RbacService::new(Some(Vec::new()));
    updater.update(&closed);
    assert!(closed.has_permission(&nobody, OrdersOrder::Read).is_err());
}

#[test]
fn an_updater_copied_from_a_role_map_holds_its_roles() {
    let mut roles = RoleMap::new();
    roles.insert(Role::new("Reader", patterns(&["Orders::Order::Read"])));
    roles.insert(Role::new("Admin", patterns(&["*"])));
    let mut updater = RbacServiceUpdater::copy_of(&roles);
    roles.remove("Admin");
    roles.insert(Role::new("Reader", patterns(&["Orders::Order::Cancel"])));

    let rbac_service = RbacService::new(None);
    updater.update(&rbac_service);
    let reader = user("reader", &["Reader"]);
    let admin = user("admin", &["Admin"]);
    assert_eq!(rbac_service.has_permission(&reader, OrdersOrder::Read), Ok(()));
    assert!(rbac_service.has_permission(&reader, OrdersOrder::Cancel).is_err());
    assert_eq!(rbac_service.has_permission(&admin, UsersUser::Delete), Ok(()));

    updater.set_fallback_roles(patterns(&["Admin"]));
    updater.remove_role("Admin");
    updater.update(&rbac_service);
    assert!(rbac_service.has_permission(&admin, UsersUser::Delete).is_err());
    assert_eq!(rbac_service.has_permission(&reader, OrdersOrder::Read), Ok(()));
}

#[test]
fn updater_copy_is_a_copy_and_not_the_live_map() {
    let rbac_service = setup_rbac();
    let admin = user("admin", &["Admin"]);
    let mut updater = rbac_service.updater_copy();
    updater.remove_role("Admin");
    assert_eq!(rbac_service.has_permission(&admin, UsersUser::Delete), Ok(()));

    let other = RbacService::new(None);
    rbac_service.updater_copy().update(&other);
    assert_eq!(other.has_permission(&admin, UsersUser::Delete), Ok(()));
    assert_eq!(other.has_permission(&user("m", &["OrderManager"]), OrdersOrder::Update), Ok(()));
    assert!(other.has_permission(&user("m", &["OrderManager"]), OrdersInvoice::Send).is_err());
    assert!(RbacService::new(None).updater_copy().update(&other) == ());
    assert!(other.has_permission(&admin, UsersUser::Delete).is_err());
}
