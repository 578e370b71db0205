use abac::permission::{Operation, Permission};
use abac::rule::{Context, Rule};

fn perm(text: &str) -> Permission {
    Permission::from(
        Rule::from_str(text)
            .unwrap()
            .eval(&Context::from_str("").unwrap())
            .unwrap(),
    )
}

fn bit(o: Operation) -> Permission {
    <Operation as Into<Permission>>::into(o)
}

#[test]
fn test_permission_from_rule_ok() {
    assert_eq!(perm("()"), 0);
    assert_eq!(perm("(list create)"), bit(Operation::Create));
    assert_eq!(perm("(list read)"), bit(Operation::Read));
    assert_eq!(perm("(list update)"), bit(Operation::Update));
    assert_eq!(perm("(list delete)"), bit(Operation::Delete));
    assert_eq!(perm("(list list)"), bit(Operation::List));
    assert_eq!(
        perm("(list delete update)"),
        bit(Operation::Delete) | bit(Operation::Update)
    );
    assert_eq!(
        perm("(list create read update delete)"),
        bit(Operation::Create) | bit(Operation::Read) | bit(Operation::Update) | bit(Operation::Delete)
    );
    assert_eq!(
        perm("(list all)"),
        bit(Operation::Create)
            | bit(Operation::Read)
            | bit(Operation::Update)
            | bit(Operation::Delete)
            | bit(Operation::List)
    );
}

#[test]
fn test_operation_into_permission() {
    let create: Permission = Operation::Create.into();
    let read: Permission = Operation::Read.into();
    let update: Permission = Operation::Update.into();
    let delete: Permission = Operation::Delete.into();
    let list: Permission = Operation::List.into();

    assert_eq!(create, 0b00001);
    assert_eq!(read, 0b00010);
    assert_eq!(update, 0b00100);
    assert_eq!(delete, 0b01000);
    assert_eq!(list, 0b10000);
}

#[test]
fn test_operation_allowed() {
    let permission: Permission = 0b11111;

    assert!(Operation::Create.allowed_for(permission));
    assert!(Operation::Read.allowed_for(permission));
    assert!(Operation::Update.allowed_for(permission));
    assert!(Operation::Delete.allowed_for(permission));
    assert!(Operation::List.allowed_for(permission));
}

#[test]
fn permission_deny_by_default() {
    assert_eq!(perm("(list read bogus)"), 0);
    assert_eq!(perm("(list read 1)"), 0);
    assert_eq!(perm("(list read (list))"), 0);
    assert_eq!(perm("true"), 0);
    assert_eq!(perm("read"), 0);
    // `all` wins wherever it stands among strings
    assert_eq!(perm("(list bogus all)"), 0b11111);
    assert_eq!(perm("(list 1 all)"), 0);
    assert!(!Operation::Read.allowed_for(0b11101));
    assert!(Operation::Update.allowed_for(0b00100));
}

#[test]
fn permission_grows_with_names() {
    let lists = ["(list)", "(list read)", "(list read update)", "(list read update all)"];
    for pair in lists.windows(2) {
        let small = perm(pair[0]);
        let big = perm(pair[1]);
        assert_eq!(small & big, small);
    }
    assert_eq!(perm("(list read read)"), bit(Operation::Read));
}

#[test]
fn operation_names() {
    assert_eq!(Operation::Create.name(), "create");
    assert_eq!(Operation::Read.name(), "read");
    assert_eq!(Operation::Update.name(), "update");
    assert_eq!(Operation::Delete.name(), "delete");
    assert_eq!(Operation::List.name(), "list");
}

#[test]
fn operation_from_name() {
    assert_eq!(Operation::from_name("create"), Some(Operation::Create));
    assert_eq!(Operation::from_name("read"), Some(Operation::Read));
    assert_eq!(Operation::from_name("update"), Some(Operation::Update));
    assert_eq!(Operation::from_name("delete"), Some(Operation::Delete));
    assert_eq!(Operation::from_name("list"), Some(Operation::List));
    assert_eq!(Operation::from_name("all"), None);
    assert_eq!(Operation::from_name("Read"), None);
}
