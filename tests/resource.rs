use abac::config::Config;
use abac::permission::Operation;
use abac::resource::{Attributes, Error, Hierarchy, Path};
use abac::rule::{self, Context, Rule};

fn attrs(rule: &str, description: &str) -> Attributes {
    Attributes {
        access_rule: Some(Rule::from_policy(rule).unwrap()),
        description: Some(description.to_string()),
    }
}

fn config(entries: &[(&str, &str)]) -> Config {
    Config {
        resources: entries
            .iter()
            .map(|(p, r)| (p.to_string(), attrs(r, "Root")))
            .collect(),
    }
}

fn sample() -> Hierarchy {
    Hierarchy::try_from(config(&[
        ("/", "(list)"),
        ("/test1", "(list create)"),
        ("/test1/", "(list read)"),
        ("/test2/test3", "(list read)"),
        ("/all", "(list all)"),
        ("/private/:user_id", "(list all)"),
    ]))
    .unwrap()
}

fn allowed(rh: &Hierarchy, op: Operation, path: &str, ctx: &str) -> Result<bool, rule::Error> {
    rh.is_allowed(op, &mut Path::from_str(path).unwrap(), &Context::from_str(ctx).unwrap())
}

fn node(name: &str, attributes: Attributes, children: Vec<Hierarchy>) -> Hierarchy {
    Hierarchy {
        name: name.to_string(),
        attributes,
        children,
        special_child_name: None,
    }
}

#[test]
fn test_resource_path_from_str_ok() {
    let left: Result<Path, Error> = Path::from_str("/");
    let right: Result<Path, Error> = Ok(Path(vec![String::new()]));
    assert_eq!(left, right);

    let left: Result<Path, Error> = Path::from_str("/test1/test2");
    let right: Result<Path, Error> = Ok(Path(vec!["test2".to_string(), "test1".to_string()]));
    assert_eq!(left, right);

    let left: Result<Path, Error> = Path::from_str("/test1/test2/");
    let right: Result<Path, Error> = Ok(Path(vec![
        String::new(),
        "test2".to_string(),
        "test1".to_string(),
    ]));
    assert_eq!(left, right);
}

#[test]
fn test_resource_hierarchy_insert_err() {
    let mut rh = Hierarchy::try_from(config(&[("/:a", "()")])).unwrap();
    assert_eq!(
        rh.insert(
            "/:b",
            &mut Path::from_str("/:b").unwrap(),
            Attributes::default()
        ),
        Err(Error::AmbiguousResource("/:b".to_string(), "a".to_string()))
    );
}

#[test]
fn test_resource_hierarchy_from_config_ok() {
    let left = Hierarchy::try_from(config(&[("/", "()")]));
    let right: Result<Hierarchy, Error> = Ok(node(
        "",
        Attributes::default(),
        vec![node("", attrs("()", "Root"), vec![])],
    ));
    assert_eq!(left, right);

    let left = Hierarchy::try_from(config(&[
        ("/test", "(\n                list create\n            )"),
        ("/test/", "(list read)"),
    ]));
    let right: Result<Hierarchy, Error> = Ok(node(
        "",
        Attributes::default(),
        vec![node(
            "test",
            attrs("(list create)", "Root"),
            vec![node("", attrs("(list read)", "Root"), vec![])],
        )],
    ));
    assert_eq!(left, right);
}

#[test]
fn test_is_allowed_ok() {
    let rh = sample();
    assert!(!allowed(&rh, Operation::Create, "/", "").unwrap());
    assert!(allowed(&rh, Operation::Create, "/test1", "").unwrap());
    assert!(!allowed(&rh, Operation::Read, "/test1", "").unwrap());
    assert!(allowed(&rh, Operation::Create, "/test1/", "").unwrap());
    assert!(allowed(&rh, Operation::Read, "/test1/", "").unwrap());
    assert!(allowed(&rh, Operation::Create, "/test1/test", "").unwrap());
    assert!(allowed(&rh, Operation::Read, "/test1/test", "").unwrap());
    assert!(!allowed(&rh, Operation::Create, "/test2", "").unwrap());
    assert!(!allowed(&rh, Operation::Read, "/test2", "").unwrap());
    assert!(!allowed(&rh, Operation::Create, "/test2/", "").unwrap());
    assert!(!allowed(&rh, Operation::Read, "/test2/", "").unwrap());
    assert!(!allowed(&rh, Operation::Create, "/test2/test", "").unwrap());
    assert!(!allowed(&rh, Operation::Read, "/test2/test", "").unwrap());
    assert!(!allowed(&rh, Operation::Create, "/test2/test3", "").unwrap());
    assert!(allowed(&rh, Operation::Read, "/test2/test3", "").unwrap());
    assert!(allowed(&rh, Operation::Read, "/test2/test3/", "").unwrap());
    assert!(allowed(&rh, Operation::Read, "/test2/test3/test", "").unwrap());
    assert!(allowed(&rh, Operation::Delete, "/all", "").unwrap());
    assert!(allowed(&rh, Operation::Delete, "/all/", "").unwrap());
    assert!(allowed(&rh, Operation::Delete, "/all/1", "").unwrap());
    assert!(allowed(&rh, Operation::Delete, "/private/1", "user_id:1").unwrap());
    assert!(!allowed(&rh, Operation::Delete, "/private/2", "user_id:1").unwrap());
}

#[test]
fn test_is_allowed_err() {
    let rh = sample();
    assert_eq!(
        allowed(&rh, Operation::Delete, "/private/", "user_id:1"),
        Err(rule::Error::CannotCompare(
            Rule::Integer(1),
            Rule::String("".to_string())
        ))
    );
    assert_eq!(
        allowed(&rh, Operation::Delete, "/private/", ""),
        Err(rule::Error::KeyNotInContext("user_id".to_string()))
    );
}

#[test]
fn main_test() {
    Hierarchy::try_from(config(&[
        ("/", "(if true (list all) (list))"),
        ("/test", "(list create)"),
        ("/test/", "(list read)"),
    ]))
    .unwrap();
}

#[test]
fn private_other_user_and_missing_attribute() {
    let rh = sample();
    assert_eq!(
        allowed(&rh, Operation::Delete, "/private/2", ""),
        Err(rule::Error::KeyNotInContext("user_id".to_string()))
    );
}

#[test]
fn inheritance_from_trailing_slash() {
    let rh = Hierarchy::try_from(config(&[("/x/", "(list read)")])).unwrap();
    assert!(allowed(&rh, Operation::Read, "/x/anything", "").unwrap());
    assert!(!allowed(&rh, Operation::Create, "/x/anything", "").unwrap());
    assert!(allowed(&rh, Operation::Read, "/x/a/b/c", "").unwrap());
    assert!(!allowed(&rh, Operation::Read, "/x", "").unwrap());
}

#[test]
fn own_rule_wins_over_children() {
    let rh = Hierarchy::try_from(config(&[("/a", "(list update)"), ("/a/b", "(list)")])).unwrap();
    assert!(allowed(&rh, Operation::Update, "/a/b/c", "").unwrap());
    assert!(!allowed(&rh, Operation::Read, "/a/b/c", "").unwrap());
}

#[test]
fn path_normalization() {
    assert_eq!(Path::from_str("//a///b/"), Path::from_str("/a/b/"));
    assert_eq!(Path::from_str("/aa/bb"), Ok(Path(vec!["bb".to_string(), "aa".to_string()])));
    assert_eq!(Path::from_str("a/b"), Err(Error::FormatError("a/b".to_string())));
    assert_eq!(Path::from_str(""), Err(Error::FormatError(String::new())));
    let mut p = Path::from_str("/x/y").unwrap();
    let rh = sample();
    let _ = rh.is_allowed(Operation::Read, &mut p, &Context::from_str("").unwrap());
    assert_eq!(p, Path::from_str("/x/y").unwrap());
}

#[test]
fn insert_errors() {
    let mut dup = Hierarchy::try_from(config(&[("/a", "(list)")])).unwrap();
    assert_eq!(
        dup.insert("/a", &mut Path::from_str("/a").unwrap(), attrs("(list read)", "A")),
        Err(Error::DuplicateResource("/a".to_string()))
    );
    assert_eq!(
        Hierarchy::try_from(config(&[("/a", "(list)"), ("//a", "(list read)")])),
        Err(Error::DuplicateResource("//a".to_string()))
    );
    assert_eq!(
        Hierarchy::try_from(config(&[("/a", "(list)"), ("a", "(list read)")])),
        Err(Error::FormatError("a".to_string()))
    );
    let mut rh = Hierarchy::try_from(config(&[("/p/:a", "(list)")])).unwrap();
    let before = Hierarchy::try_from(config(&[("/p/:a", "(list)")])).unwrap();
    assert_eq!(
        rh.insert("/p/:b/c", &mut Path::from_str("/p/:b/c").unwrap(), Attributes::default()),
        Err(Error::AmbiguousResource("/p/:b/c".to_string(), "a".to_string()))
    );
    assert_eq!(rh, before);
    // a resource without a rule may be given one later
    assert_eq!(
        rh.insert("/p", &mut Path::from_str("/p").unwrap(), attrs("(list read)", "P")),
        Ok(())
    );
    assert!(allowed(&rh, Operation::Read, "/p", "").unwrap());
}

#[test]
fn entry_order_makes_no_difference() {
    let ab = Hierarchy::try_from(config(&[("/a", "(list read)"), ("/b", "(list create)")])).unwrap();
    let ba = Hierarchy::try_from(config(&[("/b", "(list create)"), ("/a", "(list read)")])).unwrap();
    assert_eq!(ab, ba);
    let entries = [
        ("/", "(list)"),
        ("/test1", "(list create)"),
        ("/test1/", "(list read)"),
        ("/test2/test3", "(list read)"),
        ("/all", "(list all)"),
        ("/private/:user_id", "(list all)"),
    ];
    let mut reversed = entries;
    reversed.reverse();
    assert_eq!(Hierarchy::try_from(config(&entries)), Hierarchy::try_from(config(&reversed)));
    let other = Hierarchy::try_from(config(&[("/a", "(list read)")])).unwrap();
    assert_ne!(ab, other);
}

#[test]
fn root_is_interior() {
    let rh = sample();
    assert_eq!(rh.name, "");
    assert!(rh.attributes.access_rule.is_none());
}

#[test]
fn config_paths_unique() {
    assert!(config(&[("/a", "(list)"), ("/b", "(list)")]).has_unique_paths());
    assert!(!config(&[("/a", "(list)"), ("/a", "(list)")]).has_unique_paths());
    assert!(config(&[]).has_unique_paths());
}

#[test]
fn inheritance_among_other_entries() {
    let rh = Hierarchy::try_from(config(&[
        ("/", "(list)"),
        ("/x/z", "(list)"),
        ("/x/", "(list read)"),
        ("/y", "(list create)"),
    ]))
    .unwrap();
    assert!(allowed(&rh, Operation::Read, "/x/anything", "").unwrap());
    assert!(allowed(&rh, Operation::Read, "/x/z", "").unwrap());
    assert!(!allowed(&rh, Operation::Create, "/x/anything", "").unwrap());
}
