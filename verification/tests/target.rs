use tush::app::{Target, TargetError};

#[test]
fn a_bare_name_is_a_proc_and_a_prefixed_one_is_a_group() {
    assert_eq!(
        "server".parse::<Target>().unwrap(),
        Target::Unit("server".into())
    );
    assert_eq!(
        "group:web".parse::<Target>().unwrap(),
        Target::Group("web".into())
    );
}

/// A proc cannot have a colon in its name, so a colon is always a prefix
/// — and a prefix nobody knows is a typo worth naming.
#[test]
fn an_unknown_prefix_is_refused_rather_than_read_as_a_name() {
    let error = "grupo:web".parse::<Target>().unwrap_err().message();
    assert!(error.contains("grupo:"), "{error}");
    assert!(error.contains("group:web"), "{error}");
}

#[test]
fn a_target_has_to_name_something() {
    assert!("".parse::<Target>().is_err());
    assert!("group:".parse::<Target>().is_err());
}

#[test]
fn each_unreadable_target_says_what_is_wrong() {
    assert_eq!(Target::parse(""), Err(TargetError::Empty));
    assert_eq!(
        TargetError::Empty.message(),
        "an empty target names nothing"
    );
    assert_eq!(Target::parse("group:"), Err(TargetError::EmptyGroup));
    assert_eq!(
        TargetError::EmptyGroup.message(),
        "`group:` with no group after it names nothing"
    );
    assert_eq!(
        Target::parse("grupo:web").unwrap_err().message(),
        "`grupo:` is not a kind of target; did you mean `group:web`?"
    );
    assert_eq!(
        Target::parse(":web"),
        Err(TargetError::UnknownKind {
            kind: String::new(),
            name: "web".to_string()
        })
    );
}

/// Everything after the first colon is the name.
#[test]
fn a_group_may_hold_a_colon() {
    assert_eq!(
        Target::parse("group:a:b"),
        Ok(Target::Group("a:b".to_string()))
    );
}
