use nsedit::java_model::{Class, Declaration, NamespaceError, Package};

#[test]
fn new_pkg() {
    let (p, deepest) = Package::new("com.tom.example");
    assert!(deepest.is_some());
    assert_eq!(p.pkg_at_path(&deepest.unwrap()).unwrap().name, "example");
    assert_eq!(p.name, "com");
    assert_eq!(p.package_list[0].name, "tom");
    let (p, deepest) = Package::new("newpackage");
    assert!(deepest.is_none());
    assert_eq!(p.name, "newpackage");
}

#[test]
fn find_pkg_and_find_package_mut() {
    let mut p = Package::new("com.tom").0;
    {
        let (deepest, remaining) = p.find_pkg("com.tom.example");
        assert_eq!(deepest, Some(&p.package_list[0]));
        assert_eq!(remaining, Some("example".to_string()));
    }
    {
        let (deepest, remaining) = p.find_pkg("com.tom");
        assert_eq!(deepest, Some(&p.package_list[0]));
        assert_eq!(remaining, None);
    }
    {
        let (deepest, remaining) = p.find_pkg("com");
        assert_eq!(deepest, Some(&p));
        assert_eq!(remaining, None);
    }
    {
        let (deepest, remaining) = p.find_pkg("asd");
        assert_eq!(deepest, None);
        assert_eq!(remaining, Some("asd".to_string()));
    }

    {
        let (deepest, remaining) = p.find_pkg("com.tom.example");
        assert_eq!(deepest.unwrap().name, "tom");
        assert_eq!(remaining, Some("example".to_string()));
    }
    {
        let (deepest, remaining) = p.find_pkg("com.tom");
        assert_eq!(deepest.unwrap().name, "tom");
        assert_eq!(remaining, None);
    }
    {
        let (deepest, remaining) = p.find_pkg("com");
        assert_eq!(deepest.unwrap().name, "com");
        assert_eq!(remaining, None);
    }
    {
        let (deepest, remaining) = p.find_pkg("asd");
        assert_eq!(deepest, None);
        assert_eq!(remaining, Some("asd".to_string()));
    }
    // the tree is still intact after the lookups
    assert_eq!(p.package_list.len(), 1);
}

#[test]
fn add_subpackage() {
    let mut p = Package::new("com.tom").0;
    p.add_subpackage("com.tom.example");
    assert_eq!(p.package_list[0].package_list.len(), 1);
    assert_eq!(p.package_list[0].package_list[0].name, "example");
    p.add_subpackage("com.tom.foo");
    assert_eq!(p.package_list[0].package_list.len(), 2);
    assert_eq!(p.package_list[0].package_list[1].name, "foo");
    p.add_subpackage("com.john.foo");
    assert_eq!(p.package_list.len(), 2);
    assert_eq!(p.package_list[1].package_list.len(), 1);
    assert_eq!(p.package_list[1].package_list[0].name, "foo");
    assert_eq!(p.add_subpackage("asd"), None);
}

#[test]
fn gen_package_completion_list() {
    let p = Package::new("com.tom.example").0;
    let completion_list = p.gen_package_completion_list();
    assert_eq!(completion_list, vec!["com", "com.tom", "com.tom.example"]);
}

#[test]
fn gen_decl_completion_list() {
    let (mut p, deepest) = Package::new("com.tom.example");
    let deepest = deepest.unwrap();
    assert_eq!(deepest, vec![0, 0]);
    p.package_list[0].package_list[0]
        .decl_list
        .push(Declaration::Class(Class::new_with_name("MyClass")));
    let completion_list = p.gen_decl_completion_list();
    assert_eq!(completion_list, vec!["com.tom.example.MyClass"]);
}

#[test]
fn add_decl() {
    let mut p = Package::new("com.tom.example").0;
    let _ = p.add_decl("com.joe.test", Declaration::Class(Class::new_with_name("test")));
    assert_eq!(p.package_list.len(), 2);
    assert_eq!(p.package_list[1].package_list[0].name, "test");
}

#[test]
fn namespace_sharing_keeps_one_node_per_prefix() {
    let mut p = Package::new("com.tom.example").0;
    p.add_subpackage("com.tom.foo");
    // exactly one com node and one com.tom node
    assert_eq!(p.name, "com");
    assert_eq!(p.package_list.len(), 1);
    assert_eq!(p.package_list[0].name, "tom");
    assert_eq!(p.package_list[0].package_list.len(), 2);
    assert_eq!(p.package_list[0].package_list[0].name, "example");
    assert_eq!(p.package_list[0].package_list[1].name, "foo");
}

#[test]
fn completion_list_is_the_expected_set() {
    let p = Package::new("com.tom.example").0;
    let mut names = p.gen_package_completion_list();
    names.sort();
    let mut expected = vec![
        "com".to_string(),
        "com.tom".to_string(),
        "com.tom.example".to_string(),
    ];
    expected.sort();
    assert_eq!(names, expected);
}

#[test]
fn duplicate_declaration_is_refused() {
    let mut p = Package::new("com.tom").0;
    let r1 = p.add_decl("com.tom", Declaration::Class(Class::new_with_name("A")));
    assert_eq!(r1, Ok(true));
    let r2 = p.add_decl("com.tom", Declaration::Class(Class::new_with_name("A")));
    assert_eq!(r2, Err(NamespaceError::DuplicateDeclaration));
    // the first declaration is still the only one
    assert_eq!(p.package_list[0].decl_list.len(), 1);
}
