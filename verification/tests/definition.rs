use yake::error::YakeError;
use yake::name_map::NameMap;
use yake::resolve::{resolve_all, resolve_target};
use yake::target::clone_targets;
use yake::yake::{get_all_targets, Yake, YakeMeta, YakeTarget, YakeTargetMeta, YakeTargetType};

fn texts(items: &[&str]) -> Vec<String> {
    items.iter().map(|s| s.to_string()).collect()
}

fn cmd(doc: &str, depends: Option<Vec<String>>, commands: Option<Vec<String>>) -> YakeTarget {
    YakeTarget {
        targets: None,
        meta: YakeTargetMeta {
            doc: doc.to_string(),
            target_type: YakeTargetType::Cmd,
            depends,
        },
        env: None,
        commands,
    }
}

fn group(doc: &str, children: Vec<(&str, YakeTarget)>) -> YakeTarget {
    let mut targets = NameMap::new();
    for (name, child) in children {
        targets.insert(name.to_string(), child);
    }
    YakeTarget {
        targets: Some(targets),
        meta: YakeTargetMeta {
            doc: doc.to_string(),
            target_type: YakeTargetType::Group,
            depends: None,
        },
        env: None,
        commands: None,
    }
}

fn definition(top: Vec<(&str, YakeTarget)>) -> Yake {
    let mut targets = NameMap::new();
    for (name, target) in top {
        targets.insert(name.to_string(), target);
    }
    Yake::new(
        YakeMeta {
            doc: "Bla".to_string(),
            version: "1.0.0".to_string(),
        },
        None,
        targets,
    )
}

fn keys(map: &NameMap<YakeTarget>) -> Vec<String> {
    (0..map.len()).map(|i| map.name_at(i).clone()).collect()
}

#[test]
fn test_ref() {
    let mut targets: NameMap<YakeTarget> = NameMap::new();
    targets.insert(
        "base".to_string(),
        YakeTarget {
            targets: None,
            meta: YakeTargetMeta {
                doc: "Huhu".to_string(),
                target_type: YakeTargetType::Cmd,
                depends: None,
            },
            env: None,
            commands: None,
        },
    );
    targets.insert(
        "test".to_string(),
        YakeTarget {
            targets: None,
            meta: YakeTargetMeta {
                doc: "Huhu".to_string(),
                target_type: YakeTargetType::Cmd,
                depends: Some(vec!["base".to_string()]),
            },
            env: None,
            commands: None,
        },
    );

    let mut dependencies = NameMap::new();
    dependencies.insert(
        "test".to_string(),
        vec![targets.get("base").unwrap().clone()],
    );
    assert_eq!(dependencies.len(), 1);

    let yake = Yake::new(
        YakeMeta {
            doc: "Bla".to_string(),
            version: "1.0.0".to_string(),
        },
        None,
        targets,
    );

    let found = get_all_targets(&yake);
    assert_eq!(found.len(), 1);
    assert_eq!(found[0].meta.doc, "Huhu");
    assert_eq!(found[0].meta.depends, Some(vec!["base".to_string()]));
}

#[test]
fn new_definition_is_not_fabricated() {
    let yake = definition(vec![("a", cmd("", None, None))]);
    assert!(!yake.is_fabricated());
    assert_eq!(yake.meta().doc, "Bla");
    assert_eq!(yake.meta().version, "1.0.0");
    assert_eq!(yake.env(), &None);
    assert_eq!(yake.targets().len(), 1);
    assert!(yake.get_target_names().is_empty());
    assert_eq!(yake.has_target_name("a"), Err(vec![]));
}

#[test]
fn flat_definition_has_the_top_level_names() {
    let yake = definition(vec![
        ("build", cmd("", None, None)),
        ("clean", cmd("", None, None)),
        ("test", cmd("", None, None)),
    ]);
    let registry = yake.get_all_targets();
    assert_eq!(keys(&registry), texts(&["build", "clean", "test"]));
}

#[test]
fn nested_leaf_has_exactly_its_dotted_name() {
    let leaf = cmd("leaf", None, Some(texts(&["echo leaf"])));
    let yake = definition(vec![(
        "g1",
        group("", vec![("g2", group("", vec![("leaf", leaf.clone())]))]),
    )]);
    let registry = yake.get_all_targets();
    assert_eq!(keys(&registry), texts(&["g1", "g1.g2.leaf"]));
    assert_eq!(registry.get("g1.g2.leaf"), Some(&leaf));
    assert!(!registry.contains_key("leaf"));
    assert!(!registry.contains_key("g2.leaf"));
    assert!(!registry.contains_key("g1.leaf"));
    assert!(!registry.contains_key("g1.g2"));
    assert!(!registry.contains_key("g2"));
}

#[test]
fn top_level_group_is_registered_but_not_listed() {
    let yake = definition(vec![(
        "db",
        group("database", vec![("migrate", cmd("", None, None))]),
    )])
    .fabricate()
    .unwrap();
    let names = yake.get_target_names();
    assert!(names.contains(&"db.migrate".to_string()));
    assert!(!names.contains(&"db".to_string()));
    assert_eq!(names, texts(&["db.migrate"]));
    let registry = yake.get_all_targets();
    assert!(registry.contains_key("db"));
    assert_eq!(
        registry.get("db").unwrap().meta.target_type,
        YakeTargetType::Group
    );
}

#[test]
fn registry_keeps_traversal_order() {
    let yake = definition(vec![
        ("a", cmd("", None, None)),
        (
            "g",
            group(
                "",
                vec![
                    ("x", cmd("", None, None)),
                    ("h", group("", vec![("y", cmd("", None, None))])),
                    ("z", cmd("", None, None)),
                ],
            ),
        ),
        ("b", cmd("", None, None)),
    ]);
    let registry = yake.get_all_targets();
    assert_eq!(keys(&registry), texts(&["a", "g", "g.x", "g.h.y", "g.z", "b"]));
}

#[test]
fn sub_targets_with_and_without_prefix() {
    let tree = group(
        "",
        vec![
            ("x", cmd("x", None, None)),
            ("h", group("", vec![("y", cmd("y", None, None))])),
        ],
    );
    let qualified = tree.get_sub_targets(Some("g".to_string()));
    assert_eq!(keys(&qualified), texts(&["g.x", "g.h.y"]));
    let bare = tree.get_sub_targets(None);
    assert_eq!(keys(&bare), texts(&["x", "h.y"]));
    assert_eq!(bare.get("h.y").unwrap().meta.doc, "y");
    assert!(!bare.contains_key("y"));
}

#[test]
fn sub_targets_of_a_leaf_or_an_empty_group_are_none() {
    let leaf = cmd("", None, None);
    assert!(leaf.get_sub_targets(Some("p".to_string())).is_empty());
    let empty = group("", vec![]);
    assert!(empty.get_sub_targets(Some("p".to_string())).is_empty());
    let childless = YakeTarget {
        targets: None,
        ..group("", vec![])
    };
    assert!(childless.get_sub_targets(None).is_empty());
}

#[test]
fn add_sub_targets_extends_a_registry() {
    let tree = group("", vec![("x", cmd("new", None, None))]);
    let mut registry = NameMap::new();
    registry.insert("g.x".to_string(), cmd("old", None, None));
    registry.insert("other".to_string(), cmd("other", None, None));
    let mut repeated = texts(&["before"]);
    tree.add_sub_targets(&Some("g".to_string()), &mut registry, &mut repeated);
    assert_eq!(keys(&registry), texts(&["g.x", "other"]));
    assert_eq!(registry.get("g.x").unwrap().meta.doc, "new");
    assert_eq!(repeated, texts(&["before", "g.x"]));
}

#[test]
fn colliding_names_keep_the_later_target() {
    let yake = definition(vec![
        ("g", group("", vec![("x", cmd("nested", None, None))])),
        ("g.x", cmd("top", None, None)),
    ]);
    let registry = yake.get_all_targets();
    assert_eq!(keys(&registry), texts(&["g", "g.x"]));
    assert_eq!(registry.get("g.x").unwrap().meta.doc, "top");
}

#[test]
fn nested_group_is_not_registered() {
    let yake = definition(vec![(
        "g",
        group("", vec![("h", group("", vec![]))]),
    )]);
    let registry = yake.get_all_targets();
    assert_eq!(keys(&registry), texts(&["g"]));
}

#[test]
fn command_target_with_children_at_top_level_is_descended() {
    let mut odd = cmd("odd", None, None);
    let mut children = NameMap::new();
    children.insert("x".to_string(), cmd("", None, None));
    odd.targets = Some(children);
    let yake = definition(vec![("odd", odd)]);
    assert_eq!(keys(&yake.get_all_targets()), texts(&["odd", "odd.x"]));
}

#[test]
fn get_target_by_name_reads_the_tree() {
    let leaf = cmd("m", None, Some(texts(&["migrate"])));
    let yake = definition(vec![("db", group("", vec![("migrate", leaf.clone())]))]);
    assert_eq!(yake.get_target_by_name("db.migrate"), Some(leaf));
    assert_eq!(yake.get_target_by_name("migrate"), None);
    assert_eq!(
        yake.get_target_by_name("db").unwrap().meta.target_type,
        YakeTargetType::Group
    );
}

#[test]
fn has_target_name_agrees_with_the_names() {
    let yake = definition(vec![
        ("build", cmd("", None, None)),
        ("db", group("", vec![("migrate", cmd("", None, None))])),
    ])
    .fabricate()
    .unwrap();
    let names = yake.get_target_names();
    assert_eq!(names, texts(&["build", "db.migrate"]));
    for name in names.iter() {
        assert_eq!(yake.has_target_name(name), Ok(()));
    }
    assert_eq!(yake.has_target_name("db"), Err(names.clone()));
    assert_eq!(yake.has_target_name("migrate"), Err(names.clone()));
    assert_eq!(yake.has_target_name(""), Err(names));
}

#[test]
fn dependencies_are_resolved_in_declared_order() {
    let yake = definition(vec![
        ("a", cmd("a", None, None)),
        ("b", cmd("b", None, None)),
        ("c", cmd("c", Some(texts(&["b", "a"])), None)),
    ]);
    let dependencies = yake.get_all_dependencies().unwrap();
    assert_eq!(dependencies.len(), 3);
    assert_eq!(dependencies.name_at(0), "a");
    assert_eq!(dependencies.name_at(2), "c");
    assert!(dependencies.get("a").unwrap().is_empty());
    let of_c = dependencies.get("c").unwrap();
    assert_eq!(of_c.len(), 2);
    assert_eq!(of_c[0].meta.doc, "b");
    assert_eq!(of_c[1].meta.doc, "a");
}

#[test]
fn dependencies_are_not_followed_further() {
    let yake = definition(vec![
        ("a", cmd("a", None, None)),
        ("b", cmd("b", Some(texts(&["a"])), None)),
        ("c", cmd("c", Some(texts(&["b"])), None)),
    ])
    .fabricate()
    .unwrap();
    let of_c = yake.get_dependencies_by_name("c");
    assert_eq!(of_c.len(), 1);
    assert_eq!(of_c[0].meta.doc, "b");
}

#[test]
fn a_cycle_of_dependencies_resolves() {
    let yake = definition(vec![
        ("a", cmd("a", Some(texts(&["b"])), None)),
        ("b", cmd("b", Some(texts(&["a"])), None)),
    ])
    .fabricate()
    .unwrap();
    assert_eq!(yake.get_dependencies_by_name("a")[0].meta.doc, "b");
    assert_eq!(yake.get_dependencies_by_name("b")[0].meta.doc, "a");
}

#[test]
fn a_group_may_be_a_dependency() {
    let yake = definition(vec![
        ("g", group("the group", vec![])),
        ("a", cmd("a", Some(texts(&["g"])), None)),
    ])
    .fabricate()
    .unwrap();
    assert_eq!(yake.get_dependencies_by_name("a")[0].meta.doc, "the group");
}

#[test]
fn unknown_dependency_names_both() {
    let yake = definition(vec![
        ("ok", cmd("", None, None)),
        (
            "db",
            group(
                "",
                vec![("migrate", cmd("", Some(texts(&["ok", "nope", "nada"])), None))],
            ),
        ),
    ]);
    let expected = YakeError::UnknownDependency {
        dependency: "nope".to_string(),
        target: "db.migrate".to_string(),
    };
    assert_eq!(yake.get_all_dependencies(), Err(expected));
    let failed = yake.fabricate().unwrap_err();
    assert_eq!(
        failed,
        YakeError::UnknownDependency {
            dependency: "nope".to_string(),
            target: "db.migrate".to_string(),
        }
    );
    assert_eq!(
        failed.message(),
        "Warning: Unknown dependency: nope in target: db.migrate."
    );
}

#[test]
fn first_target_with_an_unknown_dependency_is_reported() {
    let yake = definition(vec![
        ("a", cmd("", Some(texts(&["x"])), None)),
        ("b", cmd("", Some(texts(&["y"])), None)),
    ]);
    assert_eq!(
        yake.fabricate(),
        Err(YakeError::UnknownDependency {
            dependency: "x".to_string(),
            target: "a".to_string(),
        })
    );
}

#[test]
fn resolve_target_looks_names_up() {
    let mut registry = NameMap::new();
    registry.insert("a".to_string(), cmd("a", None, None));
    let wants = cmd("", Some(texts(&["a", "a"])), None);
    let found = resolve_target(&registry, &wants).unwrap();
    assert_eq!(found.len(), 2);
    assert_eq!(found[1].meta.doc, "a");
    let lacks = cmd("", Some(texts(&["a", "b"])), None);
    assert_eq!(resolve_target(&registry, &lacks), Err("b".to_string()));
    let none = cmd("", None, None);
    assert_eq!(resolve_target(&registry, &none), Ok(vec![]));
}

#[test]
fn resolving_twice_gives_the_same() {
    let yake = definition(vec![
        ("a", cmd("a", None, None)),
        ("b", cmd("b", Some(texts(&["a"])), None)),
    ]);
    let registry = yake.get_all_targets();
    let first = resolve_all(&registry);
    let second = resolve_all(&registry);
    assert!(first.is_ok());
    assert_eq!(first, second);
    let broken = definition(vec![("a", cmd("a", Some(texts(&["b"])), None))]);
    let registry = broken.get_all_targets();
    assert_eq!(resolve_all(&registry), resolve_all(&registry));
    assert!(resolve_all(&registry).is_err());
}

#[test]
fn fabricate_derives_both_registries() {
    let yake = definition(vec![
        ("clean", cmd("", None, Some(texts(&["echo cleaned"])))),
        ("build", cmd("", Some(texts(&["clean"])), Some(texts(&["echo built"])))),
    ]);
    let made = yake.fabricate().unwrap();
    assert!(made.is_fabricated());
    assert_eq!(made.get_target_names(), texts(&["clean", "build"]));
    assert_eq!(made.targets(), yake.targets());
    assert_eq!(made.meta(), yake.meta());
    assert_eq!(made.get_dependencies_by_name("build").len(), 1);
    assert!(made.get_dependencies_by_name("clean").is_empty());
}

#[test]
fn fabricate_again_changes_nothing() {
    let yake = definition(vec![
        ("a", cmd("a", None, None)),
        ("g", group("", vec![("b", cmd("b", Some(texts(&["a"])), None))])),
    ]);
    let once = yake.fabricate().unwrap();
    let twice = once.fabricate().unwrap();
    assert_eq!(once, twice);
}

#[test]
fn clones_are_equal() {
    let tree = group(
        "g",
        vec![
            ("x", cmd("x", Some(texts(&["y"])), Some(texts(&["echo x"])))),
            ("h", group("h", vec![("y", cmd("y", None, None))])),
        ],
    );
    assert_eq!(tree.clone(), tree);
    let yake = definition(vec![("g", tree), ("y", cmd("", None, None))]);
    assert_eq!(yake.clone(), yake);
    let made = yake.fabricate().unwrap();
    assert_eq!(made.clone(), made);
    assert_eq!(clone_targets(made.targets()), *made.targets());
}

#[test]
fn target_type_tags() {
    assert_eq!(YakeTargetType::Group.tag(), "group");
    assert_eq!(YakeTargetType::Cmd.tag(), "cmd");
    assert_eq!(YakeTargetType::from_tag("group"), Ok(YakeTargetType::Group));
    assert_eq!(YakeTargetType::from_tag("cmd"), Ok(YakeTargetType::Cmd));
    assert_eq!(
        YakeTargetType::from_tag("Cmd"),
        Err("unknown target type 'Cmd'".to_string())
    );
    assert_eq!(
        YakeTargetType::from_tag(""),
        Err("unknown target type ''".to_string())
    );
}

#[test]
fn is_cmd_tells_the_kind() {
    assert!(cmd("", None, None).is_cmd());
    assert!(!group("", vec![]).is_cmd());
}

#[test]
fn dependency_that_exists_nowhere_fails_resolution() {
    let yake = definition(vec![("leaf", cmd("", Some(texts(&["nope"])), None))]);
    let registry = yake.get_all_targets();
    let failed = resolve_all(&registry).unwrap_err();
    match &failed {
        YakeError::UnknownDependency { dependency, target } => {
            assert_eq!(dependency, "nope");
            assert_eq!(target, "leaf");
        }
        other => panic!("unexpected failure: {:?}", other),
    }
    assert!(failed.message().contains("nope"));
    assert!(failed.message().contains("leaf"));
    assert_eq!(yake.fabricate(), Err(failed));
}

#[test]
fn dependencies_are_looked_up_by_canonical_name() {
    let yake = definition(vec![
        ("db", group("", vec![("migrate", cmd("m", None, None))])),
        ("a", cmd("", Some(texts(&["db.migrate"])), None)),
        ("b", cmd("", Some(texts(&["migrate"])), None)),
    ]);
    assert_eq!(
        yake.get_all_dependencies(),
        Err(YakeError::UnknownDependency {
            dependency: "migrate".to_string(),
            target: "b".to_string(),
        })
    );
}

#[test]
fn env_is_carried_along() {
    let mut leaf = cmd("", None, Some(texts(&["echo $HOME"])));
    leaf.env = Some(texts(&["HOME"]));
    let mut targets = NameMap::new();
    targets.insert("g".to_string(), group("", vec![("leaf", leaf)]));
    let yake = Yake::new(
        YakeMeta {
            doc: "".to_string(),
            version: "2".to_string(),
        },
        Some(texts(&["PATH", "USER"])),
        targets,
    );
    assert_eq!(yake.env(), &Some(texts(&["PATH", "USER"])));
    let made = yake.fabricate().unwrap();
    assert_eq!(made.env(), &Some(texts(&["PATH", "USER"])));
    assert_eq!(made.meta().version, "2");
    assert_eq!(
        made.get_target_by_name("g.leaf").unwrap().env,
        Some(texts(&["HOME"]))
    );
    assert_eq!(made.clone().env(), yake.env());
}

#[test]
fn without_a_prefix_a_group_gives_its_name_to_what_lies_below() {
    let leaf = cmd("n", None, None);
    let tree = group("", vec![("g2", group("", vec![("n", leaf.clone())]))]);
    let found = tree.get_sub_targets(None);
    assert_eq!(keys(&found), texts(&["g2.n"]));
    assert_eq!(found.get("g2.n"), Some(&leaf));
    assert!(!found.contains_key("n"));
}

#[test]
fn colliding_names_fail_fabrication() {
    let yake = definition(vec![
        ("g", group("", vec![("x", cmd("nested", None, None))])),
        ("g.x", cmd("top", None, None)),
    ]);
    let (registry, repeated) = yake.flatten_checked();
    assert_eq!(keys(&registry), texts(&["g", "g.x"]));
    assert_eq!(repeated, texts(&["g.x"]));
    let failed = yake.fabricate().unwrap_err();
    assert_eq!(
        failed,
        YakeError::DuplicateName {
            name: "g.x".to_string()
        }
    );
    assert_eq!(failed.message(), "Duplicate target name: g.x");
}

#[test]
fn first_name_met_again_is_reported_before_any_dependency() {
    let yake = definition(vec![
        ("a", cmd("", Some(texts(&["nope"])), None)),
        (
            "g",
            group(
                "",
                vec![
                    ("h", group("", vec![("x", cmd("", None, None))])),
                    ("h.x", cmd("", None, None)),
                ],
            ),
        ),
        ("g.h.x", cmd("", None, None)),
    ]);
    let (_, repeated) = yake.flatten_checked();
    assert_eq!(repeated, texts(&["g.h.x", "g.h.x"]));
    assert_eq!(
        yake.fabricate(),
        Err(YakeError::DuplicateName {
            name: "g.h.x".to_string()
        })
    );
}

#[test]
fn names_that_do_not_collide_are_not_met_again() {
    let yake = definition(vec![
        ("a", cmd("", None, None)),
        ("g", group("", vec![("a", cmd("", None, None))])),
    ]);
    let (registry, repeated) = yake.flatten_checked();
    assert!(repeated.is_empty());
    assert_eq!(keys(&registry), texts(&["a", "g", "g.a"]));
    assert!(yake.fabricate().is_ok());
}

#[test]
fn registry_has_one_entry_for_each_top_level_target_and_each_nested_command() {
    let yake = definition(vec![
        ("a", cmd("", None, None)),
        (
            "g",
            group(
                "",
                vec![
                    ("x", cmd("", None, None)),
                    ("h", group("", vec![("y", cmd("", None, None)), ("k", group("", vec![]))])),
                ],
            ),
        ),
        ("e", group("", vec![])),
    ])
    .fabricate()
    .unwrap();
    let registry = yake.get_all_targets();
    assert_eq!(registry.len(), 3 + 2);
    assert_eq!(keys(&registry), texts(&["a", "g", "g.x", "g.h.y", "e"]));
}

#[test]
fn deeply_nested_leaf_has_the_dotted_name_of_its_path() {
    let leaf = cmd("deep", None, None);
    let yake = definition(vec![(
        "a",
        group(
            "",
            vec![(
                "b",
                group("", vec![("c", group("", vec![("d", leaf.clone())]))]),
            )],
        ),
    )])
    .fabricate()
    .unwrap();
    assert_eq!(yake.get_target_names(), texts(&["a.b.c.d"]));
    assert_eq!(yake.get_target_by_name("a.b.c.d"), Some(leaf));
    assert_eq!(yake.get_target_by_name("d"), None);
    assert_eq!(yake.get_target_by_name("c.d"), None);
    assert_eq!(yake.get_target_by_name("a.b.c"), None);
}
