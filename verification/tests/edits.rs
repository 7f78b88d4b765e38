use uasset_edit::consistency::has_no_dangling_reference;
use uasset_edit::edit::{
    disable_actors, disable_import, parse_rename, rename_import, rename_names,
    resolve_selectors, select_exports, ActorSelector, Detached,
};
use uasset_edit::property_edit::{
    edit_property, parse_edit, EditValue, Edited, NewValue, PropertyEdit,
};
use uasset_edit::{
    AssetGraph, EditError, Export, Import, NameRef, NameTable, Payload, Property, RefIndex,
    ScalarKind,
};

fn name(graph: &mut AssetGraph, text: &str) -> NameRef {
    graph.names.intern(text)
}

fn import(graph: &mut AssetGraph, package: &str, class: &str, object: &str, outer: i32) {
    let class_package = name(graph, package);
    let class_name = name(graph, class);
    let object_name = name(graph, object);
    graph.imports.push(Import {
        class_package,
        class_name,
        object_name,
        outer_index: RefIndex::new(outer),
    });
}

fn export(graph: &mut AssetGraph, object: &str, properties: Vec<Property>, payload: Payload) {
    let object_name = name(graph, object);
    graph.exports.push(Export {
        object_name,
        class_index: RefIndex::new(0),
        super_index: RefIndex::new(0),
        template_index: RefIndex::new(0),
        outer_index: RefIndex::new(0),
        create_before_serialization: Vec::new(),
        serialization_before_create: Vec::new(),
        create_before_create: Vec::new(),
        properties,
        payload,
    });
}

fn refs(indices: &[i32]) -> Vec<RefIndex> {
    indices.iter().map(|i| RefIndex::new(*i)).collect()
}

fn bits(x: f64) -> u64 {
    x.to_bits()
}

/// A level with five exports: three actors, the level root, and one more.
fn level_graph() -> AssetGraph {
    let mut g = AssetGraph::new();
    import(&mut g, "/Script/CoreUObject", "Package", "/Script/Engine", 0);
    import(&mut g, "/Script/CoreUObject", "Class", "StaticMeshActor", -1);
    import(&mut g, "/Script/CoreUObject", "Class", "PlayerStart", -1);
    import(&mut g, "/Script/Engine", "StaticMeshActor", "Default__StaticMeshActor", -1);
    export(&mut g, "Cube", Vec::new(), Payload::Normal);
    export(&mut g, "Cube", Vec::new(), Payload::Normal);
    export(&mut g, "Start", Vec::new(), Payload::Normal);
    export(
        &mut g,
        "PersistentLevel",
        Vec::new(),
        Payload::Level { actors: refs(&[1, 2, 3, 0, 1]) },
    );
    let relative = name(&mut g, "RelativeLocation");
    let rotation = name(&mut g, "RelativeRotation");
    let tag = name(&mut g, "PlayerStartTag");
    let none = name(&mut g, "None");
    let vector = name(&mut g, "Vector");
    let mobility = name(&mut g, "Mobility");
    export(
        &mut g,
        "Root",
        vec![
            Property::Scalar { kind: ScalarKind::Bool, name: relative },
            Property::Name { name: tag, value: none },
            Property::Struct {
                name: rotation,
                struct_type: None,
                value: vec![Property::Rotator {
                    name: rotation,
                    x: bits(0.0),
                    y: bits(90.0),
                    z: bits(0.0),
                }],
            },
            Property::Struct {
                name: relative,
                struct_type: Some(vector),
                value: vec![
                    Property::Scalar { kind: ScalarKind::Float, name: relative },
                    Property::Vector { name: relative, x: bits(7.0), y: bits(8.0), z: bits(9.0) },
                    Property::Vector { name: relative, x: bits(4.0), y: bits(5.0), z: bits(6.0) },
                ],
            },
            Property::Struct { name: relative, struct_type: Some(vector), value: Vec::new() },
            Property::Scalar { kind: ScalarKind::Byte, name: mobility },
            Property::Name { name: tag, value: none },
        ],
        Payload::Normal,
    );
    assert!(g.is_well_formed());
    g
}

#[test]
fn graph_lookups() {
    let g = level_graph();
    assert_eq!(g.find_level_root(), Some(RefIndex::new(4)));
    assert!(g.get_export(RefIndex::new(0)).is_none());
    assert!(g.get_export(RefIndex::new(6)).is_none());
    assert!(g.get_export(RefIndex::new(-1)).is_none());
    assert_eq!(g.get_export(RefIndex::new(5)), Some(&g.exports[4]));
    assert_eq!(g.get_import(RefIndex::new(-2)), Some(g.imports[1]));
    assert_eq!(g.get_import(RefIndex::new(-5)), None);
    assert_eq!(g.get_import(RefIndex::new(0)), None);
    assert_eq!(g.get_import(RefIndex::new(1)), None);
    assert!(g.resolves(RefIndex::new(0)));
    assert!(g.resolves(RefIndex::new(5)));
    assert!(g.resolves(RefIndex::new(-4)));
    assert!(!g.resolves(RefIndex::new(6)));
    assert!(!g.resolves(RefIndex::new(-5)));
}

#[test]
fn level_root_needs_name_and_kind() {
    let mut g = AssetGraph::new();
    assert_eq!(g.find_level_root(), None);
    export(&mut g, "PersistentLevel", Vec::new(), Payload::Normal);
    export(&mut g, "OtherLevel", Vec::new(), Payload::Level { actors: Vec::new() });
    assert_eq!(g.find_level_root(), None);
    export(&mut g, "PersistentLevel", Vec::new(), Payload::Level { actors: Vec::new() });
    export(&mut g, "PersistentLevel", Vec::new(), Payload::Level { actors: Vec::new() });
    assert_eq!(g.find_level_root(), Some(RefIndex::new(3)));
}

#[test]
fn well_formed_needs_valid_names() {
    let mut g = level_graph();
    assert!(g.is_well_formed());
    let bad = NameRef { index: g.names.len() };
    if let Property::Struct { value, .. } = &mut g.exports[4].properties[3] {
        value.push(Property::Name { name: NameRef { index: 0 }, value: bad });
    }
    assert!(!g.is_well_formed());
    let mut h = level_graph();
    h.imports[2].class_name = bad;
    assert!(!h.is_well_formed());
    let mut k = level_graph();
    k.exports[0].object_name = bad;
    assert!(!k.is_well_formed());
}

#[test]
fn disable_import_detaches_every_match() {
    let mut g = level_graph();
    import(&mut g, "/Script/CoreUObject", "Class", "StaticMeshActor", -3);
    let detached = disable_import(&mut g, "StaticMeshActor");
    assert_eq!(
        detached,
        vec![
            Detached { import: RefIndex::new(-2), outer_before: RefIndex::new(-1) },
            Detached { import: RefIndex::new(-5), outer_before: RefIndex::new(-3) },
        ]
    );
    let outers: Vec<i32> = g.imports.iter().map(|i| i.outer_index.index).collect();
    assert_eq!(outers, vec![0, 0, -1, -1, 0]);
    assert!(g.is_well_formed());
}

#[test]
fn disable_import_twice_is_once() {
    let mut once = level_graph();
    disable_import(&mut once, "PlayerStart");
    let mut twice = level_graph();
    disable_import(&mut twice, "PlayerStart");
    let second = disable_import(&mut twice, "PlayerStart");
    assert_eq!(once, twice);
    assert_eq!(
        second,
        vec![Detached { import: RefIndex::new(-3), outer_before: RefIndex::new(0) }]
    );
}

#[test]
fn disable_import_without_match_changes_nothing() {
    let mut g = level_graph();
    let detached = disable_import(&mut g, "Missing");
    assert!(detached.is_empty());
    assert_eq!(g, level_graph());
}

#[test]
fn rename_import_renames_first_match_only() {
    let mut g = level_graph();
    import(&mut g, "/Script/CoreUObject", "Class", "PlayerStart", -1);
    let names_before = g.names.len();
    let renamed = rename_import(&mut g, "PlayerStart", "PlayerStartPIE");
    assert_eq!(renamed, Ok(RefIndex::new(-3)));
    assert_eq!(g.names.len(), names_before + 1);
    assert_eq!(g.names.lookup(g.imports[2].object_name), Some("PlayerStartPIE"));
    assert_eq!(g.names.lookup(g.imports[4].object_name), Some("PlayerStart"));
    assert_eq!(g.imports[2].outer_index, RefIndex::new(-1));
    assert!(g.is_well_formed());
}

#[test]
fn rename_import_reuses_a_name() {
    let mut g = level_graph();
    let names_before = g.names.len();
    let renamed = rename_import(&mut g, "PlayerStart", "StaticMeshActor");
    assert_eq!(renamed, Ok(RefIndex::new(-3)));
    assert_eq!(g.names.len(), names_before);
    assert_eq!(g.imports[2].object_name, g.imports[1].object_name);
}

#[test]
fn rename_import_not_found_still_interns() {
    let mut g = level_graph();
    let names_before = g.names.len();
    let renamed = rename_import(&mut g, "Missing", "Fresh");
    assert_eq!(renamed, Err(EditError::ImportNotFound));
    assert_eq!(g.names.len(), names_before + 1);
    assert_eq!(g.names.find("Fresh"), Some(NameRef { index: names_before }));
    assert_eq!(g.imports, level_graph().imports);
    assert_eq!(g.exports, level_graph().exports);
}

#[test]
fn select_exports_by_name_and_index() {
    let g = level_graph();
    assert_eq!(
        select_exports(&g, &ActorSelector::Name("Cube".to_string())),
        refs(&[1, 2])
    );
    assert_eq!(select_exports(&g, &ActorSelector::Name("cube".to_string())), refs(&[]));
    assert_eq!(select_exports(&g, &ActorSelector::Index("3".to_string())), refs(&[3]));
    assert_eq!(select_exports(&g, &ActorSelector::Index("5".to_string())), refs(&[5]));
    assert_eq!(select_exports(&g, &ActorSelector::Index("6".to_string())), refs(&[]));
    assert_eq!(select_exports(&g, &ActorSelector::Index("0".to_string())), refs(&[]));
    assert_eq!(select_exports(&g, &ActorSelector::Index("-1".to_string())), refs(&[]));
    assert_eq!(select_exports(&g, &ActorSelector::Index("three".to_string())), refs(&[]));
    assert_eq!(
        resolve_selectors(
            &g,
            &vec![
                ActorSelector::Index("3".to_string()),
                ActorSelector::Name("Cube".to_string()),
                ActorSelector::Index("3".to_string()),
            ]
        ),
        Some(refs(&[3, 1, 2, 3]))
    );
    assert_eq!(
        resolve_selectors(
            &g,
            &vec![
                ActorSelector::Index("3".to_string()),
                ActorSelector::Name("Nobody".to_string()),
            ]
        ),
        None
    );
    assert_eq!(resolve_selectors(&g, &Vec::new()), Some(Vec::new()));
}

#[test]
fn disable_actor_by_index_detaches_without_deleting() {
    let mut g = level_graph();
    let removed = disable_actors(&mut g, &vec![ActorSelector::Index("3".to_string())]);
    assert_eq!(removed, Ok(refs(&[3])));
    assert_eq!(g.exports[3].payload, Payload::Level { actors: refs(&[1, 2, 0, 1]) });
    assert_eq!(g.exports.len(), 5);
    assert_eq!(g.names.lookup(g.exports[2].object_name), Some("Start"));
    let fresh = level_graph();
    for i in [0, 1, 2, 4] {
        assert_eq!(g.exports[i], fresh.exports[i]);
    }
    assert_eq!(g.imports, fresh.imports);
    assert_eq!(g.names, fresh.names);
}

#[test]
fn disable_actors_by_name_removes_every_entry() {
    let mut g = level_graph();
    let removed = disable_actors(&mut g, &vec![ActorSelector::Name("Cube".to_string())]);
    assert_eq!(removed, Ok(refs(&[1, 2])));
    assert_eq!(g.exports[3].payload, Payload::Level { actors: refs(&[3, 0]) });
}

#[test]
fn disable_actors_not_in_level_changes_nothing() {
    let mut g = level_graph();
    let removed = disable_actors(&mut g, &vec![ActorSelector::Index("5".to_string())]);
    assert_eq!(removed, Ok(refs(&[5])));
    assert_eq!(g, level_graph());
}

#[test]
fn disable_actors_refuses_unknown_selector() {
    let mut g = level_graph();
    assert_eq!(
        disable_actors(
            &mut g,
            &vec![ActorSelector::Index("1".to_string()), ActorSelector::Index("9".to_string())]
        ),
        Err(EditError::AmbiguousRootSelector)
    );
    assert_eq!(g, level_graph());
    assert_eq!(
        disable_actors(&mut g, &vec![ActorSelector::Name("Nobody".to_string())]),
        Err(EditError::AmbiguousRootSelector)
    );
    assert_eq!(g, level_graph());
}

#[test]
fn disable_actors_needs_level_root() {
    let mut g = AssetGraph::new();
    export(&mut g, "Cube", Vec::new(), Payload::Normal);
    assert_eq!(
        disable_actors(&mut g, &vec![ActorSelector::Index("1".to_string())]),
        Err(EditError::LevelRootNotFound)
    );
    assert_eq!(disable_actors(&mut g, &Vec::new()), Err(EditError::LevelRootNotFound));
    assert_eq!(
        disable_actors(&mut g, &vec![ActorSelector::Index("2".to_string())]),
        Err(EditError::AmbiguousRootSelector)
    );
}

#[test]
fn parse_edit_forms() {
    assert_eq!(
        parse_edit("5.RelativeLocation.RelativeLocation=1,2,3"),
        Ok(PropertyEdit {
            export: RefIndex::new(5),
            path: vec!["RelativeLocation".to_string(), "RelativeLocation".to_string()],
            value: EditValue::Vector("1".to_string(), "2".to_string(), "3".to_string()),
        })
    );
    assert_eq!(
        parse_edit("123.PlayerStartTag=mycooltag"),
        Ok(PropertyEdit {
            export: RefIndex::new(123),
            path: vec!["PlayerStartTag".to_string()],
            value: EditValue::Name("mycooltag".to_string()),
        })
    );
    assert_eq!(
        parse_edit("1.a=b=c"),
        Ok(PropertyEdit {
            export: RefIndex::new(1),
            path: vec!["a".to_string()],
            value: EditValue::Name("b=c".to_string()),
        })
    );
    assert_eq!(
        parse_edit("-2.a="),
        Ok(PropertyEdit {
            export: RefIndex::new(-2),
            path: vec!["a".to_string()],
            value: EditValue::Name(String::new()),
        })
    );
    assert_eq!(
        parse_edit("7..=,,"),
        Ok(PropertyEdit {
            export: RefIndex::new(7),
            path: vec![String::new(), String::new()],
            value: EditValue::Vector(String::new(), String::new(), String::new()),
        })
    );
}

#[test]
fn parse_edit_refuses_malformed() {
    for text in [
        "",
        "5.Tag",
        "5=x",
        "5.a.b.c=x",
        "5.a=1,2",
        "5.a=1,2,3,4",
        "five.a=x",
        ".a=x",
        "5a.b=x",
        "99999999999.a=x",
        "=",
    ] {
        assert_eq!(parse_edit(text), Err(EditError::MalformedExpression), "{}", text);
    }
}

#[test]
fn edit_vector_in_struct_sets_components() {
    let mut g = level_graph();
    let edit = parse_edit("5.RelativeLocation.RelativeLocation=1,2,3").unwrap();
    let value = match &edit.value {
        EditValue::Vector(x, y, z) => NewValue::Vector {
            x: bits(x.parse::<f64>().unwrap()),
            y: bits(y.parse::<f64>().unwrap()),
            z: bits(z.parse::<f64>().unwrap()),
        },
        EditValue::Name(_) => panic!("three tokens make a vector"),
    };
    assert_eq!(
        edit_property(&mut g, edit.export, &edit.path, &value),
        Ok(Edited { inside: Some(3), position: 1, name: None })
    );
    let fresh = level_graph();
    let relative = fresh.names.find("RelativeLocation").unwrap();
    match &g.exports[4].properties[3] {
        Property::Struct { value, .. } => {
            assert_eq!(
                value[1],
                Property::Vector { name: relative, x: bits(1.0), y: bits(2.0), z: bits(3.0) }
            );
            match &fresh.exports[4].properties[3] {
                Property::Struct { value: before, .. } => {
                    assert_eq!(value[0], before[0]);
                    assert_eq!(value[2], before[2]);
                    assert_eq!(value.len(), before.len());
                }
                _ => unreachable!(),
            }
        }
        _ => panic!("the struct stays a struct"),
    }
    for i in [0, 1, 2, 4, 5, 6] {
        assert_eq!(g.exports[4].properties[i], fresh.exports[4].properties[i]);
    }
    for i in 0..4 {
        assert_eq!(g.exports[i], fresh.exports[i]);
    }
    assert_eq!(g.names, fresh.names);
    assert_eq!(g.imports, fresh.imports);
    assert!(g.is_well_formed());
}

#[test]
fn edit_rotator_takes_three_components() {
    let mut g = level_graph();
    let path = vec!["RelativeRotation".to_string(), "RelativeRotation".to_string()];
    let value = NewValue::Vector { x: bits(10.0), y: bits(-20.5), z: bits(30.0) };
    assert_eq!(
        edit_property(&mut g, RefIndex::new(5), &path, &value),
        Ok(Edited { inside: Some(2), position: 0, name: None })
    );
    let rotation = g.names.find("RelativeRotation").unwrap();
    match &g.exports[4].properties[2] {
        Property::Struct { value, struct_type, .. } => {
            assert_eq!(*struct_type, None);
            assert_eq!(
                value[0],
                Property::Rotator { name: rotation, x: bits(10.0), y: bits(-20.5), z: bits(30.0) }
            );
        }
        _ => panic!("the struct stays a struct"),
    }
}

#[test]
fn edit_name_interns_and_sets_first_match() {
    let mut g = level_graph();
    let names_before = g.names.len();
    let path = vec!["PlayerStartTag".to_string()];
    let value = NewValue::Name("mycooltag".to_string());
    assert_eq!(
        edit_property(&mut g, RefIndex::new(5), &path, &value),
        Ok(Edited { inside: None, position: 1, name: Some(NameRef { index: names_before }) })
    );
    assert_eq!(g.names.len(), names_before + 1);
    let tag = g.names.find("PlayerStartTag").unwrap();
    let fresh = level_graph();
    assert_eq!(
        g.exports[4].properties[1],
        Property::Name { name: tag, value: NameRef { index: names_before } }
    );
    assert_eq!(g.names.lookup(NameRef { index: names_before }), Some("mycooltag"));
    assert_eq!(g.exports[4].properties[6], fresh.exports[4].properties[6]);
    assert!(g.is_well_formed());
    let again = NewValue::Name("None".to_string());
    assert_eq!(
        edit_property(&mut g, RefIndex::new(5), &path, &again),
        Ok(Edited { inside: None, position: 1, name: g.names.find("None") })
    );
    assert_eq!(g.names.len(), names_before + 1);
    assert_eq!(g.exports[4].properties[1], fresh.exports[4].properties[1]);
}

#[test]
fn edit_refusals() {
    let vector = NewValue::Vector { x: 0, y: 0, z: 0 };
    let name = NewValue::Name("x".to_string());
    let cases: Vec<(i32, Vec<&str>, &NewValue, EditError)> = vec![
        (5, vec![], &name, EditError::MalformedExpression),
        (5, vec!["a", "b", "c"], &name, EditError::MalformedExpression),
        (9, vec!["a", "b", "c"], &name, EditError::MalformedExpression),
        (0, vec!["PlayerStartTag"], &name, EditError::AmbiguousRootSelector),
        (6, vec!["PlayerStartTag"], &name, EditError::AmbiguousRootSelector),
        (-1, vec!["PlayerStartTag"], &name, EditError::AmbiguousRootSelector),
        (5, vec!["Missing"], &name, EditError::PropertyNotFound),
        (5, vec!["PlayerStartTag"], &vector, EditError::PropertyNotFound),
        (5, vec!["RelativeLocation"], &vector, EditError::PropertyNotFound),
        (5, vec!["Mobility"], &name, EditError::PropertyNotFound),
        (1, vec!["PlayerStartTag"], &name, EditError::PropertyNotFound),
        (5, vec!["Missing", "RelativeLocation"], &vector, EditError::StructNotFound),
        (5, vec!["PlayerStartTag", "x"], &name, EditError::StructNotFound),
        (5, vec!["Mobility", "Mobility"], &vector, EditError::StructNotFound),
        (5, vec!["RelativeLocation", "Missing"], &vector, EditError::PropertyNotFound),
        (5, vec!["RelativeLocation", "RelativeLocation"], &name, EditError::PropertyNotFound),
        (5, vec!["RelativeRotation", "RelativeLocation"], &vector, EditError::PropertyNotFound),
    ];
    for (index, path, value, error) in cases {
        let mut g = level_graph();
        let path: Vec<String> = path.iter().map(|p| p.to_string()).collect();
        assert_eq!(
            edit_property(&mut g, RefIndex::new(index), &path, value),
            Err(error),
            "{} {:?}",
            index,
            path
        );
        assert_eq!(g, level_graph());
    }
}

#[test]
fn edit_uses_first_struct_of_the_name_only() {
    let mut g = AssetGraph::new();
    let s = name(&mut g, "S");
    let v = name(&mut g, "V");
    export(
        &mut g,
        "A",
        vec![
            Property::Struct { name: s, struct_type: None, value: Vec::new() },
            Property::Struct {
                name: s,
                struct_type: None,
                value: vec![Property::Vector { name: v, x: 0, y: 0, z: 0 }],
            },
        ],
        Payload::Normal,
    );
    let path = vec!["S".to_string(), "V".to_string()];
    let value = NewValue::Vector { x: 1, y: 2, z: 3 };
    assert_eq!(
        edit_property(&mut g, RefIndex::new(1), &path, &value),
        Err(EditError::PropertyNotFound)
    );
}

#[test]
fn name_table_of_graph_can_be_renamed() {
    let mut g = level_graph();
    let before = g.names.len();
    let touched = rename_names(&mut g, "Cube", "Sphere");
    assert_eq!(touched, vec![g.exports[0].object_name.index]);
    assert_eq!(g.names.len(), before);
    assert_eq!(g.names.lookup(g.exports[0].object_name), Some("Sphere"));
    assert!(g.is_well_formed());
    let table: &NameTable = &g.names;
    assert_eq!(table.find("Cube"), None);
}

#[test]
fn parse_rename_forms() {
    assert_eq!(parse_rename("old>new"), Ok(("old".to_string(), "new".to_string())));
    assert_eq!(parse_rename("a>b>c"), Ok(("a".to_string(), "b".to_string())));
    assert_eq!(parse_rename(">"), Ok((String::new(), String::new())));
    assert_eq!(parse_rename("a>"), Ok(("a".to_string(), String::new())));
    assert_eq!(parse_rename("old"), Err(EditError::MalformedExpression));
    assert_eq!(parse_rename(""), Err(EditError::MalformedExpression));
}

#[test]
fn only_a_missing_import_is_passed_over() {
    assert!(!EditError::ImportNotFound.is_fatal());
    for e in [
        EditError::InputNotFound,
        EditError::CodecParseError,
        EditError::CodecWriteError,
        EditError::PropertyNotFound,
        EditError::StructNotFound,
        EditError::LevelRootNotFound,
        EditError::MalformedExpression,
        EditError::UnsupportedPropertyKind,
        EditError::RemapConsistencyError,
        EditError::AmbiguousRootSelector,
    ] {
        assert!(e.is_fatal());
    }
}

#[test]
fn dangling_references_are_found() {
    assert!(has_no_dangling_reference(&level_graph()));
    let mut g = level_graph();
    g.imports[3].outer_index = RefIndex::new(-5);
    assert!(!has_no_dangling_reference(&g));
    let mut g = level_graph();
    g.imports[3].outer_index = RefIndex::new(5);
    assert!(has_no_dangling_reference(&g));
    g.imports[3].outer_index = RefIndex::new(6);
    assert!(!has_no_dangling_reference(&g));
    for field in 0..7 {
        let mut g = level_graph();
        let e = &mut g.exports[0];
        let bad = RefIndex::new(-5);
        match field {
            0 => e.class_index = bad,
            1 => e.super_index = bad,
            2 => e.template_index = bad,
            3 => e.outer_index = bad,
            4 => e.create_before_serialization.push(bad),
            5 => e.serialization_before_create.push(bad),
            _ => e.create_before_create.push(bad),
        }
        assert!(!has_no_dangling_reference(&g), "{}", field);
    }
    let mut g = level_graph();
    if let Payload::Level { actors } = &mut g.exports[3].payload {
        actors.push(RefIndex::new(6));
    }
    assert!(!has_no_dangling_reference(&g));
    let mut g = level_graph();
    let n = g.exports[4].object_name;
    if let Property::Struct { value, .. } = &mut g.exports[4].properties[3] {
        value.push(Property::Array {
            name: n,
            value: vec![Property::Object { name: n, value: RefIndex::new(-4) }],
        });
    }
    assert!(has_no_dangling_reference(&g));
    if let Property::Struct { value, .. } = &mut g.exports[4].properties[3] {
        value.push(Property::Object { name: n, value: RefIndex::new(6) });
    }
    assert!(!has_no_dangling_reference(&g));
}
