use uasset_edit::closure::{collect_exports, collect_imports};
use uasset_edit::transplant::{transplant, transplant_all, TransplantReport};
use uasset_edit::{
    AssetGraph, EditError, Export, Import, NameRef, Payload, Property, RefIndex, ScalarKind,
};

fn name(graph: &mut AssetGraph, text: &str) -> NameRef {
    graph.names.intern(text)
}

fn refs(indices: &[i32]) -> Vec<RefIndex> {
    indices.iter().map(|i| RefIndex::new(*i)).collect()
}

fn import(graph: &mut AssetGraph, package: &str, class: &str, object: &str, outer: i32) {
    let class_package = name(graph, package);
    let class_name = name(graph, class);
    let object_name = name(graph, object);
    graph.imports.push(Import {
        class_package,
        class_name,
        object_name,
        outer_index: RefIndex::new(outer),
    });
}

fn export(graph: &mut AssetGraph, object: &str, before_serialization: &[i32]) -> usize {
    let object_name = name(graph, object);
    graph.exports.push(Export {
        object_name,
        class_index: RefIndex::new(0),
        super_index: RefIndex::new(0),
        template_index: RefIndex::new(0),
        outer_index: RefIndex::new(0),
        create_before_serialization: refs(before_serialization),
        serialization_before_create: Vec::new(),
        create_before_create: Vec::new(),
        properties: Vec::new(),
        payload: Payload::Normal,
    });
    graph.exports.len() - 1
}

fn level(graph: &mut AssetGraph, actors: &[i32]) {
    let at = export(graph, "PersistentLevel", actors);
    graph.exports[at].payload = Payload::Level { actors: refs(actors) };
}

fn text_of(graph: &AssetGraph, name: NameRef) -> &str {
    graph.names.lookup(name).unwrap()
}

/// A target with two imports and three exports, the level root being the
/// second export.
fn target() -> AssetGraph {
    let mut g = AssetGraph::new();
    import(&mut g, "/Script/CoreUObject", "Package", "/Script/Engine", 0);
    import(&mut g, "/Script/CoreUObject", "Class", "Actor", -1);
    export(&mut g, "Floor", &[]);
    level(&mut g, &[1, 3]);
    export(&mut g, "Lamp", &[]);
    assert!(g.is_well_formed());
    g
}

/// A larger target: as `target`, with two more imports and four more
/// exports in front.
fn larger_target() -> AssetGraph {
    let mut g = AssetGraph::new();
    import(&mut g, "/Script/CoreUObject", "Package", "/Game/Props", 0);
    import(&mut g, "/Script/Engine", "StaticMesh", "Crate", -1);
    import(&mut g, "/Script/CoreUObject", "Package", "/Script/Engine", 0);
    import(&mut g, "/Script/CoreUObject", "Class", "Actor", -3);
    export(&mut g, "One", &[]);
    export(&mut g, "Two", &[]);
    export(&mut g, "Three", &[]);
    export(&mut g, "Four", &[]);
    export(&mut g, "Floor", &[]);
    level(&mut g, &[5, 7]);
    export(&mut g, "Lamp", &[]);
    assert!(g.is_well_formed());
    g
}

/// A donor with eight exports and six imports.
///
/// Export 1 is the level root. Export 4 is a door that depends on its
/// hinge (5), its mesh component (6) and on imports; export 7 stands alone.
fn donor() -> AssetGraph {
    let mut g = AssetGraph::new();
    import(&mut g, "/Script/CoreUObject", "Package", "/Script/Engine", 0);
    import(&mut g, "/Script/CoreUObject", "Class", "StaticMeshActor", -1);
    import(&mut g, "/Script/CoreUObject", "Package", "/Game/Meshes/Door", 0);
    import(&mut g, "/Script/Engine", "StaticMesh", "Door", -3);
    import(&mut g, "/Script/Engine", "Material", "Wood", -4);
    import(&mut g, "/Script/CoreUObject", "Class", "SceneComponent", -1);
    level(&mut g, &[4, 7]);
    export(&mut g, "Unused", &[]);
    export(&mut g, "Shared", &[]);
    let door = export(&mut g, "Door", &[5, -2, 6, 5, 0]);
    let hinge = export(&mut g, "Hinge", &[3, 4]);
    let mesh = export(&mut g, "Mesh", &[3]);
    export(&mut g, "Rock", &[]);
    export(&mut g, "Far", &[]);
    let mesh_name = name(&mut g, "StaticMesh");
    let tag = name(&mut g, "Tag");
    let tag_value = name(&mut g, "Heavy");
    let parts = name(&mut g, "Parts");
    let owner = name(&mut g, "Owner");
    let root = name(&mut g, "RootComponent");
    let location = name(&mut g, "RelativeLocation");
    let vector = name(&mut g, "Vector");
    let mobility = name(&mut g, "Mobility");
    let mobility_type = name(&mut g, "EComponentMobility");
    let mobility_value = name(&mut g, "EComponentMobility::Static");
    {
        let e = &mut g.exports[door];
        e.class_index = RefIndex::new(-2);
        e.template_index = RefIndex::new(-6);
        e.outer_index = RefIndex::new(1);
        e.serialization_before_create = refs(&[-4, -2]);
        e.create_before_create = refs(&[1, 8]);
        e.properties = vec![
            Property::Object { name: root, value: RefIndex::new(6) },
            Property::Name { name: tag, value: tag_value },
            Property::Array {
                name: parts,
                value: vec![
                    Property::Object { name: parts, value: RefIndex::new(5) },
                    Property::Object { name: parts, value: RefIndex::new(0) },
                    Property::Object { name: parts, value: RefIndex::new(1) },
                ],
            },
        ];
    }
    {
        let e = &mut g.exports[hinge];
        e.outer_index = RefIndex::new(4);
        e.properties = vec![Property::Object { name: owner, value: RefIndex::new(4) }];
    }
    {
        let e = &mut g.exports[mesh];
        e.outer_index = RefIndex::new(4);
        e.properties = vec![
            Property::Object { name: mesh_name, value: RefIndex::new(-4) },
            Property::Struct {
                name: location,
                struct_type: Some(vector),
                value: vec![Property::Vector { name: location, x: 1, y: 2, z: 3 }],
            },
            Property::Enum {
                name: mobility,
                value: Some(mobility_value),
                enum_type: Some(mobility_type),
            },
            Property::Scalar { kind: ScalarKind::Bool, name: tag },
        ];
    }
    assert!(g.is_well_formed());
    g
}

fn pairs(list: &[(i32, i32)]) -> Vec<(RefIndex, RefIndex)> {
    list.iter().map(|(a, b)| (RefIndex::new(*a), RefIndex::new(*b))).collect()
}

#[test]
fn closure_follows_the_stack() {
    let g = donor();
    // The door puts 5, 6 and 5 again on the stack. The hinge on top is
    // visited first and puts 3 there; 6 follows; the second 5 is dropped.
    assert_eq!(collect_exports(&g, RefIndex::new(4)), Some(refs(&[4, 5, 3, 6])));
    assert_eq!(collect_exports(&g, RefIndex::new(5)), Some(refs(&[5, 4, 6, 3])));
    assert_eq!(collect_exports(&g, RefIndex::new(7)), Some(refs(&[7])));
    assert_eq!(collect_exports(&g, RefIndex::new(1)), Some(refs(&[1, 7, 4, 5, 3, 6])));
}

#[test]
fn closure_visits_no_export_twice() {
    let mut g = AssetGraph::new();
    export(&mut g, "A", &[2, 2, 3, 1]);
    export(&mut g, "B", &[3, 1]);
    export(&mut g, "C", &[1, 2, 3]);
    assert_eq!(collect_exports(&g, RefIndex::new(1)), Some(refs(&[1, 3, 2])));
    assert_eq!(collect_exports(&g, RefIndex::new(2)), Some(refs(&[2, 1, 3])));
}

#[test]
fn closure_fails_on_missing_export() {
    let mut g = AssetGraph::new();
    export(&mut g, "A", &[2]);
    export(&mut g, "B", &[9]);
    assert_eq!(collect_exports(&g, RefIndex::new(1)), None);
    assert_eq!(collect_exports(&g, RefIndex::new(3)), None);
    assert_eq!(collect_exports(&g, RefIndex::new(0)), None);
    assert_eq!(collect_exports(&g, RefIndex::new(-1)), None);
}

#[test]
fn imports_are_collected_with_one_parent() {
    let g = donor();
    assert_eq!(
        collect_imports(&g, &refs(&[4, 5, 3, 6])),
        Some(refs(&[-2, -1, -4, -3]))
    );
    assert_eq!(collect_imports(&g, &refs(&[7])), Some(refs(&[])));
    assert_eq!(collect_imports(&g, &refs(&[])), Some(refs(&[])));
}

#[test]
fn imports_at_the_top_have_no_parent() {
    let mut g = donor();
    g.exports[6].create_before_serialization = refs(&[-1, -5]);
    assert_eq!(collect_imports(&g, &refs(&[7])), Some(refs(&[-1, -5, -4])));
}

#[test]
fn imports_fail_on_missing_import() {
    let mut g = donor();
    g.exports[6].serialization_before_create = refs(&[-7]);
    assert_eq!(collect_imports(&g, &refs(&[7])), None);
    let mut h = donor();
    h.imports[1].outer_index = RefIndex::new(-9);
    assert_eq!(collect_imports(&h, &refs(&[4])), None);
    let mut k = donor();
    k.imports[1].outer_index = RefIndex::new(2);
    assert_eq!(collect_imports(&k, &refs(&[4])), None);
}

#[test]
fn transplant_of_lone_export_appends_one_export() {
    let mut t = target();
    let d = donor();
    let report = transplant(&mut t, &d, RefIndex::new(7)).unwrap();
    assert_eq!(report.exports, pairs(&[(7, 4)]));
    assert!(report.imports.is_empty());
    let before = target();
    assert_eq!(t.exports.len(), before.exports.len() + 1);
    assert_eq!(t.imports, before.imports);
    assert_eq!(t.exports[0], before.exports[0]);
    assert_eq!(t.exports[2], before.exports[2]);
    assert_eq!(t.exports[1].payload, Payload::Level { actors: refs(&[1, 3, 4]) });
    assert_eq!(t.exports[1].create_before_serialization, refs(&[1, 3, 4]));
    assert_eq!(t.exports[1].object_name, before.exports[1].object_name);
    assert_eq!(text_of(&t, t.exports[3].object_name), "Rock");
    assert_eq!(t.names.len(), before.names.len() + 1);
    assert!(t.is_well_formed());
}

#[test]
fn transplant_carries_the_subgraph() {
    let mut t = target();
    let d = donor();
    let report = transplant(&mut t, &d, RefIndex::new(4)).unwrap();
    assert_eq!(report.exports, pairs(&[(4, 4), (5, 5), (3, 6), (6, 7)]));
    assert_eq!(report.imports, pairs(&[(-2, -3), (-1, -4), (-4, -5), (-3, -6)]));
    assert_eq!(t.exports.len(), 7);
    assert_eq!(t.imports.len(), 6);
    assert!(t.is_well_formed());

    let before = target();
    assert_eq!(t.imports[..2], before.imports[..]);
    assert_eq!(t.exports[0], before.exports[0]);
    assert_eq!(t.exports[2], before.exports[2]);
    assert_eq!(t.exports[1].payload, Payload::Level { actors: refs(&[1, 3, 4]) });
    assert_eq!(t.exports[1].create_before_serialization, refs(&[1, 3, 4]));

    let door = &t.exports[3];
    assert_eq!(text_of(&t, door.object_name), "Door");
    assert_eq!(door.class_index, RefIndex::new(-3));
    assert_eq!(door.super_index, RefIndex::new(0));
    assert_eq!(door.template_index, RefIndex::new(-6));
    assert_eq!(door.outer_index, RefIndex::new(2));
    assert_eq!(door.create_before_serialization, refs(&[5, -3, 7, 5, 0]));
    assert_eq!(door.serialization_before_create, refs(&[-5, -3]));
    assert_eq!(door.create_before_create, refs(&[2, 8]));
    assert_eq!(door.payload, Payload::Normal);
    assert_eq!(door.properties.len(), 3);
    match &door.properties[0] {
        Property::Object { name, value } => {
            assert_eq!(text_of(&t, *name), "RootComponent");
            assert_eq!(*value, RefIndex::new(7));
        }
        other => panic!("{:?}", other),
    }
    match &door.properties[1] {
        Property::Name { name, value } => {
            assert_eq!(text_of(&t, *name), "Tag");
            assert_eq!(text_of(&t, *value), "Heavy");
        }
        other => panic!("{:?}", other),
    }
    match &door.properties[2] {
        Property::Array { name, value } => {
            assert_eq!(text_of(&t, *name), "Parts");
            let values: Vec<i32> = value
                .iter()
                .map(|p| match p {
                    Property::Object { value, .. } => value.index,
                    other => panic!("{:?}", other),
                })
                .collect();
            assert_eq!(values, vec![5, 0, 2]);
        }
        other => panic!("{:?}", other),
    }

    let mesh = &t.exports[6];
    assert_eq!(text_of(&t, mesh.object_name), "Mesh");
    assert_eq!(mesh.outer_index, RefIndex::new(4));
    assert_eq!(mesh.create_before_serialization, refs(&[6]));
    match &mesh.properties[0] {
        Property::Object { value, .. } => assert_eq!(*value, RefIndex::new(-5)),
        other => panic!("{:?}", other),
    }
    match &mesh.properties[1] {
        Property::Struct { name, struct_type, value } => {
            assert_eq!(text_of(&t, *name), "RelativeLocation");
            assert_eq!(text_of(&t, struct_type.unwrap()), "Vector");
            assert_eq!(value, &vec![Property::Vector { name: *name, x: 1, y: 2, z: 3 }]);
        }
        other => panic!("{:?}", other),
    }
    match &mesh.properties[2] {
        Property::Enum { name, value, enum_type } => {
            assert_eq!(text_of(&t, *name), "Mobility");
            assert_eq!(text_of(&t, value.unwrap()), "EComponentMobility::Static");
            assert_eq!(text_of(&t, enum_type.unwrap()), "EComponentMobility");
        }
        other => panic!("{:?}", other),
    }
    match &mesh.properties[3] {
        Property::Scalar { kind, name } => {
            assert_eq!(*kind, ScalarKind::Bool);
            assert_eq!(text_of(&t, *name), "Tag");
        }
        other => panic!("{:?}", other),
    }

    assert_eq!(text_of(&t, t.exports[5].object_name), "Shared");
    let hinge = &t.exports[4];
    assert_eq!(text_of(&t, hinge.object_name), "Hinge");
    assert_eq!(hinge.create_before_serialization, refs(&[6, 4]));
    assert_eq!(hinge.outer_index, RefIndex::new(4));

    let objects: Vec<&str> = t.imports.iter().map(|i| text_of(&t, i.object_name)).collect();
    assert_eq!(
        objects,
        vec!["/Script/Engine", "Actor", "StaticMeshActor", "/Script/Engine", "Door", "/Game/Meshes/Door"]
    );
    let outers: Vec<i32> = t.imports.iter().map(|i| i.outer_index.index).collect();
    assert_eq!(outers, vec![0, -1, -4, 0, -6, 0]);
    assert_eq!(text_of(&t, t.imports[4].class_package), "/Script/Engine");
    assert_eq!(text_of(&t, t.imports[4].class_name), "StaticMesh");
}

#[test]
fn transplant_interns_names_in_walking_order() {
    let mut t = target();
    let d = donor();
    let before = t.names.len();
    transplant(&mut t, &d, RefIndex::new(4)).unwrap();
    let added: Vec<&str> = t.names.names[before..].iter().map(|s| s.as_str()).collect();
    assert_eq!(
        added,
        vec![
            "Door",
            "RootComponent",
            "Tag",
            "Heavy",
            "Parts",
            "Hinge",
            "Owner",
            "Shared",
            "Mesh",
            "StaticMesh",
            "RelativeLocation",
            "Vector",
            "Mobility",
            "EComponentMobility::Static",
            "EComponentMobility",
            "StaticMeshActor",
            "/Game/Meshes/Door",
        ]
    );
    assert_eq!(t.names.names[..before], target().names.names[..]);
}

#[test]
fn transplanted_references_resolve_in_the_target() {
    let mut t = target();
    let mut d = donor();
    d.exports[3].create_before_create = refs(&[1, 5]);
    d.exports[3].template_index = RefIndex::new(-2);
    let report = transplant(&mut t, &d, RefIndex::new(4)).unwrap();
    fn check(t: &AssetGraph, ps: &Vec<Property>) {
        for p in ps {
            match p {
                Property::Object { value, .. } => assert!(t.resolves(*value)),
                Property::Struct { value, .. } => check(t, value),
                Property::Array { value, .. } => check(t, value),
                _ => {}
            }
        }
    }
    for (_, at) in &report.exports {
        let e = t.get_export(*at).unwrap();
        for r in [e.class_index, e.super_index, e.template_index, e.outer_index] {
            assert!(t.resolves(r));
        }
        for r in e
            .create_before_serialization
            .iter()
            .chain(e.serialization_before_create.iter())
            .chain(e.create_before_create.iter())
        {
            assert!(t.resolves(*r));
        }
        check(&t, &e.properties);
    }
    for (_, at) in &report.imports {
        assert!(t.resolves(t.get_import(*at).unwrap().outer_index));
    }
    match &t.exports[1].payload {
        Payload::Level { actors } => {
            assert_eq!(actors.last(), Some(&report.exports[0].1));
            assert!(t.resolves(*actors.last().unwrap()));
        }
        Payload::Normal => panic!("the level stays a level"),
    }
}

#[test]
fn transplant_keeps_references_outside_the_subgraph() {
    let mut t = target();
    let d = donor();
    transplant(&mut t, &d, RefIndex::new(4)).unwrap();
    // Export 8 of the donor is no part of the subgraph: the reference to it
    // is carried as it stands and selects nothing in the target.
    assert_eq!(t.exports[3].create_before_create, refs(&[2, 8]));
    assert!(!t.resolves(RefIndex::new(8)));
}

#[test]
fn transplant_differs_only_by_what_was_there() {
    let mut d = donor();
    // Every reference of the subgraph has an entry in the table.
    d.exports[3].template_index = RefIndex::new(-4);
    d.exports[3].create_before_create = refs(&[1, 6]);
    let mut small = target();
    let mut large = larger_target();
    let (n1, m1, level1) = (3, 2, 2);
    let (n2, m2, level2) = (7, 4, 6);
    let r1 = transplant(&mut small, &d, RefIndex::new(4)).unwrap();
    let r2 = transplant(&mut large, &d, RefIndex::new(4)).unwrap();
    assert_eq!(r1.exports.len(), r2.exports.len());
    assert_eq!(r1.imports.len(), r2.imports.len());
    let relative = |r: RefIndex, n: i32, m: i32, level: i32| -> (u8, i32) {
        if r.index == level {
            (0, 0)
        } else if r.index > n {
            (1, r.index - n)
        } else if r.index < -m {
            (2, -r.index - m)
        } else {
            (3, r.index)
        }
    };
    fn shape(
        g: &AssetGraph,
        ps: &Vec<Property>,
        rel: &dyn Fn(RefIndex) -> (u8, i32),
        out: &mut Vec<String>,
    ) {
        for p in ps {
            match p {
                Property::Name { name, value } => out.push(format!(
                    "name {} {}",
                    g.names.lookup(*name).unwrap(),
                    g.names.lookup(*value).unwrap()
                )),
                Property::Object { name, value } => {
                    out.push(format!("object {} {:?}", g.names.lookup(*name).unwrap(), rel(*value)))
                }
                Property::Struct { name, struct_type, value } => {
                    out.push(format!(
                        "struct {} {:?}",
                        g.names.lookup(*name).unwrap(),
                        struct_type.map(|t| g.names.lookup(t).unwrap().to_string())
                    ));
                    shape(g, value, rel, out);
                    out.push("end".to_string());
                }
                Property::Array { name, value } => {
                    out.push(format!("array {}", g.names.lookup(*name).unwrap()));
                    shape(g, value, rel, out);
                    out.push("end".to_string());
                }
                Property::Vector { name, x, y, z } => out.push(format!(
                    "vector {} {} {} {}",
                    g.names.lookup(*name).unwrap(),
                    x,
                    y,
                    z
                )),
                Property::Rotator { name, x, y, z } => out.push(format!(
                    "rotator {} {} {} {}",
                    g.names.lookup(*name).unwrap(),
                    x,
                    y,
                    z
                )),
                Property::Scalar { kind, name } => {
                    out.push(format!("scalar {:?} {}", kind, g.names.lookup(*name).unwrap()))
                }
                Property::Enum { name, value, enum_type } => out.push(format!(
                    "enum {} {:?} {:?}",
                    g.names.lookup(*name).unwrap(),
                    value.map(|t| g.names.lookup(t).unwrap().to_string()),
                    enum_type.map(|t| g.names.lookup(t).unwrap().to_string())
                )),
                Property::Unsupported { name } => {
                    out.push(format!("other {}", g.names.lookup(*name).unwrap()))
                }
            }
        }
    }
    for k in 0..r1.exports.len() {
        assert_eq!(r1.exports[k].0, r2.exports[k].0);
        assert_eq!(r1.exports[k].1.index - n1, r2.exports[k].1.index - n2);
        let a = small.get_export(r1.exports[k].1).unwrap();
        let b = large.get_export(r2.exports[k].1).unwrap();
        assert_eq!(text_of(&small, a.object_name), text_of(&large, b.object_name));
        let rel1 = |r: RefIndex| relative(r, n1, m1, level1);
        let rel2 = |r: RefIndex| relative(r, n2, m2, level2);
        assert_eq!(rel1(a.class_index), rel2(b.class_index));
        assert_eq!(rel1(a.template_index), rel2(b.template_index));
        assert_eq!(rel1(a.outer_index), rel2(b.outer_index));
        let deps1: Vec<(u8, i32)> = a
            .create_before_serialization
            .iter()
            .chain(a.serialization_before_create.iter())
            .chain(a.create_before_create.iter())
            .map(|r| rel1(*r))
            .collect();
        let deps2: Vec<(u8, i32)> = b
            .create_before_serialization
            .iter()
            .chain(b.serialization_before_create.iter())
            .chain(b.create_before_create.iter())
            .map(|r| rel2(*r))
            .collect();
        assert_eq!(deps1, deps2);
        let mut s1 = Vec::new();
        let mut s2 = Vec::new();
        shape(&small, &a.properties, &rel1, &mut s1);
        shape(&large, &b.properties, &rel2, &mut s2);
        assert_eq!(s1, s2);
        assert!(!s1.is_empty() || a.properties.is_empty());
    }
    for k in 0..r1.imports.len() {
        assert_eq!(r1.imports[k].0, r2.imports[k].0);
        assert_eq!(-r1.imports[k].1.index - m1, -r2.imports[k].1.index - m2);
        let a = small.get_import(r1.imports[k].1).unwrap();
        let b = large.get_import(r2.imports[k].1).unwrap();
        assert_eq!(text_of(&small, a.object_name), text_of(&large, b.object_name));
        assert_eq!(text_of(&small, a.class_name), text_of(&large, b.class_name));
        assert_eq!(text_of(&small, a.class_package), text_of(&large, b.class_package));
        assert_eq!(
            relative(a.outer_index, n1, m1, level1),
            relative(b.outer_index, n2, m2, level2)
        );
    }
}

#[test]
fn transplant_into_equal_targets_is_equal() {
    let d = donor();
    let mut a = target();
    let mut b = target();
    let ra = transplant(&mut a, &d, RefIndex::new(5)).unwrap();
    let rb = transplant(&mut b, &d, RefIndex::new(5)).unwrap();
    assert_eq!(a, b);
    assert_eq!(ra.exports, rb.exports);
    assert_eq!(ra.imports, rb.imports);
}

#[test]
fn transplant_twice_sees_the_first() {
    let mut t = target();
    let d = donor();
    let first = transplant(&mut t, &d, RefIndex::new(7)).unwrap();
    let second = transplant(&mut t, &d, RefIndex::new(7)).unwrap();
    assert_eq!(first.exports, pairs(&[(7, 4)]));
    assert_eq!(second.exports, pairs(&[(7, 5)]));
    assert_eq!(t.exports.len(), 5);
    assert_eq!(t.exports[1].payload, Payload::Level { actors: refs(&[1, 3, 4, 5]) });
    assert_eq!(t.exports[3].object_name, t.exports[4].object_name);
    assert!(t.is_well_formed());
}

fn refused(t: &mut AssetGraph, d: &AssetGraph, root: i32) -> EditError {
    let result: Result<TransplantReport, EditError> = transplant(t, d, RefIndex::new(root));
    match result {
        Ok(report) => panic!("{:?}", report),
        Err(e) => e,
    }
}

#[test]
fn transplant_needs_level_roots() {
    let d = donor();
    let mut t = AssetGraph::new();
    export(&mut t, "Floor", &[]);
    assert_eq!(refused(&mut t, &d, 7), EditError::LevelRootNotFound);
    assert_eq!(t.exports.len(), 1);
    let mut no_level = AssetGraph::new();
    export(&mut no_level, "Rock", &[]);
    let mut t = target();
    assert_eq!(refused(&mut t, &no_level, 1), EditError::LevelRootNotFound);
    assert_eq!(t, target());
}

#[test]
fn transplant_needs_an_export_as_root() {
    let d = donor();
    for root in [0, 9, -1, i32::MAX, i32::MIN] {
        let mut t = target();
        assert_eq!(refused(&mut t, &d, root), EditError::AmbiguousRootSelector);
        assert_eq!(t, target());
    }
}

#[test]
fn transplant_refuses_the_level_root_itself() {
    let d = donor();
    let mut t = target();
    assert_eq!(refused(&mut t, &d, 1), EditError::RemapConsistencyError);
    assert_eq!(t, target());
    let mut e = donor();
    e.exports[6].create_before_serialization = refs(&[1]);
    assert_eq!(refused(&mut t, &e, 7), EditError::RemapConsistencyError);
    assert_eq!(t, target());
}

#[test]
fn transplant_refuses_dangling_dependencies() {
    let mut t = target();
    let mut d = donor();
    d.exports[6].create_before_serialization = refs(&[9]);
    assert_eq!(refused(&mut t, &d, 7), EditError::RemapConsistencyError);
    let mut d = donor();
    d.exports[6].serialization_before_create = refs(&[-7]);
    assert_eq!(refused(&mut t, &d, 7), EditError::RemapConsistencyError);
    assert_eq!(t, target());
}

#[test]
fn transplant_refuses_unmapped_object_property() {
    let mut t = target();
    let mut d = donor();
    let n = name(&mut d, "Target");
    d.exports[6].properties = vec![Property::Array {
        name: n,
        value: vec![Property::Object { name: n, value: RefIndex::new(8) }],
    }];
    assert_eq!(refused(&mut t, &d, 7), EditError::RemapConsistencyError);
    assert_eq!(t, target());
    d.exports[6].properties = vec![Property::Object { name: n, value: RefIndex::new(-2) }];
    assert_eq!(refused(&mut t, &d, 7), EditError::RemapConsistencyError);
    d.exports[6].properties = vec![Property::Object { name: n, value: RefIndex::new(1) }];
    assert!(transplant(&mut t, &d, RefIndex::new(7)).is_ok());
}

#[test]
fn transplant_refuses_import_chain_of_three() {
    let mut t = target();
    let mut d = donor();
    d.exports[6].create_before_serialization = refs(&[-5]);
    // -5 lies in -4, which lies in -3: only -4 is taken along with -5.
    assert_eq!(refused(&mut t, &d, 7), EditError::RemapConsistencyError);
    assert_eq!(t, target());
    d.exports[6].create_before_serialization = refs(&[-5, -4]);
    assert_eq!(refused(&mut t, &d, 7), EditError::RemapConsistencyError);
    d.exports[6].create_before_serialization = refs(&[-4, -5]);
    let report = transplant(&mut t, &d, RefIndex::new(7)).unwrap();
    assert_eq!(report.imports, pairs(&[(-4, -3), (-3, -4), (-5, -5)]));
}

#[test]
fn transplant_refuses_unsupported_property() {
    let mut t = target();
    let mut d = donor();
    let n = name(&mut d, "Curve");
    d.exports[6].properties = vec![Property::Struct {
        name: n,
        struct_type: None,
        value: vec![Property::Unsupported { name: n }],
    }];
    assert_eq!(refused(&mut t, &d, 7), EditError::UnsupportedPropertyKind);
    assert_eq!(t, target());
    // An unsupported property is refused before a reference without entry.
    d.exports[6].properties.push(Property::Object { name: n, value: RefIndex::new(8) });
    assert_eq!(refused(&mut t, &d, 7), EditError::UnsupportedPropertyKind);
    // Outside the subgraph it does no harm.
    let mut d = donor();
    let n = name(&mut d, "Curve");
    d.exports[7].properties = vec![Property::Unsupported { name: n }];
    assert!(transplant(&mut t, &d, RefIndex::new(7)).is_ok());
}

#[test]
fn transplant_copies_a_level_payload_as_it_is() {
    let mut t = target();
    let mut d = donor();
    d.exports[6].payload = Payload::Level { actors: refs(&[4, 7, -1]) };
    transplant(&mut t, &d, RefIndex::new(7)).unwrap();
    assert_eq!(t.exports[3].payload, Payload::Level { actors: refs(&[4, 7, -1]) });
}

#[test]
fn transplant_all_carries_each_root_in_turn() {
    let mut t = target();
    let d = donor();
    let run = transplant_all(&mut t, &d, &refs(&[7, 4, 7]));
    assert_eq!(run.stopped_by, None);
    assert_eq!(run.reports.len(), 3);
    assert_eq!(run.reports[0].exports, pairs(&[(7, 4)]));
    assert_eq!(run.reports[1].exports, pairs(&[(4, 5), (5, 6), (3, 7), (6, 8)]));
    assert_eq!(run.reports[1].imports, pairs(&[(-2, -3), (-1, -4), (-4, -5), (-3, -6)]));
    assert_eq!(run.reports[2].exports, pairs(&[(7, 9)]));
    assert_eq!(t.exports.len(), 9);
    assert_eq!(t.imports.len(), 6);
    assert_eq!(t.exports[1].payload, Payload::Level { actors: refs(&[1, 3, 4, 5, 9]) });
    assert!(t.is_well_formed());

    let mut one_by_one = target();
    for root in [7, 4, 7] {
        transplant(&mut one_by_one, &d, RefIndex::new(root)).unwrap();
    }
    assert_eq!(t, one_by_one);
}

#[test]
fn transplant_all_stops_at_the_first_failure() {
    let mut t = target();
    let d = donor();
    let run = transplant_all(&mut t, &d, &refs(&[7, 1, 4]));
    assert_eq!(run.stopped_by, Some(EditError::RemapConsistencyError));
    assert_eq!(run.reports.len(), 1);
    let mut expected = target();
    transplant(&mut expected, &d, RefIndex::new(7)).unwrap();
    assert_eq!(t, expected);
}

#[test]
fn transplant_all_of_nothing_changes_nothing() {
    let mut t = target();
    let run = transplant_all(&mut t, &donor(), &Vec::new());
    assert_eq!(run.stopped_by, None);
    assert!(run.reports.is_empty());
    assert_eq!(t, target());
}
