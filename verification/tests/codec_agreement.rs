use uasset_edit::name_map::{read_names, write_names};
use uasset_edit::{NameRef, NameTable, RefIndex, RefKind};
use unreal_asset::asset::name_map::NameMap;
use unreal_asset::types::PackageIndex;

#[test]
fn interning_agrees_with_the_codec_name_map() {
    let texts = [
        "None",
        "PersistentLevel",
        "/Script/Engine",
        "None",
        "StaticMeshActor",
        "staticmeshactor",
        "",
        "PersistentLevel",
        "RelativeLocation",
        "",
    ];
    let mut map = NameMap::new();
    let mut table = NameTable::new();
    for text in texts {
        let theirs = map.get_mut().add_name_reference(text.to_string(), false);
        let ours = table.intern(text);
        assert_eq!(ours, NameRef { index: theirs as usize }, "{}", text);
    }
    assert_eq!(table.names, map.get_ref().get_name_map_index_list().to_vec());
    for (i, text) in table.names.iter().enumerate() {
        assert_eq!(map.get_ref().get_name_reference(i as i32), *text);
        assert_eq!(table.lookup(NameRef { index: i }), Some(text.as_str()));
        assert_eq!(map.get_ref().search_name_reference(text), Some(i as i32));
        assert_eq!(table.find(text), Some(NameRef { index: i }));
    }
    assert_eq!(map.get_ref().search_name_reference("Missing"), None);
    assert_eq!(table.find("Missing"), None);
}

#[test]
fn references_agree_with_the_codec_package_index() {
    for i in [0, 1, -1, 2, -2, 77, -77, i32::MAX, i32::MIN + 1] {
        let theirs = PackageIndex::new(i);
        let ours = RefIndex::new(theirs.index);
        assert_eq!(theirs.is_export(), matches!(ours.kind(), RefKind::Export(_)));
        assert_eq!(theirs.is_import(), matches!(ours.kind(), RefKind::Import(_)));
        assert_eq!(!theirs.is_export() && !theirs.is_import(), ours.kind() == RefKind::Null);
    }
    for position in [0, 1, 6, 1000] {
        let export = PackageIndex::from_export(position).unwrap();
        let import = PackageIndex::from_import(position).unwrap();
        assert_eq!(
            RefIndex::from_export_position(position as usize),
            Some(RefIndex::new(export.index))
        );
        assert_eq!(
            RefIndex::from_import_position(position as usize),
            Some(RefIndex::new(import.index))
        );
        assert_eq!(RefIndex::new(export.index).export_position(), Some(position as usize));
        assert_eq!(RefIndex::new(import.index).import_position(), Some(position as usize));
    }
}

fn held(map: &NameMap) -> Vec<String> {
    map.get_name_map_index_list().to_vec()
}

#[test]
fn names_are_read_from_the_name_map() {
    let mut map = NameMap::new();
    assert_eq!(read_names(&map.get_ref()), NameTable::new());
    for text in ["None", "Floor", "/Game/Maps/Town", "Floor"] {
        map.get_mut().add_name_reference(text.to_string(), true);
    }
    let table = read_names(&map.get_ref());
    assert_eq!(table.names, vec!["None", "Floor", "/Game/Maps/Town", "Floor"]);
    assert_eq!(table.lookup(NameRef { index: 2 }), Some("/Game/Maps/Town"));
}

#[test]
fn names_are_written_to_the_name_map() {
    let mut map = NameMap::new();
    for text in ["None", "Town_C", "/Game/Maps/Town"] {
        map.get_mut().add_name_reference(text.to_string(), false);
    }
    let mut table = read_names(&map.get_ref());
    table.rename_matching("Town", "City");
    table.intern("Door");
    table.intern("None");
    table.intern("Town_C");
    assert!(write_names(&mut map.get_mut(), &table));
    assert_eq!(held(&map.get_ref()), vec!["None", "City_C", "/Game/Maps/City", "Door", "Town_C"]);
    assert_eq!(held(&map.get_ref()), table.names);
    assert_eq!(map.get_ref().get_name_reference(3), "Door");
    // A second time there is nothing left to do.
    assert!(write_names(&mut map.get_mut(), &table));
    assert_eq!(held(&map.get_ref()), table.names);
}

#[test]
fn names_are_not_written_to_a_longer_name_map() {
    let mut map = NameMap::new();
    for text in ["None", "Floor", "Door"] {
        map.get_mut().add_name_reference(text.to_string(), false);
    }
    let table = NameTable { names: vec!["None".to_string(), "Lamp".to_string()] };
    assert!(!write_names(&mut map.get_mut(), &table));
    assert_eq!(held(&map.get_ref()), vec!["None", "Floor", "Door"]);
    let same = NameTable { names: held(&map.get_ref()) };
    assert!(write_names(&mut map.get_mut(), &same));
    assert_eq!(held(&map.get_ref()), vec!["None", "Floor", "Door"]);
}
