use uasset_edit::name_table::{NameRef, NameTable};
use uasset_edit::reference::{RefIndex, RefKind};
use uasset_edit::text::{
    chars_of, parse_decimal_i32, replace_text, split_first, split_text, text_contains,
};
use uasset_edit::EditError;

#[test]
fn reference_kinds() {
    assert_eq!(RefIndex::new(0).kind(), RefKind::Null);
    assert_eq!(RefIndex::null().kind(), RefKind::Null);
    assert_eq!(RefIndex::new(1).kind(), RefKind::Export(0));
    assert_eq!(RefIndex::new(5).kind(), RefKind::Export(4));
    assert_eq!(RefIndex::new(-1).kind(), RefKind::Import(0));
    assert_eq!(RefIndex::new(-5).kind(), RefKind::Import(4));
    assert_eq!(RefIndex::new(i32::MAX).kind(), RefKind::Export(i32::MAX as u32 - 1));
    assert_eq!(RefIndex::new(i32::MIN).kind(), RefKind::Import(i32::MAX as u32));
}

#[test]
fn reference_positions() {
    assert_eq!(RefIndex::new(3).export_position(), Some(2));
    assert_eq!(RefIndex::new(3).import_position(), None);
    assert_eq!(RefIndex::new(-3).import_position(), Some(2));
    assert_eq!(RefIndex::new(-3).export_position(), None);
    assert_eq!(RefIndex::new(0).export_position(), None);
    assert_eq!(RefIndex::new(0).import_position(), None);
    assert_eq!(RefIndex::new(i32::MIN).import_position(), Some(i32::MAX as usize));
}

#[test]
fn reference_from_positions() {
    assert_eq!(RefIndex::from_export_position(0), Some(RefIndex::new(1)));
    assert_eq!(RefIndex::from_export_position(6), Some(RefIndex::new(7)));
    assert_eq!(RefIndex::from_import_position(0), Some(RefIndex::new(-1)));
    assert_eq!(RefIndex::from_import_position(6), Some(RefIndex::new(-7)));
    assert_eq!(
        RefIndex::from_export_position(i32::MAX as usize - 1),
        Some(RefIndex::new(i32::MAX))
    );
    assert_eq!(RefIndex::from_export_position(i32::MAX as usize), None);
    assert_eq!(
        RefIndex::from_import_position(i32::MAX as usize),
        Some(RefIndex::new(i32::MIN))
    );
    assert_eq!(RefIndex::from_import_position(i32::MAX as usize + 1), None);
}

#[test]
fn reference_kind_round_trip() {
    for i in [0, 1, -1, 2, -2, 1000, -1000, i32::MAX, i32::MIN, i32::MIN + 1] {
        let r = RefIndex::new(i);
        assert_eq!(r.kind().to_index(), Some(r));
    }
    assert_eq!(RefKind::Export(i32::MAX as u32).to_index(), None);
    assert_eq!(RefKind::Import(i32::MAX as u32 + 1).to_index(), None);
    assert_eq!(RefKind::Null.to_index(), Some(RefIndex::new(0)));
}

#[test]
fn error_messages_differ() {
    let all = [
        EditError::InputNotFound,
        EditError::CodecParseError,
        EditError::CodecWriteError,
        EditError::ImportNotFound,
        EditError::PropertyNotFound,
        EditError::StructNotFound,
        EditError::LevelRootNotFound,
        EditError::MalformedExpression,
        EditError::UnsupportedPropertyKind,
        EditError::RemapConsistencyError,
        EditError::AmbiguousRootSelector,
    ];
    for (i, a) in all.iter().enumerate() {
        assert!(!a.message().is_empty());
        for (j, b) in all.iter().enumerate() {
            if i != j {
                assert_ne!(a.message(), b.message());
            }
        }
    }
    assert_eq!(EditError::ImportNotFound.message(), "import not found");
}

#[test]
fn chars_of_text() {
    assert_eq!(chars_of("a\u{e9}z"), vec!['a', '\u{e9}', 'z']);
    assert_eq!(chars_of(""), Vec::<char>::new());
}

#[test]
fn contains_text_cases() {
    assert!(text_contains("Level_A_C", "Level_A"));
    assert!(text_contains("Level_A_C", "_C"));
    assert!(text_contains("Level_A_C", "Level_A_C"));
    assert!(text_contains("Level_A_C", ""));
    assert!(text_contains("", ""));
    assert!(!text_contains("", "a"));
    assert!(!text_contains("Level_A_C", "Level_B"));
    assert!(!text_contains("abc", "abcd"));
    assert!(text_contains("aab", "ab"));
}

#[test]
fn replace_text_like_std() {
    let cases = [
        ("/Game/Maps/Old", "Old", "New"),
        ("OldOldOld", "Old", "New"),
        ("aaa", "aa", "b"),
        ("aaaa", "aa", "b"),
        ("abc", "", "-"),
        ("", "", "-"),
        ("", "a", "b"),
        ("abc", "abcd", "x"),
        ("abc", "abc", ""),
        ("xabcx", "abc", "abcabc"),
        ("h\u{e9}llo w\u{f6}rld", "\u{f6}", "oe"),
        ("abab", "ab", "ba"),
    ];
    for (s, from, to) in cases {
        assert_eq!(replace_text(s, from, to), s.replace(from, to));
    }
    assert_eq!(replace_text("aaa", "aa", "b"), "ba");
    assert_eq!(replace_text("abc", "", "-"), "-a-b-c-");
    assert_eq!(replace_text("Map_Old_C", "Map_Old", "Map_New"), "Map_New_C");
}

#[test]
fn split_text_like_std() {
    let cases = ["5.RelativeLocation.RelativeLocation", "", ".", "a.", ".a", "a..b", "abc"];
    for s in cases {
        let expected: Vec<String> = s.split('.').map(|p| p.to_string()).collect();
        assert_eq!(split_text(s, '.'), expected);
    }
    assert_eq!(split_text("1,2,3", ','), vec!["1", "2", "3"]);
    assert_eq!(split_text("", ','), vec![""]);
}

#[test]
fn split_first_cases() {
    assert_eq!(split_first("a=b", '='), Some(("a".to_string(), "b".to_string())));
    assert_eq!(split_first("a=b=c", '='), Some(("a".to_string(), "b=c".to_string())));
    assert_eq!(split_first("=", '='), Some((String::new(), String::new())));
    assert_eq!(split_first("abc", '='), None);
    assert_eq!(split_first("", '='), None);
}

#[test]
fn parse_decimal_like_std() {
    let cases = [
        "0", "5", "-5", "+5", "007", "2147483647", "2147483648", "-2147483648", "-2147483649",
        "", "+", "-", "--1", "+-1", "1a", "a1", " 1", "1 ", "99999999999999999999", "-0", "1_0",
        "\u{663}",
    ];
    for s in cases {
        assert_eq!(parse_decimal_i32(s), i32::from_str_radix(s, 10).ok(), "{}", s);
    }
    assert_eq!(parse_decimal_i32("42"), Some(42));
    assert_eq!(parse_decimal_i32("-2147483648"), Some(i32::MIN));
    assert_eq!(parse_decimal_i32("2147483648"), None);
}

#[test]
fn name_table_intern_and_lookup() {
    let mut table = NameTable::new();
    assert_eq!(table.len(), 0);
    let a = table.intern("Alpha");
    let b = table.intern("Beta");
    assert_eq!(a, NameRef { index: 0 });
    assert_eq!(b, NameRef { index: 1 });
    assert_eq!(table.len(), 2);
    assert_eq!(table.lookup(a), Some("Alpha"));
    assert_eq!(table.lookup(b), Some("Beta"));
    assert_eq!(table.lookup(NameRef { index: 2 }), None);
    assert_eq!(table.find("Beta"), Some(b));
    assert_eq!(table.find("beta"), None);
    assert!(table.resolves_to(a, &"Alpha".to_string()));
    assert!(!table.resolves_to(a, &"Beta".to_string()));
    assert!(!table.resolves_to(NameRef { index: 9 }, &"Alpha".to_string()));
}

#[test]
fn name_table_intern_again_returns_same_name() {
    let mut table = NameTable::new();
    let a = table.intern("Alpha");
    let b = table.intern("Beta");
    let before = table.names.clone();
    assert_eq!(table.intern("Alpha"), a);
    assert_eq!(table.intern("Beta"), b);
    assert_eq!(table.names, before);
    let c = table.intern("alpha");
    assert_eq!(c, NameRef { index: 2 });
    assert_eq!(table.names[..2], before[..]);
}

#[test]
fn name_table_intern_finds_first_of_doubles() {
    let mut table = NameTable {
        names: vec!["x".to_string(), "dup".to_string(), "dup".to_string()],
    };
    assert_eq!(table.intern("dup"), NameRef { index: 1 });
    assert_eq!(table.len(), 3);
}

#[test]
fn name_table_rename_matching() {
    let mut table = NameTable {
        names: vec![
            "/Game/Maps/Town".to_string(),
            "Town_C".to_string(),
            "Default__Town_C".to_string(),
            "PersistentLevel".to_string(),
            "TownTown".to_string(),
        ],
    };
    let touched = table.rename_matching("Town", "City");
    assert_eq!(touched, vec![0, 1, 2, 4]);
    assert_eq!(
        table.names,
        vec!["/Game/Maps/City", "City_C", "Default__City_C", "PersistentLevel", "CityCity"]
    );
    let none = table.rename_matching("Village", "Hamlet");
    assert_eq!(none, Vec::<usize>::new());
    assert_eq!(table.len(), 5);
}
