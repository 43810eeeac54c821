//! Tests of the row codec: name field, size spans, layout dispatch, and
//! the row table parser.

use iarmap::codec::{bs_to_spaceless_string, modulep, namep, sizep, NameOutcome, RowOutcome};
use iarmap::table::{module_table, ModuleMap};
use iarmap::Module;

#[test]
fn test_bs_to_spaceless_string() {
    let bs = " 123            4  56 ".as_bytes();
    assert_eq!(bs_to_spaceless_string(bs), Some("123456".into()))
}

#[test]
fn test_namep() {
    let bs = "    MVC_State_Observer_Interface.o ".as_bytes();
    let name = namep(bs, 35);
    assert_eq!(name, NameOutcome::Name("MVC_State_Observer_Interface.o".into()));
}

#[test]
fn test_sizep() {
    let bs = "  1 360".as_bytes();
    let size = sizep(bs);
    assert_eq!(size, Some(1360));
}

#[test]
fn test_module_all_three_values() {
    let bs = "    BigFoosBarsBaz.o                   532      569      103\n".as_bytes();
    let namedmod = modulep(bs, 35);
    assert_eq!(
        namedmod,
        RowOutcome::Row(
            "BigFoosBarsBaz.o".into(),
            Module { ro_code: Some(532), ro_data: Some(569), rw_data: Some(103) }
        )
    );
}

#[test]
fn test_module_missing_last_two() {
    let bs = "    BigFoosBarsBaz.o                   532\n".as_bytes();
    let expected = RowOutcome::Row(
        "BigFoosBarsBaz.o".into(),
        Module { ro_code: Some(532), ro_data: None, rw_data: None },
    );
    let actual = modulep(bs, 35);
    assert_eq!(actual, expected);
}

#[test]
fn test_module_missing_first_two() {
    let bs = "    BigFoosBarsBaz.o                                     103\n".as_bytes();
    let expected = RowOutcome::Row(
        "BigFoosBarsBaz.o".into(),
        Module { ro_code: None, ro_data: None, rw_data: Some(103) },
    );
    let actual = modulep(bs, 35);
    assert_eq!(actual, expected);
}

#[test]
fn test_module_missing_middle() {
    let bs = "    BigFoosBarsBaz.o                   532               103\n".as_bytes();
    let expected = RowOutcome::Row(
        "BigFoosBarsBaz.o".into(),
        Module { ro_code: Some(532), ro_data: None, rw_data: Some(103) },
    );
    let actual = modulep(bs, 35);
    assert_eq!(actual, expected);
}

#[test]
fn test_module_missing_last() {
    let bs = "    BigFoosBarsBaz.o                   166       32\n".as_bytes();
    let expected = RowOutcome::Row(
        "BigFoosBarsBaz.o".into(),
        Module { ro_code: Some(166), ro_data: Some(32), rw_data: None },
    );
    let actual = modulep(bs, 35);
    assert_eq!(actual, expected);
}

#[test]
fn test_module_missing_first() {
    let bs = "    UI_AccessoryFooBar.o                      7 348      128\n".as_bytes();
    let expected = RowOutcome::Row(
        "UI_AccessoryFooBar.o".into(),
        Module { ro_code: None, ro_data: Some(7348), rw_data: Some(128) },
    );
    let actual = modulep(bs, 35);
    assert_eq!(actual, expected);
}

#[test]
fn test_module_only_middle() {
    let bs = "    UI_wbstring_ENG.o                        13 172\n".as_bytes();
    let expected = RowOutcome::Row(
        "UI_wbstring_ENG.o".into(),
        Module { ro_code: None, ro_data: Some(13172), rw_data: None },
    );
    let actual = modulep(bs, 35);
    assert_eq!(actual, expected);
}

#[test]
fn test_module_table_one_row() {
    let table = b"    UI_AbstractFactoryThing.o          724      544\n";

    let mut expected = ModuleMap::new();
    expected.insert(
        "UI_AbstractFactoryThing.o".into(),
        Module { ro_code: Some(724), ro_data: Some(544), rw_data: None },
    );

    let (map, consumed) = module_table(table, 35);
    assert_eq!(map, expected);
    assert_eq!(consumed, table.len());
}

#[test]
fn test_module_table_two_row() {
    let table = b"    UI_AbstractFactoryThing.o          724      544\n    BigFoosBarsBaz.o                   532      569      103\n";

    let mut expected = ModuleMap::new();

    expected.insert(
        "UI_AbstractFactoryThing.o".into(),
        Module { ro_code: Some(724), ro_data: Some(544), rw_data: None },
    );

    expected.insert(
        "BigFoosBarsBaz.o".into(),
        Module { ro_code: Some(532), ro_data: Some(569), rw_data: Some(103) },
    );

    let (map, consumed) = module_table(table, 35);
    assert_eq!(map, expected);
    assert_eq!(consumed, table.len());
}

#[test]
fn test_module_table_three_row() {
    let table = b"    UI_AbstractFactoryThing.o          724      544\n    BigFoosBarsBaz.o                   532      569      103\n    UI_FoosBars.o                                88       16\n";

    let mut expected = ModuleMap::new();

    expected.insert(
        "UI_AbstractFactoryThing.o".into(),
        Module { ro_code: Some(724), ro_data: Some(544), rw_data: None },
    );

    expected.insert(
        "BigFoosBarsBaz.o".into(),
        Module { ro_code: Some(532), ro_data: Some(569), rw_data: Some(103) },
    );

    expected.insert(
        "UI_FoosBars.o".into(),
        Module { ro_code: None, ro_data: Some(88), rw_data: Some(16) },
    );

    let (map, consumed) = module_table(table, 35);
    assert_eq!(map, expected);
    assert_eq!(consumed, table.len());
}

#[test]
fn test_module_table_empty_row() {
    let table = b"";

    let empty = ModuleMap::new();

    let (map, consumed) = module_table(table, 35);
    assert_eq!(map, empty);
    assert_eq!(consumed, 0);
}
