//! Tests of the section scanner: the banner, the column header, whole
//! groups, and the complete map file parse.

use iarmap::scan::{find_header, header, obj_header, table_start, tablep, until_star};
use iarmap::table::{module_table, ModuleMap};
use iarmap::{parse_map_file, Module, ObjModuleTable};

#[test]
fn test_parse_header() {
    let h = "*******************************************************************************
*** MODULE SUMMARY
***"
        .as_bytes();

    assert_eq!(header(h), Some(h.len()));
}

#[test]
fn test_parse_table_start() {
    let h = "    Module                         ro code  ro data  rw data
    ------                         -------  -------  -------"
        .as_bytes();

    assert_eq!(table_start(h), Some(h.len()));
}

#[test]
fn test_parse_obj_header() {
    let h = "C:\\proj\\A\n".as_bytes();
    assert_eq!(obj_header(h), Some(("C:\\proj\\A".into(), h.len())));
}

#[test]
fn test_module_table_three_row_with_ending() {
    let table = b"                        Foo.o          724      544\n               Bar.o                   532      569      103\n            Baz.o                                88       16\n        --------------------------------------------------------\n    some other garbage";

    let mut expected = ModuleMap::new();
    let rest = b"        --------------------------------------------------------\n    some other garbage";

    expected.insert("Foo.o".into(), Module { ro_code: Some(724), ro_data: Some(544), rw_data: None });

    expected.insert(
        "Bar.o".into(),
        Module { ro_code: Some(532), ro_data: Some(569), rw_data: Some(103) },
    );

    expected.insert("Baz.o".into(), Module { ro_code: None, ro_data: Some(88), rw_data: Some(16) });

    let (map, consumed) = module_table(table, 35);
    assert_eq!(map, expected);
    assert_eq!(consumed, table.len() - rest.len());
}

#[test]
fn test_empty_table() {
    let input = "command line: [2]
    --------------------------------------------------------
    Total:\n"
        .as_bytes();
    let expected_map = ModuleMap::new();
    let result = tablep(input, 35);
    assert_eq!(
        result,
        Some((ObjModuleTable { name: "command line: [2]".into(), table: expected_map }, input.len()))
    );
}

#[test]
fn test_complete_parse_table() {
    let table = "myarchive.a: [6]
    libFoos.o                        6 258      300
    libBars.o                          638      112
    libBaz.o                                    768      768
    libHey.o                           122
    --------------------------------------------------------
    Total:                           5 700      244      240\n"
        .as_bytes();

    let mut exected_map = ModuleMap::new();

    exected_map.insert(
        "libFoos.o".into(),
        Module { ro_code: Some(6258), ro_data: Some(300), rw_data: None },
    );

    exected_map.insert(
        "libBars.o".into(),
        Module { ro_code: Some(638), ro_data: Some(112), rw_data: None },
    );

    exected_map.insert(
        "libBaz.o".into(),
        Module { ro_code: None, ro_data: Some(768), rw_data: Some(768) },
    );

    exected_map.insert("libHey.o".into(), Module { ro_code: Some(122), ro_data: None, rw_data: None });

    let expected_obj_name: String = "myarchive.a: [6]".into();

    let result = tablep(table, 35);
    assert_eq!(
        result,
        Some((ObjModuleTable { name: expected_obj_name, table: exected_map }, table.len()))
    );
}

#[test]
fn test_parse_until_header() {
    let input = "
Here's some other content we don't care about...
There's a lot of other content we don't care about,
but we just ramble here to simulate that 'other content.'

*******************************************************************************
*** MODULE SUMMARY
***"
        .as_bytes();

    let result = find_header(input);
    assert_eq!(result, Some(input.len()));
}

#[test]
fn test_parse_table_to_end() {
    let input = "FileSys.a: [3]
    FAT_CheckDisk.o                  2 924       48       16
    FAT_Dir.o                          536       24
    --------------------------------------------------------
    Total:                              68

    Gaps                                96       90        9
    Linker created                               88  378 432
------------------------------------------------------------
    Grand Total:                   492 776  630 240  591 176


*******************************************************************************
*** ENTRY LIST
***

Entry                      Address    Size  Type      Object
-----                      -------    ----  ----      ------
.iar.dynexit$$Base      0x20004294           --   Gb  - Linker created -
.iar.dynexit$$Limit     0x200044e0           --   Gb  - Linker created -"
        .as_bytes();

    let rest = "*******************************************************************************
*** ENTRY LIST
***

Entry                      Address    Size  Type      Object
-----                      -------    ----  ----      ------
.iar.dynexit$$Base      0x20004294           --   Gb  - Linker created -
.iar.dynexit$$Limit     0x200044e0           --   Gb  - Linker created -"
        .as_bytes();

    let mut files = ModuleMap::new();
    files.insert(
        "FAT_CheckDisk.o".into(),
        Module { ro_code: Some(2_924), ro_data: Some(48), rw_data: Some(16) },
    );
    files.insert(
        "FAT_Dir.o".into(),
        Module { ro_code: Some(536), ro_data: Some(24), rw_data: None },
    );

    let result = tablep(input, 35);
    assert!(result.is_some());
    let (ObjModuleTable { name, table: map }, consumed) = result.unwrap();

    let star = until_star(&input[consumed..]).unwrap();
    assert_eq!(&input[consumed + star..], rest);

    assert_eq!(name, String::from("FileSys.a: [3]"));
    assert_eq!(map, files);
}

#[test]
fn test_parse_map_file() {
    let input = "###############################################################################
#                                                                             #
# THE TYPICAL IAR HEADER                                22/Nov/2016  10:18:24 #
# Copyright (C) YYYY-YYYY Fake company here                                   #
#                                                                             #

*******************************************************************************
*** WHO CARES
***
  .rodata             const    0x080db594     0x28  error.o [1]
  .rodata             const    0x080db5bc     0x28  error.o [1]
  .rodata             const    0x080db5e4     0x28  error.o [1]
  .text               ro code  0x080de6f4     0x24  error.o [1]
  .text               ro code  0x080de718     0x24  error.o [1]
  .text               ro code  0x080de73c     0x24  error.o [1]
  .text               ro code  0x080de760     0x24  error.o [1]
  .text               ro code  0x080de784     0x24  error.o [1]
  .text               ro code  0x080de7a8     0x22  error.o [1]
  .text               ro code  0x080de7ca     0x22  error.o [1]
  .text               ro code  0x080de7ec     0x22  error.o [1]
  .text               ro code  0x080de80e     0x22  error.o [1]
  .text               ro code  0x080de830     0x22  error.o [1]
  .text               ro code  0x080de852     0x22  error.o [1]
  .iar.init_table     const    0x080de874     0x54  - Linker created -
  .rodata             const    0x080de8c8     0x20  error.o [1]
  .rodata             const    0x080de8e8     0x20  error.o [1]
Here's some other content we don't care about...
There's a lot of other content we don't care about,
but we just ramble here to simulate that 'other content.'

*******************************************************************************
*** MODULE SUMMARY
***

    Module                         ro code  ro data  rw data
    ------                         -------  -------  -------
C:\\!prj\\Foo\\Bar\\Baz\\Obj: [1]
    The_Alarm_Logging.o                 88      152       72
    Alarm_Log.o                        390
    More_Alarm_Log.o                   168                20
    --------------------------------------------------------
    Total:                         385 176  616 821  210 147

command line: [2]
    --------------------------------------------------------
    Total:

FileSys.a: [3]
    FAT_CheckDisk.o                  2 924       48       16
    FAT_Dir.o                          536       24
    --------------------------------------------------------
    Total:                              68

    Gaps                                96       90        9
    Linker created                               88  378 432
------------------------------------------------------------
    Grand Total:                   492 776  630 240  591 176


*******************************************************************************
*** ENTRY LIST
***

Entry                      Address    Size  Type      Object
-----                      -------    ----  ----      ------
.iar.dynexit$$Base      0x20004294           --   Gb  - Linker created -
.iar.dynexit$$Limit     0x200044e0           --   Gb  - Linker created -
?main                   0x080e499d          Code  Gb  cmain.o [7]"
        .as_bytes();

    let mut table1 = ModuleMap::new();
    table1.insert(
        "The_Alarm_Logging.o".into(),
        Module { ro_code: Some(88), ro_data: Some(152), rw_data: Some(72) },
    );
    table1.insert(
        "Alarm_Log.o".into(),
        Module { ro_code: Some(390), ro_data: None, rw_data: None },
    );
    table1.insert(
        "More_Alarm_Log.o".into(),
        Module { ro_code: Some(168), ro_data: None, rw_data: Some(20) },
    );

    let table2 = ModuleMap::new();

    let mut table3 = ModuleMap::new();
    table3.insert(
        "FAT_CheckDisk.o".into(),
        Module { ro_code: Some(2_924), ro_data: Some(48), rw_data: Some(16) },
    );
    table3.insert(
        "FAT_Dir.o".into(),
        Module { ro_code: Some(536), ro_data: Some(24), rw_data: None },
    );

    let m1 = ObjModuleTable { name: "C:\\!prj\\Foo\\Bar\\Baz\\Obj: [1]".into(), table: table1 };
    let m2 = ObjModuleTable { name: "command line: [2]".into(), table: table2 };
    let m3 = ObjModuleTable { name: "FileSys.a: [3]".into(), table: table3 };

    let expected = vec![m1, m2, m3];

    let result = parse_map_file(input);
    assert_eq!(result.is_ok(), true);

    let actual = result.unwrap();
    assert_eq!(actual, expected);
}
