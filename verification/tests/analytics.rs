//! Tests of the diff engine, the record arithmetic and rendering, the
//! argument handling, and the parser's failure modes.

use iarmap::codec::{modulep, sizep, RowOutcome};
use iarmap::diff::{analyze, module_differences, try_analyze};
use iarmap::table::ModuleMap;
use iarmap::{handle_args, parse_map_file, Module, ObjModuleTable};

/// Builds one data row line: four spaces, the name left-aligned in the
/// remaining name column, then the sizes text.
fn row(name: &str, sizes: &str) -> String {
    format!("    {:<31}{}\n", name, sizes)
}

/// Builds a whole report around the given group sections.
fn report(groups: &str) -> Vec<u8> {
    format!(
        "*******************************************************************************\n\
         *** MODULE SUMMARY\n\
         ***\n\
         \n\
         {}\
         {}\n\
         {}\n",
        "    Module                         ro code  ro data  rw data\n    ------                         -------  -------  -------\n",
        groups,
        "*******************************************************************************\n*** ENTRY LIST\n***"
    )
    .into_bytes()
}

/// One group section: header, rows, terminator, totals line, blank line.
fn group(header: &str, rows: &str) -> String {
    format!(
        "{}\n{}    --------------------------------------------------------\n    Total:\n\n",
        header, rows
    )
}

#[test]
fn decode_right_aligned_sizes() {
    assert_eq!(sizep("    532".as_bytes()), Some(532));
    assert_eq!(sizep("   -123".as_bytes()), Some(-123));
    assert_eq!(sizep(" 9999999".as_bytes()), Some(9999999));
    assert_eq!(sizep("       ".as_bytes()), None);
    assert_eq!(sizep("  12x34".as_bytes()), None);
}

#[test]
fn subtraction_is_field_wise_and_partial() {
    let a = Module { ro_code: Some(10), ro_data: None, rw_data: Some(20) };
    let b = Module { ro_code: Some(5), ro_data: Some(4), rw_data: Some(11) };

    let expected = Module { ro_code: Some(5), ro_data: None, rw_data: Some(9) };
    assert_eq!(a.sub(&b), expected);

    let self_diff = a.sub(&a);
    assert_eq!(self_diff, Module { ro_code: Some(0), ro_data: None, rw_data: Some(0) });
}

#[test]
fn total_sums_only_complete_records() {
    let full = Module { ro_code: Some(1), ro_data: Some(2), rw_data: Some(3) };
    assert_eq!(full.total(), 6);
    let partial = Module { ro_code: Some(1), ro_data: None, rw_data: Some(3) };
    assert_eq!(partial.total(), 0);
}

#[test]
fn terminator_is_never_an_object_name() {
    let long = "    --------------------------------------------------------\n".as_bytes();
    assert_eq!(modulep(long, 35), RowOutcome::Terminator);
    let short = "  ---\n".as_bytes();
    assert_eq!(modulep(short, 35), RowOutcome::Malformed);
}

#[test]
fn unknown_sizes_layout_is_malformed() {
    // sizes field of five bytes: no known layout
    let line = row("Strange.o", "12345");
    assert_eq!(modulep(line.as_bytes(), 35), RowOutcome::Malformed);
}

#[test]
fn malformed_row_fails_whole_parse() {
    let rows = row("Good.o", "     22") + &row("Strange.o", "12345");
    let input = report(&group("lib.a: [1]", &rows));
    assert_eq!(parse_map_file(&input), Err("Failed to parse"));
}

#[test]
fn missing_banner_fails_parse() {
    let input = "no summary section here at all\n".as_bytes();
    assert_eq!(parse_map_file(input), Err("Failed to parse"));
}

#[test]
fn render_uses_fixed_width_and_placeholder() {
    assert_eq!(Module::size_to_string(Some(526)), "   526");
    assert_eq!(Module::size_to_string(Some(-42)), "   -42");
    assert_eq!(Module::size_to_string(Some(1234567)), "1234567");
    assert_eq!(Module::size_to_string(None), "------");
    let m = Module { ro_code: Some(526), ro_data: Some(436), rw_data: None };
    assert_eq!(m.render(), "ro_code:    526 \t ro_data:    436 \t rw_data: ------");
}

#[test]
fn args_demand_exactly_two_paths() {
    let ok = handle_args(vec!["prog".into(), "a.map".into(), "b.map".into()]);
    assert_eq!(ok, Ok(("a.map".into(), "b.map".into())));
    let missing = handle_args(vec!["prog".into(), "a.map".into()]);
    assert_eq!(missing, Err("Please provide the paths for two IAR map files"));
    let extra = handle_args(vec!["p".into(), "a".into(), "b".into(), "c".into()]);
    assert!(extra.is_err());
}

#[test]
fn group_names_diff_is_sorted_and_unique() {
    let mk = |name: &str| ObjModuleTable { name: name.into(), table: ModuleMap::new() };
    let left = vec![mk("zeta.a"), mk("alpha.a"), mk("shared.a"), mk("alpha.a")];
    let right = vec![mk("shared.a")];
    let d = module_differences(&left, &right);
    let names: Vec<String> = d.unique_left;
    assert_eq!(names, vec!["alpha.a".to_string(), "zeta.a".to_string()]);
    assert!(d.unique_right.is_empty());
}

#[test]
fn stages_report_independently() {
    // Both sides list the same single group name, but one object differs.
    let mut tl = ModuleMap::new();
    tl.insert("Bar.o".into(), Module { ro_code: Some(22), ro_data: Some(44), rw_data: None });
    let mut tr = ModuleMap::new();
    tr.insert("Bar.o".into(), Module { ro_code: Some(20), ro_data: Some(44), rw_data: None });
    let left = vec![ObjModuleTable { name: "lib.a: [1]".into(), table: tl }];
    let right = vec![ObjModuleTable { name: "lib.a: [1]".into(), table: tr }];

    let a = analyze(&left, &right);
    assert!(a.group_diff.unique_left.is_empty());
    assert!(a.group_diff.unique_right.is_empty());
    assert!(a.object_diff.unique_left.is_empty());
    assert!(a.object_diff.unique_right.is_empty());
    assert_eq!(a.object_diff.value_diffs.len(), 1);
    let v = &a.object_diff.value_diffs[0];
    assert_eq!(v.name, "Bar.o");
    assert_eq!(v.delta, Module { ro_code: Some(2), ro_data: Some(0), rw_data: None });
}

#[test]
fn end_to_end_value_delta() {
    let left = report(&group("Things: [1]", &row("Bar.o", "     22       44")));
    let right = report(&group("Things: [1]", &row("Bar.o", "     20       44")));
    let l = parse_map_file(&left).unwrap();
    let r = parse_map_file(&right).unwrap();
    let a = try_analyze(&l, &r).unwrap();
    assert!(a.group_diff.unique_left.is_empty());
    assert!(a.group_diff.unique_right.is_empty());
    assert_eq!(a.object_diff.value_diffs.len(), 1);
    let v = &a.object_diff.value_diffs[0];
    assert_eq!(v.name, "Bar.o");
    assert_eq!(v.left, Module { ro_code: Some(22), ro_data: Some(44), rw_data: None });
    assert_eq!(v.right, Module { ro_code: Some(20), ro_data: Some(44), rw_data: None });
    assert_eq!(v.delta, Module { ro_code: Some(2), ro_data: Some(0), rw_data: None });
}

#[test]
fn end_to_end_group_unique_to_left() {
    let shared = group("Common: [1]", &row("Same.o", "     10"));
    let extra = group("FileSys.a: [3]", &row("FAT_Dir.o", "    536       24"));
    let left = report(&format!("{}{}", shared, extra));
    let right = report(&shared);
    let l = parse_map_file(&left).unwrap();
    let r = parse_map_file(&right).unwrap();
    let a = try_analyze(&l, &r).unwrap();
    assert_eq!(a.group_diff.unique_left, vec!["FileSys.a: [3]".to_string()]);
    assert!(a.group_diff.unique_right.is_empty());
    // The object stage still runs over the flattened mappings and reports
    // the group's object as unique to the left.
    assert_eq!(a.object_diff.unique_left.len(), 1);
    assert_eq!(a.object_diff.unique_left[0].0, "FAT_Dir.o");
    assert_eq!(
        a.object_diff.unique_left[0].1,
        Module { ro_code: Some(536), ro_data: Some(24), rw_data: None }
    );
    assert!(a.object_diff.value_diffs.is_empty());
}

#[test]
fn zero_row_group_parses_to_empty_mapping() {
    let input = report(&group("command line: [2]", ""));
    let parsed = parse_map_file(&input).unwrap();
    assert_eq!(parsed.len(), 1);
    assert_eq!(parsed[0].name, "command line: [2]");
    assert_eq!(parsed[0].table, ModuleMap::new());
}

#[test]
fn map_insert_overwrites_and_order_is_meaningless() {
    let a1 = Module { ro_code: Some(1), ro_data: None, rw_data: None };
    let a2 = Module { ro_code: Some(2), ro_data: None, rw_data: None };
    let b = Module { ro_code: Some(3), ro_data: None, rw_data: None };

    let mut m1 = ModuleMap::new();
    m1.insert("a.o".into(), a1);
    m1.insert("b.o".into(), b);
    m1.insert("a.o".into(), a2);

    let mut m2 = ModuleMap::new();
    m2.insert("b.o".into(), b);
    m2.insert("a.o".into(), a2);

    assert_eq!(m1.get(&"a.o".to_string()), Some(a2));
    assert_eq!(m1, m2);

    let mut m3 = ModuleMap::new();
    m3.insert("a.o".into(), a1);
    m3.insert("b.o".into(), b);
    assert_ne!(m1, m3);
}

#[test]
fn overflowing_delta_refuses_comparison() {
    let mut tl = ModuleMap::new();
    tl.insert("big.o".into(), Module { ro_code: Some(i32::MAX), ro_data: None, rw_data: None });
    let mut tr = ModuleMap::new();
    tr.insert("big.o".into(), Module { ro_code: Some(-1), ro_data: None, rw_data: None });
    let left = vec![ObjModuleTable { name: "g: [1]".into(), table: tl }];
    let right = vec![ObjModuleTable { name: "g: [1]".into(), table: tr }];
    assert!(try_analyze(&left, &right).is_none());
}

#[test]
fn crlf_line_endings_parse() {
    let lf = report(&group("lib.a: [1]", &row("Bar.o", "     22       44")));
    let crlf = String::from_utf8(lf).unwrap().replace('\n', "\r\n").into_bytes();
    let parsed = parse_map_file(&crlf).unwrap();
    assert_eq!(parsed.len(), 1);
    assert_eq!(parsed[0].name, "lib.a: [1]");
    assert_eq!(
        parsed[0].table.get(&"Bar.o".to_string()),
        Some(Module { ro_code: Some(22), ro_data: Some(44), rw_data: None })
    );
}

#[test]
fn later_row_overwrites_same_name() {
    let rows = row("Twice.o", "      1") + &row("Twice.o", "      2");
    let input = report(&group("lib.a: [1]", &rows));
    let parsed = parse_map_file(&input).unwrap();
    assert_eq!(
        parsed[0].table.get(&"Twice.o".to_string()),
        Some(Module { ro_code: Some(2), ro_data: None, rw_data: None })
    );
}
