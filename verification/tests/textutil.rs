use insrcdata::caseconv::{char_is_alnum, char_is_num, lowercase, shouty_snake_case, snake_case};
use insrcdata::langc::{enum_name, struct_name, table_name, variant_type_name};
use insrcdata::language::{digits, file_notice, language_for_dest, write_help, Lang};
use insrcdata::lint::{label, test_linter, Linter};
use insrcdata::strutil::{basename, file_stem, i64_to_string, str_eq, str_lt, usize_to_string};
use insrcdata::table::{Column, ColumnConfig, Table};
use insrcdata::colstr::ColStr;

#[test]
fn case_conversions_change_their_input() {
    assert_eq!(snake_case("HelloWorld"), "hello_world");
    assert_eq!(shouty_snake_case("helloWorld"), "HELLO_WORLD");
    assert_eq!(lowercase("TRUE"), "true");
}

#[test]
fn char_classes_follow_unicode() {
    assert!(char_is_alnum('e'));
    assert!(char_is_alnum('9'));
    assert!(!char_is_alnum('_'));
    assert!(char_is_num('5'));
    assert!(!char_is_num('x'));
}

#[test]
fn label_validity() {
    assert!(label("hello"));
    assert!(label("hello_9"));
    assert!(label("_x"));
    assert!(!label("0hello"));
    assert!(!label(""));
    assert!(!label("a-b"));
}

#[test]
fn linter_records_context_paths() {
    let mut l = Linter::new();
    l.context("table");
    l.row(3);
    assert_eq!(l.str_context(), "table:3");
    l.err(true, "fine");
    assert_eq!(l.errors(), 0);
    l.err(false, "boom");
    assert_eq!(l.errors(), 1);
    l.leave();
    l.leave();
    assert_eq!(l.str_context(), "");
}

#[test]
fn check_result_counts_one_failure() {
    let mut l = test_linter();
    l.check_result("t", Ok::<u32, insrcdata::aperror::Error>(1));
    assert_eq!(l.errors(), 0);
    l.check_result("t", Err::<u32, _>(insrcdata::aperror::Error::new("bad")));
    assert_eq!(l.errors(), 1);
}

#[test]
fn decimal_rendering() {
    assert_eq!(usize_to_string(0), "0");
    assert_eq!(usize_to_string(120), "120");
    assert_eq!(i64_to_string(-45), "-45");
    assert_eq!(i64_to_string(7), "7");
}

#[test]
fn string_ordering_is_bytewise() {
    assert!(str_lt("abc", "abd"));
    assert!(str_lt("ab", "abc"));
    assert!(!str_lt("abc", "abc"));
    assert!(str_eq("abc", "abc"));
    assert!(!str_eq("abc", "abd"));
}

#[test]
fn path_stems() {
    assert_eq!(basename("dir/sub/proj.rs"), "proj.rs");
    assert_eq!(file_stem("dir/proj.tar.rs"), Some("proj.tar".to_string()));
    assert_eq!(file_stem(".hidden"), Some(".hidden".to_string()));
    assert_eq!(file_stem("dir/"), None);
}

#[test]
fn language_selection() {
    assert!(matches!(language_for_dest("out/m.c"), Lang::C));
    assert!(matches!(language_for_dest("m.swift"), Lang::Swift));
    assert!(matches!(language_for_dest("m.rs"), Lang::Rust));
    assert!(matches!(language_for_dest("noext"), Lang::Rust));
    assert!(Lang::Rust.to_label());
    assert!(!Lang::C.to_label());
    assert_eq!(Lang::Swift.extension(), "swift");
}

#[test]
fn digit_magnitude() {
    assert_eq!(digits(0), 1);
    assert_eq!(digits(1), 0);
    assert_eq!(digits(10), 1);
    assert_eq!(digits(11), 2);
    assert_eq!(digits(100), 2);
    assert_eq!(digits(101), 3);
}

#[test]
fn generated_file_banner() {
    assert_eq!(file_notice(), "generated by insrcdata");
}

#[test]
fn help_lines_are_prefixed() {
    assert_eq!(write_help("// ", &Some("a\nb".to_string())), "// a\n// b\n");
    assert_eq!(write_help("// ", &Some("a".to_string())), "// a\n");
    assert_eq!(write_help("// ", &None), "");
}

#[test]
fn c_backend_names() {
    assert_eq!(struct_name("MyTable"), "my_table");
    assert_eq!(table_name("MyTable"), "MY_TABLE");
    assert_eq!(enum_name("someLabel"), "SOME_LABEL");
    let cfg = ColumnConfig {
        name: "kind".to_string(),
        ..Default::default()
    };
    let col = Column::Str(ColStr::parse(cfg, &vec![]).unwrap());
    let t = Table::new("MyTable", None, vec![col], false, false);
    assert_eq!(variant_type_name(&t, &t.columns[0]), "my_table_kind_type_t");
}
