use insrcdata::basetype::BaseType;
use insrcdata::colint::ColInt;
use insrcdata::collabel::ColLabel;
use insrcdata::colbool::parse_vec_bool;
use insrcdata::colobject::ColObject;
use insrcdata::lint::test_linter;
use insrcdata::table::{ColumnConfig, parse_vec};

fn config(name: &str) -> ColumnConfig {
    ColumnConfig {
        name: name.to_string(),
        ..Default::default()
    }
}

#[test]
fn u8_no_oveflow() {
    let c = ColInt::parse(config(""), &vec!["123".to_string()], BaseType::U8).expect("");
    let mut linter = test_linter();
    c.lint(&mut linter);
    assert!(linter.errors() == 0);
}

#[test]
fn u8_oveflow() {
    let c = ColInt::parse(config(""), &vec!["300".to_string()], BaseType::U8).expect("");
    let mut linter = test_linter();
    c.lint(&mut linter);
    assert!(linter.errors() == 1);
}

#[test]
fn u8_underflow() {
    let c = ColInt::parse(config(""), &vec!["-1".to_string()], BaseType::U8).expect("");
    let mut linter = test_linter();
    c.lint(&mut linter);
    assert!(linter.errors() == 1);
}

#[test]
fn label_ok() {
    let c = ColLabel::parse(config(""), "", &vec!["hello".to_string()], &vec!["".to_string()])
        .expect("");
    let mut linter = test_linter();
    c.lint(&mut linter);
    assert!(linter.errors() == 0);
}

#[test]
fn label_invalid() {
    let c = ColLabel::parse(config(""), "", &vec!["0hello".to_string()], &vec!["".to_string()])
        .expect("");
    let mut linter = test_linter();
    c.lint(&mut linter);
    assert!(linter.errors() == 1);
}

#[test]
fn label_duplicate() {
    let c = ColLabel::parse(
        config(""),
        "",
        &vec!["hello".to_string(), "HELLO".to_string()],
        &vec!["".to_string(), "".to_string()],
    )
    .expect("");
    let mut linter = test_linter();
    c.lint(&mut linter);
    assert!(linter.errors() == 1);
}

#[test]
fn label_empty() {
    let c = ColLabel::parse(
        config(""),
        "",
        &vec!["hello".to_string(), "".to_string()],
        &vec!["".to_string(), "".to_string()],
    )
    .expect("");
    let mut linter = test_linter();
    c.lint(&mut linter);
    assert!(linter.errors() == 0);
}

#[test]
fn label_empty_as_label() {
    let c = ColLabel::parse(
        config("as_label"),
        "",
        &vec!["hello".to_string(), "".to_string()],
        &vec!["".to_string(), "".to_string()],
    )
    .expect("");
    let mut linter = test_linter();
    c.lint(&mut linter);
    assert!(linter.errors() == 1);
}

#[test]
fn label_missing_help() {
    let c = ColLabel::parse(config(""), "", &vec!["hello".to_string()], &vec![]).expect("");
    let mut linter = test_linter();
    c.lint(&mut linter);
    assert!(linter.errors() == 1);
}

#[test]
fn parse_vec_reads_integers() {
    let vals = parse_vec(&vec!["12".to_string(), "-7".to_string(), "+3".to_string()]).expect("");
    assert_eq!(vals, vec![12, -7, 3]);
}

#[test]
fn parse_vec_reports_first_bad_row() {
    let e = parse_vec(&vec!["1".to_string(), "x".to_string()]).unwrap_err();
    assert_eq!(e.message(), "x not a number at row 1");
}

#[test]
fn parse_vec_extremes() {
    let vals = parse_vec(&vec![
        "9223372036854775807".to_string(),
        "-9223372036854775808".to_string(),
    ])
    .expect("");
    assert_eq!(vals, vec![i64::MAX, i64::MIN]);
    assert!(parse_vec(&vec!["9223372036854775808".to_string()]).is_err());
}

#[test]
fn parse_vec_bool_accepts_case_insensitive_words() {
    let vals = parse_vec_bool(&vec![
        "1".to_string(),
        "TRUE".to_string(),
        "no".to_string(),
        "Yes".to_string(),
    ])
    .expect("");
    assert_eq!(vals, vec![true, true, false, true]);
}

#[test]
fn parse_vec_bool_rejects_other_words() {
    let e = parse_vec_bool(&vec!["maybe".to_string()]).unwrap_err();
    assert_eq!(e.message(), "invalid bool value maybe at row 0");
}

#[test]
fn int_type_inference() {
    // a negative bound selects the signed width covering max(-min, max)
    assert!(matches!(
        insrcdata::basetype::int_type_for_range(-1, 200),
        BaseType::I16
    ));
    assert!(matches!(
        insrcdata::basetype::int_type_for_range(0, 200),
        BaseType::U8
    ));
    assert!(matches!(
        insrcdata::basetype::int_type_for_range(0, 70000),
        BaseType::U32
    ));
    assert!(matches!(
        insrcdata::basetype::int_type_for_range(-129, 0),
        BaseType::I16
    ));
}

#[test]
fn base_type_bounds() {
    assert_eq!(BaseType::U8.max(), 255);
    assert_eq!(BaseType::I8.min(), -128);
    assert_eq!(BaseType::I64.max(), i64::MAX as u64);
    assert_eq!(BaseType::Str.max(), 0);
}

#[test]
fn object_template_lint() {
    let good = ColObject::new(config("o"), vec!["v".to_string()], "T", "{}", "");
    let mut linter = test_linter();
    good.lint(&mut linter);
    assert!(linter.errors() == 0);

    let bad = ColObject::new(config("o"), vec!["v".to_string()], "T", "{}{}", "");
    let mut linter2 = test_linter();
    bad.lint(&mut linter2);
    assert!(linter2.errors() == 1);
}

#[test]
fn int_column_stores_inferred_type() {
    let c = ColInt::parse(
        config("n"),
        &vec!["-1".to_string(), "200".to_string()],
        BaseType::I32,
    )
    .expect("");
    assert_eq!(c.min, -1);
    assert_eq!(c.max, 200);
    assert!(matches!(c.info.table_type, BaseType::I16));
    assert_eq!(c.values, vec![-1, 200]);
}
