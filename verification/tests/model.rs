use insrcdata::coljoin::ColJoin;
use insrcdata::colstr::ColStr;
use insrcdata::colvariant::{ColVariant, Dest, decode};
use insrcdata::config::{colkey, Col, Config, ColumnValues, RawSource, Runtime, Table as TableCfg,
    Join as JoinCfg};
use insrcdata::index::{index, filter_index, index_i64, index_str, range_i64, range_str,
    reverse_range};
use insrcdata::lint::test_linter;
use insrcdata::table::{Column, ColumnConfig, Project, Table};

fn config(name: &str) -> ColumnConfig {
    ColumnConfig {
        name: name.to_string(),
        ..Default::default()
    }
}

fn strings(vals: &[&str]) -> Vec<String> {
    vals.iter().map(|s| s.to_string()).collect()
}

#[test]
fn duplicate_table_name() {
    let t1 = Table::new("mytable", None, vec![], false, false);
    let t2 = Table::new("mytable", None, vec![], false, false);

    let project = Project {
        dst_path: String::new(),
        help: None,
        tables: vec![t1, t2],
        src_paths: vec![],
    };

    let mut linter = test_linter();
    project.lint(&mut linter);
    assert!(linter.errors() == 1);
}

#[test]
fn duplicate_col_name() {
    let a1 = Column::Str(ColStr::parse(config("mycol"), &vec![]).unwrap());
    let a2 = Column::Str(ColStr::parse(config("mycol"), &vec![]).unwrap());

    let t = Table::new("table", None, vec![a1, a2], false, false);

    let mut linter = test_linter();
    t.lint(&mut linter);
    assert!(linter.errors() == 1);
}

#[test]
fn stable_index_orders_ties_by_row() {
    assert_eq!(index(&vec![2, 1, 2, 1]), vec![1, 3, 0, 2]);
    assert_eq!(filter_index(&vec![1, 0, 1], 0), vec![0, 2]);
    assert_eq!(index_i64(&vec![5, -3, 5]), vec![1, 0, 2]);
    assert_eq!(index_str(&strings(&["b", "a", "b"])), vec![1, 0, 2]);
}

#[test]
fn range_returns_exactly_the_window() {
    let values: Vec<i64> = vec![5, 3, 8, 3];
    let idx = index_i64(&values);
    assert_eq!(idx, vec![1, 3, 0, 2]);
    // start <= v <= stop picks the two 3s and the 5, in stable order
    assert_eq!(range_i64(&values, &idx, 3, 5), (0, 3));
    assert_eq!(range_i64(&values, &idx, 4, 7), (2, 3));
    // an inverted range is empty
    let (lo, hi) = range_i64(&values, &idx, 6, 2);
    assert_eq!(lo, hi);
}

#[test]
fn range_str_is_bytewise() {
    let values = strings(&["bb", "aa", "cc", "aa"]);
    let idx = index_str(&values);
    assert_eq!(idx, vec![1, 3, 0, 2]);
    assert_eq!(range_str(&values, &idx, "aa", "bb"), (0, 3));
    assert_eq!(range_str(&values, &idx, "b", "bz"), (2, 3));
}

#[test]
fn reverse_join_rows_come_back_ascending() {
    // source rows {2, 5, 7} reference destination row 1 ("b")
    let dest_keys = strings(&["a", "b"]);
    let values = strings(&["a", "a", "b", "a", "a", "b", "a", "b"]);
    let col = ColJoin::new(config("j"), &values, "dest", &dest_keys, "srcs");
    let idx = col.indexes();
    let (lo, hi) = reverse_range(&col.values, &idx, 1);
    let rows: Vec<usize> = idx[lo..hi].to_vec();
    assert_eq!(rows, vec![2, 5, 7]);
}

#[test]
fn mandatory_join_reports_unresolved_links() {
    let dest_keys = strings(&["x", "y"]);
    let values = strings(&["y", "x", "z"]);
    let col = ColJoin::new(config("j"), &values, "dest", &dest_keys, "");
    assert_eq!(col.values, vec![2, 1, 0]);
    let mut linter = test_linter();
    col.lint(&mut linter);
    assert!(linter.errors() == 1);
}

#[test]
fn optional_join_accepts_absent_links() {
    let dest_keys = strings(&["x", "y"]);
    let values = strings(&["y", "", "x"]);
    let mut cfg = config("j");
    cfg.optional = true;
    let col = ColJoin::new(cfg, &values, "dest", &dest_keys, "");
    // the empty sentinel stores 0 and an optional join tolerates it
    assert_eq!(col.values, vec![2, 0, 1]);
    let mut linter = test_linter();
    col.lint(&mut linter);
    assert!(linter.errors() == 0);
    // the filtered reverse index leaves the absent rows out
    let idx = col.indexes();
    assert_eq!(idx, vec![2, 0]);
}

#[test]
fn mandatory_variant_has_no_none_lane() {
    let keys_a = strings(&["a0", "a1"]);
    let mut dests = vec![Dest::new(&keys_a, "A".to_string(), "rev".to_string())];
    let values = strings(&["a1", "a0"]);
    let col = ColVariant::parse(config("v"), &values, &mut dests).expect("");
    assert_eq!(col.tables.len(), 1);
    assert_eq!((col.tables[0].index, col.tables[0].count), (0, 2));
    assert_eq!(col.values, vec![1, 0]);
    assert!(col.info.config.iterable);
}

#[test]
fn no_single_column_means_no_dedup() {
    let tbl = TableCfg {
        name: "t".to_string(),
        src: None,
        array: None,
        sorted: None,
        col: Some(vec![col_decl("k", false, None, false)]),
        join: None,
        variant: None,
    };
    let headers = strings(&["k"]);
    let records = vec![strings(&["a"]), strings(&["a"]), strings(&[""])];
    let mut cv = ColumnValues::new();
    tbl.read_values(&headers, &records, &mut cv).expect("");
    let k = cv.get(&colkey("t", "k")).unwrap();
    assert_eq!(k, &strings(&["a", "a", ""]));
}

#[test]
fn project_name_comes_from_the_destination() {
    let p = Project {
        dst_path: "gen/model.rs".to_string(),
        help: None,
        tables: vec![],
        src_paths: vec![],
    };
    assert_eq!(p.name(), "model");
    let unnamed = Project {
        dst_path: String::new(),
        help: None,
        tables: vec![],
        src_paths: vec![],
    };
    assert_eq!(unnamed.name(), "unnamed");
}

#[test]
fn variant_lane_packing() {
    // destinations A (rows 0..2, referenced {0, 1}) and B (row 0, referenced),
    // optional: lanes are None:[0,1), A:[1,3), B:[3,4)
    let keys_a = strings(&["a0", "a1", "a2"]);
    let keys_b = strings(&["b0"]);
    let mut dests = vec![
        Dest::new(&keys_a, "A".to_string(), String::new()),
        Dest::new(&keys_b, "B".to_string(), String::new()),
    ];
    let values = strings(&["a0", "a1", "b0", ""]);
    let mut cfg = config("v");
    cfg.optional = true;
    let col = ColVariant::parse(cfg, &values, &mut dests).expect("");
    assert_eq!(col.values, vec![1, 2, 3, 0]);
    assert_eq!(col.tables.len(), 3);
    assert!(col.tables[0].is_none);
    assert_eq!((col.tables[1].index, col.tables[1].count), (1, 2));
    assert_eq!((col.tables[2].index, col.tables[2].count), (3, 1));
    // a stored value of 2 decodes to lane A row 1; 3 decodes to lane B row 0
    assert_eq!(decode(&col.tables, 2), Some((1, 1)));
    assert_eq!(decode(&col.tables, 3), Some((2, 0)));
    assert_eq!(decode(&col.tables, 4), None);
    // a variant reverse lookup consults the row plus its lane base
    let idx = col.indexes();
    let (lo, hi) = insrcdata::index::reverse_range_at(&col.values, &idx, col.tables[1].index + 1);
    assert_eq!(idx[lo..hi].to_vec(), vec![1]);
    let (lo2, hi2) = insrcdata::index::reverse_range_at(&col.values, &idx, col.tables[2].index);
    assert_eq!(idx[lo2..hi2].to_vec(), vec![2]);
}

#[test]
fn variant_unmatched_value_is_fatal() {
    let keys_a = strings(&["a0"]);
    let mut dests = vec![Dest::new(&keys_a, "A".to_string(), String::new())];
    let values = strings(&["zzz"]);
    let e = match ColVariant::parse(config("v"), &values, &mut dests) {
        Ok(_) => panic!("unmatched value accepted"),
        Err(e) => e,
    };
    assert_eq!(e.message(), "column v : dest not found for zzz at row 0");
}

fn col_decl(name: &str, single: bool, format: Option<&str>, range: bool) -> Col {
    Col {
        name: name.to_string(),
        src: None,
        format: format.map(|f| f.to_string()),
        range: if range { Some(true) } else { None },
        single: if single { Some(true) } else { None },
        target: None,
        as_label: None,
        label_helps: None,
    }
}

#[test]
fn dedup_keeps_first_occurrence() {
    let tbl = TableCfg {
        name: "t".to_string(),
        src: None,
        array: None,
        sorted: None,
        col: Some(vec![col_decl("k", true, None, false), col_decl("v", false, None, false)]),
        join: None,
        variant: None,
    };
    let headers = strings(&["k", "v"]);
    let records = vec![
        strings(&["a", "1"]),
        strings(&["a", "2"]),
        strings(&["", ""]),
        strings(&["b", "3"]),
    ];
    let mut cv = ColumnValues::new();
    tbl.read_values(&headers, &records, &mut cv).expect("");
    let k = cv.get(&colkey("t", "k")).unwrap();
    let v = cv.get(&colkey("t", "v")).unwrap();
    assert_eq!(k, &strings(&["a", "b"]));
    assert_eq!(v, &strings(&["1", "3"]));
}

#[test]
fn duplicate_header_is_fatal() {
    let tbl = TableCfg {
        name: "t".to_string(),
        src: None,
        array: None,
        sorted: None,
        col: None,
        join: None,
        variant: None,
    };
    let headers = strings(&["k", "k"]);
    let mut cv = ColumnValues::new();
    assert!(tbl.read_values(&headers, &vec![], &mut cv).is_err());
}

#[test]
fn short_row_is_fatal() {
    let tbl = TableCfg {
        name: "t".to_string(),
        src: None,
        array: None,
        sorted: None,
        col: None,
        join: None,
        variant: None,
    };
    let headers = strings(&["a", "b"]);
    let records = vec![strings(&["1"])];
    let mut cv = ColumnValues::new();
    let e = tbl.read_values(&headers, &records, &mut cv).unwrap_err();
    assert_eq!(e.message(), "short row");
}

#[test]
fn end_to_end_region_countries() {
    let region = TableCfg {
        name: "Region".to_string(),
        src: None,
        array: None,
        sorted: None,
        col: Some(vec![col_decl("code", true, Some("u8"), false)]),
        join: None,
        variant: None,
    };
    let country = TableCfg {
        name: "Country".to_string(),
        src: None,
        array: None,
        sorted: None,
        col: Some(vec![
            col_decl("name", false, None, false),
            col_decl("alpha3", false, None, true),
        ]),
        join: Some(vec![JoinCfg {
            name: "region".to_string(),
            src: None,
            to: "code".to_string(),
            external: Some("Region".to_string()),
            optional: None,
            reverse: Some("countries".to_string()),
        }]),
        variant: None,
    };
    let cfg = Config { dest: Some("model.rs".to_string()), table: vec![region, country] };
    let mut runtime = Runtime::from_toml(String::new(), ".");
    // the region source repeats one row per country; dedup keeps one per code
    let sources = vec![
        Ok(RawSource {
            headers: strings(&["code"]),
            records: vec![strings(&["1"]), strings(&["1"]), strings(&["2"])],
        }),
        Ok(RawSource {
            headers: strings(&["name", "alpha3", "region"]),
            records: vec![
                strings(&["France", "FRA", "1"]),
                strings(&["Belgium", "BEL", "1"]),
                strings(&["Japan", "JPN", "2"]),
            ],
        }),
    ];
    let project = cfg.project(&mut runtime, sources).expect("");
    assert_eq!(runtime.linter.errors(), 0);
    assert_eq!(project.tables.len(), 2);
    assert_eq!(project.tables[0].len, 2);
    assert_eq!(project.tables[1].len, 3);
    // the join column resolved every row
    let join_col = match &project.tables[1].columns[2] {
        Column::Join(j) => j,
        _ => panic!("join column expected"),
    };
    assert_eq!(join_col.values, vec![1, 1, 2]);
    // the reverse accessor of region row 0 lists every country carrying code 1
    let idx = join_col.indexes();
    let (lo, hi) = reverse_range(&join_col.values, &idx, 0);
    let rows: Vec<usize> = idx[lo..hi].to_vec();
    assert_eq!(rows, vec![0, 1]);
    // the discovered reverse join carries the declared accessor name
    let joins = project.join_to_columns(&project.tables[0]);
    assert_eq!(joins.len(), 1);
    assert_eq!(joins[0].table, 1);
    assert_eq!(joins[0].col, 2);
    assert_eq!(joins[0].offset, 0);
    assert_eq!(joins[0].reverse_name, "countries");
    // an unresolvable code refuses the whole compilation
    let mut runtime2 = Runtime::from_toml(String::new(), ".");
    let cfg2 = Config {
        dest: Some("model.rs".to_string()),
        table: vec![
            TableCfg {
                name: "Region".to_string(),
                src: None,
                array: None,
                sorted: None,
                col: Some(vec![col_decl("code", true, Some("u8"), false)]),
                join: None,
                variant: None,
            },
            TableCfg {
                name: "Country".to_string(),
                src: None,
                array: None,
                sorted: None,
                col: Some(vec![col_decl("name", false, None, false)]),
                join: Some(vec![JoinCfg {
                    name: "region".to_string(),
                    src: None,
                    to: "code".to_string(),
                    external: Some("Region".to_string()),
                    optional: None,
                    reverse: None,
                }]),
                variant: None,
            },
        ],
    };
    let sources2 = vec![
        Ok(RawSource { headers: strings(&["code"]), records: vec![strings(&["1"])] }),
        Ok(RawSource {
            headers: strings(&["name", "region"]),
            records: vec![strings(&["Atlantis", "9"])],
        }),
    ];
    assert!(cfg2.project(&mut runtime2, sources2).is_err());
    assert!(runtime2.linter.errors() > 0);
}

#[test]
fn missing_source_is_reported() {
    let tbl = TableCfg {
        name: "t".to_string(),
        src: None,
        array: None,
        sorted: None,
        col: Some(vec![col_decl("k", false, None, false)]),
        join: None,
        variant: None,
    };
    let cfg = Config { dest: None, table: vec![tbl] };
    let mut runtime = Runtime::from_toml(String::new(), ".");
    let sources = vec![Err(insrcdata::aperror::Error::new("no such file"))];
    assert!(cfg.project(&mut runtime, sources).is_err());
    assert!(runtime.linter.errors() > 0);
}
