//! The schema description resolved from the configuration file, and the
//! ingestion pass that turns raw row sources into the compiled model.

use vstd::prelude::*;
use crate::aperror;
use crate::aperror::Error;
use crate::caseconv::{lower_of, lowercase};
use crate::colbool::ColBool;
use crate::colint::ColInt;
use crate::coljoin::ColJoin;
use crate::collabel::ColLabel;
use crate::colobject::ColObject;
use crate::colstr::ColStr;
use crate::colvariant::{ColVariant, Dest};
use crate::language::{Lang, spec_language_for_dest};
use crate::lint::Linter;
use crate::strutil::{position_str, str_eq};
use crate::table::{Column, ColumnConfig, Project};

verus! {

/// Composite key locating a table-scoped column: table name, `.`, column
/// name, so that tables sharing a source file cannot collide.
pub open spec fn spec_colkey(tablename: Seq<char>, colname: Seq<char>) -> Seq<char> {
    tablename + "."@ + colname
}

/// Index for a specific table column.
pub fn colkey(tablename: &str, colname: &str) -> (r: String)
    ensures
        r@ == spec_colkey(tablename@, colname@),
{
    let mut s = String::new();
    s.append(tablename);
    s.append(".");
    s.append(colname);
    s
}

/// The first column whose key matches.
pub open spec fn first_match(names: Seq<String>, key: Seq<char>) -> Option<int>
    decreases names.len(),
{
    if names.len() == 0 {
        None
    } else if names[0]@ == key {
        Some(0int)
    } else {
        match first_match(names.drop_first(), key) {
            Some(i) => Some(i + 1),
            None => None,
        }
    }
}

proof fn lemma_first_match_at(names: Seq<String>, key: Seq<char>, i: int)
    requires
        0 <= i < names.len(),
        names[i]@ == key,
        forall|j: int| 0 <= j < i ==> #[trigger] names[j]@ != key,
    ensures
        first_match(names, key) == Some(i),
    decreases i,
{
    if i > 0 {
        assert(names[0]@ != key);
        assert(names.drop_first()[i - 1]@ == key);
        assert forall|j: int| 0 <= j < i - 1 implies #[trigger] names.drop_first()[j]@ != key by {
            assert(names[j + 1]@ != key);
        }
        lemma_first_match_at(names.drop_first(), key, i - 1);
    }
}

proof fn lemma_first_match_push(names: Seq<String>, key: Seq<char>, x: String)
    ensures
        first_match(names, key) is Some ==> first_match(names.push(x), key) == first_match(
            names,
            key,
        ),
        first_match(names, key) is None && x@ == key ==> first_match(names.push(x), key) == Some(
            names.len() as int,
        ),
        first_match(names, key) is None && x@ != key ==> first_match(names.push(x), key) is None,
    decreases names.len(),
{
    if names.len() == 0 {
        assert(names.push(x)[0] == x);
        assert(names.push(x).drop_first() =~= Seq::<String>::empty());
        if x@ != key {
            assert(first_match(names.push(x).drop_first(), key) is None);
            assert(first_match(names.push(x), key) is None);
        }
    } else {
        assert(names.push(x)[0] == names[0]);
        assert(names.push(x).drop_first() =~= names.drop_first().push(x));
        lemma_first_match_push(names.drop_first(), key, x);
        if names[0]@ != key && first_match(names, key) is None && x@ != key {
            assert(first_match(names.drop_first(), key) is None);
            assert(first_match(names.drop_first().push(x), key) is None);
            assert(first_match(names.push(x), key) is None);
        }
    }
}

proof fn lemma_first_match_range(names: Seq<String>, key: Seq<char>)
    ensures
        first_match(names, key) matches Some(i) ==> 0 <= i < names.len(),
    decreases names.len(),
{
    if names.len() > 0 && names[0]@ != key {
        lemma_first_match_range(names.drop_first(), key);
    }
}

proof fn lemma_contains_push(vs: Seq<String>, x: String, s: Seq<char>)
    ensures
        crate::strutil::seq_contains_str(vs, s) ==> crate::strutil::seq_contains_str(
            vs.push(x),
            s,
        ),
        x@ == s ==> crate::strutil::seq_contains_str(vs.push(x), s),
{
    if crate::strutil::seq_contains_str(vs, s) {
        let i = choose|i: int| 0 <= i < vs.len() && #[trigger] vs[i]@ == s;
        assert(vs.push(x)[i]@ == s);
    }
    if x@ == s {
        assert(vs.push(x)[vs.len() as int]@ == s);
    }
}

proof fn lemma_first_match_none(names: Seq<String>, key: Seq<char>)
    requires
        forall|j: int| 0 <= j < names.len() ==> #[trigger] names[j]@ != key,
    ensures
        first_match(names, key) is None,
    decreases names.len(),
{
    if names.len() > 0 {
        assert forall|j: int|
            0 <= j < names.drop_first().len() implies #[trigger] names.drop_first()[j]@ != key by {
            assert(names[j + 1]@ != key);
        }
        lemma_first_match_none(names.drop_first(), key);
    }
}

/// The in-memory table of raw cells: `(table, column)` composite key to the
/// ordered column of string cells.
pub struct ColumnValues {
    pub names: Vec<String>,
    pub cols: Vec<Vec<String>>,
}

/// The column stored under `key`, if any.
pub open spec fn spec_get(cv: &ColumnValues, key: Seq<char>) -> Option<Seq<String>> {
    match first_match(cv.names@, key) {
        Some(i) => if 0 <= i < cv.cols@.len() {
            Some(cv.cols@[i]@)
        } else {
            None
        },
        None => None,
    }
}

impl ColumnValues {
    pub open spec fn wf(&self) -> bool {
        self.names@.len() == self.cols@.len()
    }

    pub fn new() -> (r: ColumnValues)
        ensures
            r.wf(),
            r.names@.len() == 0,
    {
        ColumnValues { names: Vec::new(), cols: Vec::new() }
    }

    pub fn get(&self, key: &str) -> (r: Option<&Vec<String>>)
        requires
            self.wf(),
        ensures
            r is Some <==> spec_get(self, key@) is Some,
            r matches Some(v) ==> spec_get(self, key@) == Some(v@),
    {
        match position_str(&self.names, key) {
            Some(i) => {
                proof {
                    lemma_first_match_at(self.names@, key@, i as int);
                }
                Some(&self.cols[i])
            },
            None => {
                proof {
                    lemma_first_match_none(self.names@, key@);
                }
                None
            },
        }
    }

    pub fn contains(&self, key: &str) -> (r: bool)
        requires
            self.wf(),
        ensures
            r == (spec_get(self, key@) is Some),
    {
        match position_str(&self.names, key) {
            Some(i) => {
                proof {
                    lemma_first_match_at(self.names@, key@, i as int);
                }
                true
            },
            None => {
                proof {
                    lemma_first_match_none(self.names@, key@);
                }
                false
            },
        }
    }

    pub fn insert(&mut self, key: String, col: Vec<String>)
        requires
            old(self).wf(),
        ensures
            final(self).wf(),
            final(self).names@ == old(self).names@.push(key),
            final(self).cols@ == old(self).cols@.push(col),
    {
        self.names.push(key);
        self.cols.push(col);
    }
}

/// One stored column, viewwise: the composite key and the cell views.
pub type CvEntry = (Seq<char>, Seq<Seq<char>>);

/// The view of a column store: its entries in insertion order.
pub open spec fn cv_entries(names: Seq<String>, cols: Seq<Vec<String>>) -> Seq<CvEntry> {
    Seq::new(
        names.len(),
        |i: int|
            (
                names[i]@,
                if 0 <= i < cols.len() {
                    cols[i].deep_view()
                } else {
                    Seq::<Seq<char>>::empty()
                },
            ),
    )
}

impl View for ColumnValues {
    type V = Seq<CvEntry>;

    open spec fn view(&self) -> Seq<CvEntry> {
        cv_entries(self.names@, self.cols@)
    }
}

/// The first entry whose key matches.
pub open spec fn view_find(m: Seq<CvEntry>, key: Seq<char>) -> Option<int>
    decreases m.len(),
{
    if m.len() == 0 {
        None
    } else if m[0].0 == key {
        Some(0int)
    } else {
        match view_find(m.drop_first(), key) {
            Some(i) => Some(i + 1),
            None => None,
        }
    }
}

pub proof fn lemma_find_is_view(names: Seq<String>, cols: Seq<Vec<String>>, key: Seq<char>)
    requires
        names.len() == cols.len(),
    ensures
        view_find(cv_entries(names, cols), key) == first_match(names, key),
    decreases names.len(),
{
    if names.len() > 0 {
        assert(cv_entries(names, cols)[0].0 == names[0]@);
        assert forall|i: int|
            0 <= i < cv_entries(names, cols).drop_first().len() implies cv_entries(
            names,
            cols,
        ).drop_first()[i] == cv_entries(names.drop_first(), cols.drop_first())[i] by {
            assert(names.drop_first()[i] == names[i + 1]);
            assert(cols.drop_first()[i] == cols[i + 1]);
        }
        assert(cv_entries(names, cols).drop_first() =~= cv_entries(
            names.drop_first(),
            cols.drop_first(),
        ));
        lemma_find_is_view(names.drop_first(), cols.drop_first(), key);
    }
}

/// One table's raw rows, as read from a delimited source: the header names
/// and the data records.
pub struct RawSource {
    pub headers: Vec<String>,
    pub records: Vec<Vec<String>>,
}

/// The last index of `/` in `s`, or -1.
pub open spec fn last_slash(s: Seq<char>) -> int
    decreases s.len(),
{
    if s.len() == 0 {
        -1
    } else if s.last() == '/' {
        s.len() - 1
    } else {
        last_slash(s.drop_last())
    }
}

proof fn lemma_last_slash_at(s: Seq<char>, i: int)
    requires
        0 <= i < s.len(),
        s[i] == '/',
        forall|k: int| i < k < s.len() ==> s[k] != '/',
    ensures
        last_slash(s) == i,
    decreases s.len(),
{
    if i < s.len() - 1 {
        assert(s.drop_last()[i] == '/');
        lemma_last_slash_at(s.drop_last(), i);
    }
}

proof fn lemma_last_slash_none(s: Seq<char>)
    requires
        forall|k: int| 0 <= k < s.len() ==> s[k] != '/',
    ensures
        last_slash(s) == -1,
    decreases s.len(),
{
    if s.len() > 0 {
        lemma_last_slash_none(s.drop_last());
    }
}

/// The directory part of `path`: the text before the last `/`, `.` for an
/// empty path, empty otherwise.
pub open spec fn spec_parent(s: Seq<char>) -> Seq<char> {
    if last_slash(s) >= 0 {
        s.take(last_slash(s))
    } else if s.len() == 0 {
        "."@
    } else {
        Seq::empty()
    }
}

fn parent_dir(path: &str) -> (r: String)
    ensures
        r@ == spec_parent(path@),
{
    let n = path.unicode_len();
    match crate::strutil::rfind_char(path, '/') {
        Some(i) => {
            proof {
                lemma_last_slash_at(path@, i as int);
                assert(path@.subrange(0, i as int) =~= path@.take(i as int));
            }
            let p = path.substring_char(0, i);
            p.to_owned()
        },
        None => {
            proof {
                lemma_last_slash_none(path@);
            }
            if n == 0 {
                let mut s = String::new();
                s.append(".");
                s
            } else {
                String::new()
            }
        },
    }
}

/// The run state of one compilation: where the schema comes from, where the
/// sources and the destination are, and the lint collector.
pub struct Runtime {
    pub projectpath: Option<String>,
    pub src_config: Option<String>,
    pub projectdir: String,
    pub indir: String,
    pub dest: String,
    pub linter: Linter,
}

impl Runtime {
    /// The directory the row sources are read from.
    pub fn indir_path(&self) -> (r: &str)
        ensures
            r@ == if self.indir@.len() == 0 {
                self.projectdir@
            } else {
                self.indir@
            },
    {
        if self.indir.as_str().is_empty() {
            self.projectdir.as_str()
        } else {
            self.indir.as_str()
        }
    }

    /// Builder: a runtime whose schema will be read from `path`.
    pub fn read(path: &str) -> (r: Runtime)
        ensures
            r.projectpath matches Some(p) && p@ == path@,
            r.src_config is None,
            r.projectdir@ == spec_parent(path@),
            r.indir@.len() == 0,
            r.dest@.len() == 0,
            r.linter@.contexts.len() == 0,
            r.linter@.failures.len() == 0,
    {
        Runtime {
            projectpath: Some(path.to_owned()),
            projectdir: parent_dir(path),
            src_config: None,
            indir: String::new(),
            dest: String::new(),
            linter: Linter::new(),
        }
    }

    /// Builder: a runtime whose schema text is already in memory.
    pub fn from_toml(toml: String, projectdir: &str) -> (r: Runtime)
        ensures
            r.projectpath is None,
            r.src_config matches Some(s) && s == toml,
            r.projectdir@ == projectdir@,
            r.indir@.len() == 0,
            r.dest@.len() == 0,
            r.linter@.contexts.len() == 0,
            r.linter@.failures.len() == 0,
    {
        Runtime {
            projectpath: None,
            projectdir: projectdir.to_owned(),
            src_config: Some(toml),
            indir: String::new(),
            dest: String::new(),
            linter: Linter::new(),
        }
    }

    /// Builder: override the source directory.
    pub fn indir(self, indir: String) -> (r: Runtime)
        ensures
            r.indir == indir,
            r.projectpath == self.projectpath,
            r.src_config == self.src_config,
            r.projectdir == self.projectdir,
            r.dest == self.dest,
            r.linter@ == self.linter@,
    {
        Runtime { indir, ..self }
    }

    /// Builder: override the destination.
    pub fn dest(self, dest: String) -> (r: Runtime)
        ensures
            r.dest == dest,
            r.projectpath == self.projectpath,
            r.src_config == self.src_config,
            r.projectdir == self.projectdir,
            r.indir == self.indir,
            r.linter@ == self.linter@,
    {
        Runtime { dest, ..self }
    }

    /// The project name: the schema file's stem, or the tool's own name.
    pub fn projectname(&self) -> (r: String)
        ensures
            match self.projectpath {
                Some(p) => if crate::strutil::spec_basename(p@).len() > 0 {
                    r@ == crate::strutil::spec_stem(crate::strutil::spec_basename(p@))
                } else {
                    r@ == "insrcdata"@
                },
                None => r@ == "insrcdata"@,
            },
    {
        if let Some(pathbuf) = &self.projectpath {
            if let Some(name) = crate::strutil::file_stem(pathbuf.as_str()) {
                return name;
            }
        }
        let mut s = String::new();
        s.append("insrcdata");
        s
    }
}

/// One `[[table.col.target]]` clause: the external data type for one
/// target language.
pub struct Target {
    /// generated language
    pub lang: String,
    /// data type
    pub typ: String,
    /// transformer
    pub template: Option<String>,
    /// global directive
    pub import: Option<String>,
}

/// One `[[table.col]]` clause: a data column definition.
pub struct Col {
    /// name of the field in structure
    pub name: String,
    /// name of column header in source data
    pub src: Option<String>,
    /// exported data type of field
    pub format: Option<String>,
    /// generate accessor for range indexing
    pub range: Option<bool>,
    /// deduplicate similar rows
    pub single: Option<bool>,
    /// target (for object format)
    pub target: Option<Vec<Target>>,
    /// convert from row to label
    pub as_label: Option<String>,
    /// column containing documentation for each label
    pub label_helps: Option<String>,
}

/// One `[[table.join]]` clause: a join column definition.
pub struct Join {
    /// name of the field in structure
    pub name: String,
    /// name of column header in source data for join source
    pub src: Option<String>,
    /// name of column header for join target
    pub to: String,
    /// name of table for join target
    pub external: Option<String>,
    /// allow getter to return an Option
    pub optional: Option<bool>,
    /// generate accessor for reverse join
    pub reverse: Option<String>,
}

/// One `[[table.variant.either]]` clause: a variant destination.
pub struct Either {
    /// name of column header for join target
    pub to: String,
    /// name of table for join target
    pub external: Option<String>,
    /// generate accessor for reverse join
    pub reverse: Option<String>,
}

/// One `[[table.variant]]` clause: a variant join column definition.
pub struct Variant {
    /// name of the field in structure
    pub name: String,
    /// name of column header in source data for join source
    pub src: Option<String>,
    /// dest
    pub either: Vec<Either>,
    /// allow getter to return an Option
    pub optional: Option<bool>,
}

/// One `[[table]]` clause of the schema.
pub struct Table {
    pub name: String,
    pub src: Option<String>,
    pub array: Option<bool>,
    pub sorted: Option<bool>,
    pub col: Option<Vec<Col>>,
    pub join: Option<Vec<Join>>,
    pub variant: Option<Vec<Variant>>,
}

/// Root of the schema description.
pub struct Config {
    pub dest: Option<String>,
    pub table: Vec<Table>,
}

/// What the per-table passes need of the surroundings: the target language
/// and every table's raw cells.
pub struct TableContext {
    pub lang: Lang,
    pub col_values: ColumnValues,
}

/// The source header name of a column declaration.
pub open spec fn spec_col_src_name(c: &Col) -> Seq<char> {
    match c.src {
        Some(s) => s@,
        None => c.name@,
    }
}

/// The source header name of a join declaration.
pub open spec fn spec_join_src_name(j: &Join) -> Seq<char> {
    match j.src {
        Some(s) => s@,
        None => j.name@,
    }
}

/// The source header name of a variant declaration.
pub open spec fn spec_variant_src_name(v: &Variant) -> Seq<char> {
    match v.src {
        Some(s) => s@,
        None => v.name@,
    }
}

impl Col {
    pub fn src_name(&self) -> (r: &String)
        ensures
            r@ == spec_col_src_name(self),
    {
        match &self.src {
            Some(s) => s,
            None => &self.name,
        }
    }
}

impl Join {
    pub fn src_name(&self) -> (r: &String)
        ensures
            r@ == spec_join_src_name(self),
    {
        match &self.src {
            Some(s) => s,
            None => &self.name,
        }
    }
}

impl Variant {
    pub fn src_name(&self) -> (r: &String)
        ensures
            r@ == spec_variant_src_name(self),
    {
        match &self.src {
            Some(s) => s,
            None => &self.name,
        }
    }
}

impl Either {
    /// Turn this destination clause into a resolver destination.
    pub fn to_dest(&self, values: &Vec<String>, dest_table: String) -> (r: Dest)
        ensures
            r.table == dest_table,
            r.reverse@ == match self.reverse {
                Some(s) => s@,
                None => Seq::<char>::empty(),
            },
            r.max == 0,
            r.keys@.len() == values@.len(),
            forall|i: int| 0 <= i < values@.len() ==> #[trigger] r.keys@[i]@ == values@[i]@,
    {
        let rev = match &self.reverse {
            Some(s) => s.clone(),
            None => String::new(),
        };
        Dest::new(values, dest_table, rev)
    }
}

/// The composite dedup key of a record: the cells at `idxs`, in order, each
/// followed by a separator that legitimate values never contain.
pub open spec fn spec_unic_key(row: Seq<String>, idxs: Seq<usize>) -> Seq<char>
    decreases idxs.len(),
{
    if idxs.len() == 0 {
        Seq::empty()
    } else {
        spec_unic_key(row, idxs.drop_last()) + (if (idxs.last() as int) < row.len() {
            row[idxs.last() as int]@
        } else {
            Seq::empty()
        }) + seq!['\n']
    }
}

/// The key a fully blank record produces: one separator per key column.
pub open spec fn empty_key(n: nat) -> Seq<char>
    decreases n,
{
    if n == 0 {
        Seq::empty()
    } else {
        empty_key((n - 1) as nat) + seq!['\n']
    }
}

/// Whether record `r` survives deduplication: with no `single` column every
/// record survives; otherwise its key must not be blank and no earlier
/// record may share it.
pub open spec fn row_kept(records: Seq<Vec<String>>, idxs: Seq<usize>, r: int) -> bool {
    if idxs.len() == 0 {
        true
    } else {
        &&& spec_unic_key(records[r]@, idxs) != empty_key(idxs.len())
        &&& forall|q: int|
            0 <= q < r ==> spec_unic_key(#[trigger] records[q]@, idxs) != spec_unic_key(
                records[r]@,
                idxs,
            )
    }
}

/// The records of the first `n` that survive deduplication, in order.
pub open spec fn spec_survivors(records: Seq<Vec<String>>, idxs: Seq<usize>, n: int) -> Seq<int>
    decreases n,
{
    if n <= 0 {
        Seq::empty()
    } else {
        let prev = spec_survivors(records, idxs, n - 1);
        if row_kept(records, idxs, n - 1) {
            prev.push(n - 1)
        } else {
            prev
        }
    }
}

/// Dedup: ingesting rows where two records share the composite key keeps
/// only the first, whatever stands between them.
pub proof fn lemma_dedup_first(records: Seq<Vec<String>>, idxs: Seq<usize>, a: int, b: int)
    requires
        0 <= a < b < records.len(),
        idxs.len() > 0,
        spec_unic_key(records[a]@, idxs) == spec_unic_key(records[b]@, idxs),
    ensures
        !row_kept(records, idxs, b),
{
}

/// The column declarations of a table, empty when none.
pub open spec fn spec_cols_of(t: &Table) -> Seq<Col> {
    match t.col {
        Some(c) => c@,
        None => Seq::<Col>::empty(),
    }
}

/// The dedup key column positions of a table.
pub open spec fn spec_table_idxs(t: &Table, headers: Seq<String>) -> Seq<usize> {
    spec_unic_indexes(spec_cols_of(t), headers)
}

/// The records of a table that survive deduplication, in order.
pub open spec fn spec_table_surv(t: &Table, headers: Seq<String>, records: Seq<Vec<String>>) -> Seq<
    int,
> {
    spec_survivors(records, spec_table_idxs(t, headers), records.len() as int)
}

/// The `single`-flagged columns of `cols` located in `headers`, in
/// declaration order.
pub open spec fn spec_unic_indexes(cols: Seq<Col>, headers: Seq<String>) -> Seq<usize>
    decreases cols.len(),
{
    if cols.len() == 0 {
        Seq::empty()
    } else {
        let prev = spec_unic_indexes(cols.drop_last(), headers);
        let c = cols.last();
        if (match c.single {
            Some(b) => b,
            None => false,
        }) {
            match first_match(headers, spec_col_src_name(&c)) {
                Some(i) => prev.push(i as usize),
                None => prev,
            }
        } else {
            prev
        }
    }
}

/// The path of a table's delimited data source: the declared path, or the
/// lowercased table name with a `.csv` suffix, resolved against `indir`
/// unless absolute.
pub open spec fn spec_src_path(t: &Table, indir: Seq<char>) -> Seq<char> {
    let src = match t.src {
        Some(v) => v@,
        None => lower_of(t.name@) + ".csv"@,
    };
    if src.len() > 0 && src[0] == '/' {
        src
    } else {
        indir + "/"@ + src
    }
}

/// The entries one table's ingestion appends: per header, the composite
/// key and the surviving rows' cells.
pub open spec fn ingested_view(t: &Table, headers: Seq<String>, records: Seq<Vec<String>>) -> Seq<
    CvEntry,
> {
    let surv = spec_table_surv(t, headers, records);
    Seq::new(
        headers.len(),
        |j: int|
            (
                spec_colkey(t.name@, headers[j]@),
                Seq::new(surv.len(), |k: int| records[surv[k]]@[j]@),
            ),
    )
}

/// One table's ingestion succeeds against the store `m`: no composite key
/// repeats or already exists, and every surviving record covers the header.
pub open spec fn ingest_step_ok(
    m: Seq<CvEntry>,
    t: &Table,
    headers: Seq<String>,
    records: Seq<Vec<String>>,
) -> bool {
    let surv = spec_table_surv(t, headers, records);
    &&& (forall|j: int|
        0 <= j < headers.len() ==> view_find(
            m,
            spec_colkey(t.name@, #[trigger] headers[j]@),
        ) is None)
    &&& (forall|a: int, b: int|
        0 <= a < b < headers.len() ==> spec_colkey(t.name@, #[trigger] headers[a]@)
            != spec_colkey(t.name@, #[trigger] headers[b]@))
    &&& (forall|k: int| 0 <= k < surv.len() ==> records[#[trigger] surv[k]]@.len() >= headers.len())
}

impl Table {
    /// Index for a column of this table.
    pub fn key(&self, colname: &str) -> (r: String)
        ensures
            r@ == spec_colkey(self.name@, colname@),
    {
        colkey(self.name.as_str(), colname)
    }

    /// The path of the table's delimited data source: the declared path, or
    /// the lowercased table name with a `.csv` suffix, resolved against
    /// `indir` unless absolute.
    pub fn src_path(&self, indir: &str) -> (r: String)
        ensures
            r@ == spec_src_path(self, indir@),
    {
        let src: String = match &self.src {
            Some(v) => v.clone(),
            None => {
                let mut s = lowercase(self.name.as_str());
                s.append(".csv");
                s
            },
        };
        let absolute = if src.as_str().unicode_len() > 0 {
            src.as_str().get_char(0) == '/'
        } else {
            false
        };
        if absolute {
            src
        } else {
            let mut p = String::new();
            p.append(indir);
            p.append("/");
            p.append(src.as_str());
            p
        }
    }

    /// The positions in `headers` of the `single`-flagged key columns.
    pub fn unic_indexes(&self, headers: &Vec<String>) -> (r: Vec<usize>)
        ensures
            r@ == spec_unic_indexes(
                match self.col {
                    Some(cols) => cols@,
                    None => Seq::<Col>::empty(),
                },
                headers@,
            ),
            forall|k: int| 0 <= k < r@.len() ==> (#[trigger] r@[k] as nat) < headers@.len(),
    {
        let mut indexes: Vec<usize> = Vec::new();
        if let Some(cols) = &self.col {
            let n = cols.len();
            let mut i: usize = 0;
            while i < n
                invariant
                    i <= n,
                    n == cols@.len(),
                    indexes@ == spec_unic_indexes(cols@.take(i as int), headers@),
                    forall|k: int|
                        0 <= k < indexes@.len() ==> (#[trigger] indexes@[k] as nat)
                            < headers@.len(),
                decreases n - i,
            {
                proof {
                    assert(cols@.take(i + 1).drop_last() =~= cols@.take(i as int));
                    assert(cols@.take(i + 1).last() == cols@[i as int]);
                }
                let col = &cols[i];
                let single = match col.single {
                    Some(b) => b,
                    None => false,
                };
                if single {
                    match position_str(headers, col.src_name().as_str()) {
                        Some(value) => {
                            proof {
                                lemma_first_match_at(
                                    headers@,
                                    spec_col_src_name(&cols@[i as int]),
                                    value as int,
                                );
                            }
                            indexes.push(value);
                        },
                        None => {
                            proof {
                                lemma_first_match_none(
                                    headers@,
                                    spec_col_src_name(&cols@[i as int]),
                                );
                            }
                        },
                    }
                }
                i += 1;
            }
            proof {
                assert(cols@.take(n as int) =~= cols@);
            }
        }
        indexes
    }

    /// The composite dedup key of one record.
    pub fn unic_key(indexes: &Vec<usize>, row: &Vec<String>) -> (r: String)
        ensures
            r@ == spec_unic_key(row@, indexes@),
    {
        let n = indexes.len();
        let mut key = String::new();
        let mut i: usize = 0;
        while i < n
            invariant
                i <= n,
                n == indexes@.len(),
                key@ == spec_unic_key(row@, indexes@.take(i as int)),
            decreases n - i,
        {
            proof {
                assert(indexes@.take(i + 1).drop_last() =~= indexes@.take(i as int));
                assert(indexes@.take(i + 1).last() == indexes@[i as int]);
                reveal_strlit("\n");
            }
            let ix = indexes[i];
            if ix < row.len() {
                key.append(row[ix].as_str());
            }
            key.append("\n");
            i += 1;
        }
        proof {
            assert(indexes@.take(n as int) =~= indexes@);
        }
        key
    }

    /// Ingest one table's raw rows: locate the dedup key columns, drop
    /// blank-key and repeated-key records (keeping first occurrences in
    /// order), and store one column of cells per header under the table's
    /// composite keys. A duplicate column key or a surviving record shorter
    /// than the header is a fatal error that leaves `cols` unchanged.
    pub fn read_values(
        &self,
        headers: &Vec<String>,
        records: &Vec<Vec<String>>,
        cols: &mut ColumnValues,
    ) -> (r: aperror::Result<()>)
        requires
            old(cols).wf(),
        ensures
            final(cols).wf(),
            ({
                let surv = spec_table_surv(self, headers@, records@);
                &&& (r is Ok <==> {
                    &&& (forall|i: int|
                        0 <= i < headers@.len() ==> spec_get(
                            old(cols),
                            spec_colkey(self.name@, #[trigger] headers@[i]@),
                        ) is None)
                    &&& (forall|i: int, j: int|
                        0 <= i < j < headers@.len() ==> spec_colkey(
                            self.name@,
                            #[trigger] headers@[i]@,
                        ) != spec_colkey(self.name@, #[trigger] headers@[j]@))
                    &&& (forall|k: int|
                        0 <= k < surv.len() ==> records@[#[trigger] surv[k]]@.len()
                            >= headers@.len())
                })
                &&& (r is Ok <==> ingest_step_ok(old(cols)@, self, headers@, records@))
                &&& (r is Ok ==> final(cols)@ == old(cols)@ + ingested_view(
                    self,
                    headers@,
                    records@,
                ))
                &&& (r is Err ==> final(cols).names@ == old(cols).names@ && final(cols).cols@
                    == old(cols).cols@ && final(cols)@ == old(cols)@)
                &&& (r is Ok ==> {
                    &&& final(cols).names@.len() == old(cols).names@.len() + headers@.len()
                    &&& forall|i: int|
                        0 <= i < headers@.len() ==> (spec_get(
                            final(cols),
                            spec_colkey(self.name@, #[trigger] headers@[i]@),
                        ) matches Some(col) && col.len() == surv.len() && (forall|k: int|
                            0 <= k < surv.len() ==> (#[trigger] col[k])@
                                == records@[surv[k]]@[i]@))
                })
            }),
    {
        let idxs = self.unic_indexes(headers);
        let ghost idxsv = idxs@;
        proof {
            assert(idxsv == spec_table_idxs(self, headers@));
        }
        let hn = headers.len();
        // column keys, refused when one already exists or repeats
        let mut keys: Vec<String> = Vec::new();
        let mut i: usize = 0;
        while i < hn
            invariant
                i <= hn,
                hn == headers@.len(),
                cols.wf(),
                cols == old(cols),
                keys@.len() == i,
                forall|k: int|
                    0 <= k < i ==> (#[trigger] keys@[k])@ == spec_colkey(
                        self.name@,
                        headers@[k]@,
                    ),
                forall|k: int|
                    0 <= k < i ==> spec_get(
                        old(cols),
                        spec_colkey(self.name@, #[trigger] headers@[k]@),
                    ) is None,
                forall|a: int, b: int|
                    0 <= a < b < i ==> spec_colkey(self.name@, #[trigger] headers@[a]@)
                        != spec_colkey(self.name@, #[trigger] headers@[b]@),
            decreases hn - i,
        {
            let key = self.key(headers[i].as_str());
            if cols.contains(key.as_str()) {
                proof {
                    lemma_find_is_view(cols.names@, cols.cols@, key@);
                }
                let mut m = String::new();
                m.append("duplicate column ");
                m.append(key.as_str());
                return Err(Error::new(m.as_str()));
            }
            if crate::strutil::contains_str(&keys, key.as_str()) {
                proof {
                    let k = choose|k: int|
                        0 <= k < keys@.len() && #[trigger] keys@[k]@ == key@;
                    assert(spec_colkey(self.name@, headers@[k]@) == spec_colkey(
                        self.name@,
                        headers@[i as int]@,
                    ));
                }
                let mut m = String::new();
                m.append("duplicate column ");
                m.append(key.as_str());
                return Err(Error::new(m.as_str()));
            }
            proof {
                assert forall|a: int, b: int|
                    0 <= a < b < i + 1 implies spec_colkey(self.name@, #[trigger] headers@[a]@)
                    != spec_colkey(self.name@, #[trigger] headers@[b]@) by {
                    if b == i as int {
                        assert(keys@[a]@ == spec_colkey(self.name@, headers@[a]@));
                    }
                }
            }
            keys.push(key);
            i += 1;
        }
        // deduplication
        let rn = records.len();
        let mut kept: Vec<usize> = Vec::new();
        let mut seen: Vec<String> = Vec::new();
        let ghost mut srows: Seq<int> = Seq::empty();
        if idxs.len() > 0 {
            let blank: Vec<String> = Vec::new();
            let e = Table::unic_key(&idxs, &blank);
            proof {
                lemma_unic_key_blank(idxsv);
                srows = srows.push(-1);
            }
            seen.push(e);
            proof {
                assert(seen@[0]@ == empty_key(idxsv.len()));
            }
        }
        let mut r: usize = 0;
        while r < rn
            invariant
                r <= rn,
                rn == records@.len(),
                idxsv == idxs@,
                kept@.len() == spec_survivors(records@, idxsv, r as int).len(),
                forall|k: int|
                    0 <= k < kept@.len() ==> (#[trigger] kept@[k]) as int == spec_survivors(
                        records@,
                        idxsv,
                        r as int,
                    )[k] && (kept@[k] as nat) < records@.len(),
                idxsv.len() > 0 ==> {
                    &&& seen@.len() == srows.len()
                    &&& crate::strutil::seq_contains_str(seen@, empty_key(idxsv.len()))
                    &&& (forall|q: int|
                        0 <= q < r ==> crate::strutil::seq_contains_str(
                            seen@,
                            spec_unic_key(#[trigger] records@[q]@, idxsv),
                        ))
                    &&& (forall|k: int|
                        0 <= k < srows.len() ==> (#[trigger] srows[k]) == -1 && seen@[k]@
                            == empty_key(idxsv.len()) || (0 <= srows[k] < r && seen@[k]@
                            == spec_unic_key(records@[srows[k]]@, idxsv)))
                },
            decreases rn - r,
        {
            proof {
                assert(spec_survivors(records@, idxsv, r + 1) == if row_kept(
                    records@,
                    idxsv,
                    r as int,
                ) {
                    spec_survivors(records@, idxsv, r as int).push(r as int)
                } else {
                    spec_survivors(records@, idxsv, r as int)
                });
            }
            if idxs.len() == 0 {
                kept.push(r);
            } else {
                let key = Table::unic_key(&idxs, &records[r]);
                if crate::strutil::contains_str(&seen, key.as_str()) {
                    proof {
                        let k = choose|k: int|
                            0 <= k < seen@.len() && #[trigger] seen@[k]@ == key@;
                        let sk = srows[k];
                        if sk == -1 {
                            assert(spec_unic_key(records@[r as int]@, idxsv) == empty_key(
                                idxsv.len(),
                            ));
                        } else {
                            assert(spec_unic_key(records@[sk]@, idxsv) == spec_unic_key(
                                records@[r as int]@,
                                idxsv,
                            ));
                        }
                        assert(!row_kept(records@, idxsv, r as int));
                    }
                } else {
                    proof {
                        assert(row_kept(records@, idxsv, r as int)) by {
                            assert(crate::strutil::seq_contains_str(seen@, empty_key(idxsv.len())));
                            if spec_unic_key(records@[r as int]@, idxsv) == empty_key(
                                idxsv.len(),
                            ) {
                                assert(false);
                            }
                            assert forall|q: int|
                                0 <= q < r implies spec_unic_key(#[trigger] records@[q]@, idxsv)
                                != spec_unic_key(records@[r as int]@, idxsv) by {
                                assert(crate::strutil::seq_contains_str(
                                    seen@,
                                    spec_unic_key(records@[q]@, idxsv),
                                ));
                            }
                        }
                        srows = srows.push(r as int);
                    }
                    let ghost seen_prev = seen@;
                    let ghost keyv = key@;
                    seen.push(key);
                    kept.push(r);
                    proof {
                        lemma_contains_push(seen_prev, seen@.last(), empty_key(idxsv.len()));
                        assert forall|q: int|
                            0 <= q < r + 1 implies crate::strutil::seq_contains_str(
                            seen@,
                            spec_unic_key(#[trigger] records@[q]@, idxsv),
                        ) by {
                            if q < r {
                                lemma_contains_push(
                                    seen_prev,
                                    seen@.last(),
                                    spec_unic_key(records@[q]@, idxsv),
                                );
                            } else {
                                lemma_contains_push(
                                    seen_prev,
                                    seen@.last(),
                                    spec_unic_key(records@[r as int]@, idxsv),
                                );
                            }
                        }
                    }
                }
            }
            r += 1;
        }
        let ghost surv = spec_survivors(records@, idxsv, records@.len() as int);
        proof {
            assert(surv == spec_table_surv(self, headers@, records@));
        }
        // surviving records must cover every header column
        let kn = kept.len();
        let mut k: usize = 0;
        while k < kn
            invariant
                k <= kn,
                kn == kept@.len(),
                hn == headers@.len(),
                rn == records@.len(),
                cols.wf(),
                cols == old(cols),
                idxsv == spec_table_idxs(self, headers@),
                surv == spec_table_surv(self, headers@, records@),
                surv == spec_survivors(records@, idxsv, records@.len() as int),
                kept@.len() == surv.len(),
                forall|j: int|
                    0 <= j < kept@.len() ==> (#[trigger] kept@[j]) as int == surv[j] && (
                    kept@[j] as nat) < records@.len(),
                forall|j: int| 0 <= j < k ==> records@[#[trigger] surv[j]]@.len() >= hn,
                keys@.len() == hn,
                forall|j: int|
                    0 <= j < hn ==> (#[trigger] keys@[j])@ == spec_colkey(
                        self.name@,
                        headers@[j]@,
                    ),
                forall|j: int|
                    0 <= j < hn ==> spec_get(
                        old(cols),
                        spec_colkey(self.name@, #[trigger] headers@[j]@),
                    ) is None,
                forall|a: int, b: int|
                    0 <= a < b < hn ==> spec_colkey(self.name@, #[trigger] headers@[a]@)
                        != spec_colkey(self.name@, #[trigger] headers@[b]@),
            decreases kn - k,
        {
            if records[kept[k]].len() < hn {
                proof {
                    assert(records@[#[trigger] surv[k as int]]@.len() < headers@.len());
                }
                return Err(Error::new("short row"));
            }
            proof {
                assert(records@[surv[k as int]]@.len() >= hn);
            }
            k += 1;
        }
        // store the columns
        let ghost names0 = cols.names@;
        let mut i2: usize = 0;
        while i2 < hn
            invariant
                i2 <= hn,
                hn == headers@.len(),
                rn == records@.len(),
                cols.wf(),
                names0 == old(cols).names@,
                cols.names@.len() == names0.len() + i2,
                idxsv == spec_table_idxs(self, headers@),
                surv == spec_table_surv(self, headers@, records@),
                keys@.len() == hn,
                kn == kept@.len(),
                surv == spec_survivors(records@, idxsv, records@.len() as int),
                kept@.len() == surv.len(),
                forall|j: int|
                    0 <= j < kept@.len() ==> (#[trigger] kept@[j]) as int == surv[j] && (
                    kept@[j] as nat) < records@.len(),
                forall|j: int| 0 <= j < surv.len() ==> records@[#[trigger] surv[j]]@.len() >= hn,
                forall|j: int|
                    0 <= j < hn ==> (#[trigger] keys@[j])@ == spec_colkey(
                        self.name@,
                        headers@[j]@,
                    ),
                forall|j: int|
                    0 <= j < hn ==> spec_get(
                        old(cols),
                        spec_colkey(self.name@, #[trigger] headers@[j]@),
                    ) is None,
                forall|a: int, b: int|
                    0 <= a < b < hn ==> spec_colkey(self.name@, #[trigger] headers@[a]@)
                        != spec_colkey(self.name@, #[trigger] headers@[b]@),
                forall|j: int|
                    0 <= j < i2 ==> (spec_get(
                        cols,
                        spec_colkey(self.name@, #[trigger] headers@[j]@),
                    ) matches Some(col) && col.len() == surv.len() && (forall|q: int|
                        0 <= q < surv.len() ==> (#[trigger] col[q])@ == records@[surv[q]]@[j]@)),
                forall|j: int|
                    i2 <= j < hn ==> spec_get(
                        cols,
                        spec_colkey(self.name@, #[trigger] headers@[j]@),
                    ) is None,
                cols@ == old(cols)@ + ingested_view(self, headers@, records@).take(i2 as int),
            decreases hn - i2,
        {
            let mut colv: Vec<String> = Vec::new();
            let mut q: usize = 0;
            while q < kn
                invariant
                    q <= kn,
                    kn == kept@.len(),
                    i2 < hn,
                    hn == headers@.len(),
                    rn == records@.len(),
                    surv == spec_survivors(records@, idxsv, records@.len() as int),
                    kept@.len() == surv.len(),
                    forall|j: int|
                        0 <= j < kept@.len() ==> (#[trigger] kept@[j]) as int == surv[j] && (
                        kept@[j] as nat) < records@.len(),
                    forall|j: int|
                        0 <= j < surv.len() ==> records@[#[trigger] surv[j]]@.len() >= hn,
                    colv@.len() == q,
                    forall|j: int|
                        0 <= j < q ==> (#[trigger] colv@[j])@ == records@[surv[j]]@[i2 as int]@,
                decreases kn - q,
            {
                colv.push(records[kept[q]][i2].clone());
                q += 1;
            }
            let ghost pre = cols.names@;
            let ghost precols = cols.cols@;
            let ghost preview = cols@;
            let ghost colvv = colv@;
            let key = keys[i2].clone();
            cols.insert(key, colv);
            proof {
                assert forall|q: int|
                    0 <= q < cols@.len() implies #[trigger] cols@[q] == preview.push(
                    (keys@[i2 as int]@, cols.cols@.last().deep_view()),
                )[q] by {
                    if q < pre.len() {
                        assert(cols.names@[q] == pre[q]);
                        assert(cols.cols@[q] == precols[q]);
                    }
                }
                assert(cols@ =~= preview.push((keys@[i2 as int]@, cols.cols@.last().deep_view())));
                assert(cols.cols@.last().deep_view() =~= ingested_view(
                    self,
                    headers@,
                    records@,
                )[i2 as int].1) by {
                    assert forall|k: int|
                        0 <= k < colvv.len() implies colvv[k].deep_view() == records@[surv[k]]@[
                    i2 as int]@ by {
                        assert(colvv[k]@ == records@[surv[k]]@[i2 as int]@);
                    }
                }
                assert((keys@[i2 as int]@, cols.cols@.last().deep_view()) == ingested_view(
                    self,
                    headers@,
                    records@,
                )[i2 as int]);
                assert(cols@ =~= old(cols)@ + ingested_view(self, headers@, records@).take(
                    i2 + 1,
                ));
                let x = cols.names@.last();
                assert(x@ == spec_colkey(self.name@, headers@[i2 as int]@));
                assert forall|j: int|
                    0 <= j < i2 + 1 implies (spec_get(
                    cols,
                    spec_colkey(self.name@, #[trigger] headers@[j]@),
                ) matches Some(col) && col.len() == surv.len() && (forall|qq: int|
                    0 <= qq < surv.len() ==> (#[trigger] col[qq])@ == records@[surv[qq]]@[j]@)) by {
                    let kj = spec_colkey(self.name@, headers@[j]@);
                    lemma_first_match_push(pre, kj, x);
                    lemma_first_match_range(pre, kj);
                    if j == i2 as int {
                        assert(first_match(pre, kj) is None);
                        assert(first_match(cols.names@, kj) == Some(pre.len() as int));
                        assert(cols.cols@[pre.len() as int]@ == colvv);
                        assert(spec_get(cols, kj) == Some(cols.cols@[pre.len() as int]@));
                    }
                }
                assert forall|j: int|
                    i2 + 1 <= j < hn implies spec_get(
                    cols,
                    spec_colkey(self.name@, #[trigger] headers@[j]@),
                ) is None by {
                    let kj = spec_colkey(self.name@, headers@[j]@);
                    assert(spec_colkey(self.name@, headers@[i2 as int]@) != kj);
                    lemma_first_match_range(pre, kj);
                    lemma_first_match_push(pre, kj, x);
                }
            }
            i2 += 1;
        }
        proof {
            assert(ingested_view(self, headers@, records@).take(hn as int) =~= ingested_view(
                self,
                headers@,
                records@,
            ));
            assert forall|j: int|
                0 <= j < headers@.len() implies view_find(
                old(cols)@,
                spec_colkey(self.name@, #[trigger] headers@[j]@),
            ) is None by {
                lemma_find_is_view(
                    old(cols).names@,
                    old(cols).cols@,
                    spec_colkey(self.name@, headers@[j]@),
                );
                lemma_first_match_range(
                    old(cols).names@,
                    spec_colkey(self.name@, headers@[j]@),
                );
            }
        }
        Ok(())
    }
}

/// The targets declared on a column, empty when none.
pub open spec fn spec_targets(c: &Col) -> Seq<Target> {
    match c.target {
        Some(t) => t@,
        None => Seq::<Target>::empty(),
    }
}

/// The first target for a language.
pub open spec fn spec_target_match(ts: Seq<Target>, lang: Seq<char>) -> Option<int>
    decreases ts.len(),
{
    if ts.len() == 0 {
        None
    } else if ts[0].lang@ == lang {
        Some(0int)
    } else {
        match spec_target_match(ts.drop_first(), lang) {
            Some(i) => Some(i + 1),
            None => None,
        }
    }
}

proof fn lemma_target_match_at(ts: Seq<Target>, lang: Seq<char>, i: int)
    requires
        0 <= i < ts.len(),
        ts[i].lang@ == lang,
        forall|j: int| 0 <= j < i ==> #[trigger] ts[j].lang@ != lang,
    ensures
        spec_target_match(ts, lang) == Some(i),
    decreases i,
{
    if i > 0 {
        assert(ts.drop_first()[i - 1].lang@ == lang);
        assert forall|j: int| 0 <= j < i - 1 implies #[trigger] ts.drop_first()[j].lang@
            != lang by {
            assert(ts[j + 1].lang@ != lang);
        }
        lemma_target_match_at(ts.drop_first(), lang, i - 1);
    }
}

proof fn lemma_target_match_none(ts: Seq<Target>, lang: Seq<char>)
    requires
        forall|j: int| 0 <= j < ts.len() ==> #[trigger] ts[j].lang@ != lang,
    ensures
        spec_target_match(ts, lang) is None,
    decreases ts.len(),
{
    if ts.len() > 0 {
        assert forall|j: int|
            0 <= j < ts.drop_first().len() implies #[trigger] ts.drop_first()[j].lang@ != lang by {
            assert(ts[j + 1].lang@ != lang);
        }
        lemma_target_match_none(ts.drop_first(), lang);
    }
}

impl Col {
    /// The target clause declared for `lang`, if any.
    pub fn target(&self, lang: &str) -> (r: Option<&Target>)
        ensures
            match r {
                Some(t) => spec_target_match(spec_targets(self), lang@) matches Some(i) && *t
                    == spec_targets(self)[i],
                None => spec_target_match(spec_targets(self), lang@) is None,
            },
    {
        let ts = match &self.target {
            Some(ts) => ts,
            None => {
                proof {
                    lemma_target_match_none(spec_targets(self), lang@);
                }
                return None;
            },
        };
        let n = ts.len();
        let mut i: usize = 0;
        while i < n
            invariant
                i <= n,
                n == ts@.len(),
                ts@ == spec_targets(self),
                forall|j: int| 0 <= j < i ==> #[trigger] ts@[j].lang@ != lang@,
            decreases n - i,
        {
            if str_eq(ts[i].lang.as_str(), lang) {
                proof {
                    lemma_target_match_at(spec_targets(self), lang@, i as int);
                }
                return Some(&ts[i]);
            }
            i += 1;
        }
        proof {
            lemma_target_match_none(spec_targets(self), lang@);
        }
        None
    }

    /// Build an object column: pick the target clause of the generated
    /// language, refusing a column with no clause for it.
    pub fn create_object(&self, config: ColumnConfig, strvals: &Vec<String>, lang_ext: &str) -> (r:
        aperror::Result<Column>)
        ensures
            r is Ok <==> spec_target_match(spec_targets(self), lang_ext@) is Some,
            r matches Ok(c) ==> (c matches Column::Object(o) && spec_target_match(
                spec_targets(self),
                lang_ext@,
            ) matches Some(ti) && {
                let t = spec_targets(self)[ti];
                &&& o.info.config == config
                &&& o.info.len == strvals@.len()
                &&& o.values@.len() == strvals@.len()
                &&& (forall|i: int|
                    0 <= i < strvals@.len() ==> (#[trigger] o.values@[i])@ == strvals@[i]@)
                &&& (o.info.interface_type matches crate::basetype::BaseType::Object { objtype }
                    && objtype@ == t.typ@)
                &&& o.template@ == (match t.template {
                    Some(tpl) => tpl@,
                    None => "{}"@,
                })
                &&& o.import@ == (match t.import {
                    Some(im) => im@,
                    None => Seq::<char>::empty(),
                })
            }),
    {
        let target = match self.target(lang_ext) {
            Some(t) => t,
            None => {
                let mut m = String::new();
                m.append("target language ");
                m.append(lang_ext);
                m.append(" not defined for column ");
                m.append(self.name.as_str());
                return Err(Error::new(m.as_str()));
            },
        };
        let values = crate::strutil::clone_strings(strvals);
        let template: String = match &target.template {
            Some(t) => t.clone(),
            None => {
                let mut s = String::new();
                s.append("{}");
                s
            },
        };
        let import: String = match &target.import {
            Some(t) => t.clone(),
            None => String::new(),
        };
        Ok(
            Column::Object(
                ColObject::new(
                    config,
                    values,
                    target.typ.as_str(),
                    template.as_str(),
                    import.as_str(),
                ),
            ),
        )
    }

    /// Build a label column: resolve the optional help column, and expose
    /// the labels as a data column only where the language supports it.
    pub fn create_label(
        &self,
        config: ColumnConfig,
        strvals: &Vec<String>,
        ctx: &TableContext,
        table: &Table,
    ) -> (r: aperror::Result<Column>)
        requires
            ctx.col_values.wf(),
        ensures
            r is Ok <==> (match self.label_helps {
                Some(h) => spec_get(&ctx.col_values, spec_colkey(table.name@, h@)) is Some,
                None => true,
            }),
            r matches Ok(c) ==> (c matches Column::Label(l) && {
                &&& l.info.len == strvals@.len()
                &&& l.info.config.iterable == config.iterable
                &&& l.info.config.optional == config.optional
                &&& l.labels@.len() == strvals@.len()
                &&& (forall|i: int|
                    0 <= i < strvals@.len() ==> (#[trigger] l.labels@[i])@ == strvals@[i]@)
                &&& (l.info.interface_type matches crate::basetype::BaseType::Label { name }
                    && name@ == config.name@)
                &&& l.info.config.name@ == (if ctx.lang is Rust {
                    match self.as_label {
                        Some(a) => a@,
                        None => Seq::<char>::empty(),
                    }
                } else {
                    Seq::<char>::empty()
                })
                &&& (match self.label_helps {
                    Some(h) => spec_get(&ctx.col_values, spec_colkey(table.name@, h@)) matches Some(
                        hv,
                    ) && l.label_helps@.len() == hv.len() && (forall|i: int|
                        0 <= i < hv.len() ==> (#[trigger] l.label_helps@[i])@ == hv[i]@),
                    None => l.label_helps@.len() == strvals@.len() && (forall|i: int|
                        0 <= i < strvals@.len() ==> (#[trigger] l.label_helps@[i])@.len() == 0),
                })
            }),
    {
        let label_helps: Vec<String> = match &self.label_helps {
            None => {
                let n = strvals.len();
                let mut empties: Vec<String> = Vec::new();
                let mut i: usize = 0;
                while i < n
                    invariant
                        i <= n,
                        empties@.len() == i,
                        forall|k: int| 0 <= k < i ==> (#[trigger] empties@[k])@.len() == 0,
                    decreases n - i,
                {
                    empties.push(String::new());
                    i += 1;
                }
                empties
            },
            Some(helpcolname) => {
                let key = table.key(helpcolname.as_str());
                match ctx.col_values.get(key.as_str()) {
                    Some(vals) => crate::strutil::clone_strings(vals),
                    None => {
                        let mut m = String::new();
                        m.append("label help column not found ");
                        m.append(helpcolname.as_str());
                        return Err(Error::new(m.as_str()));
                    },
                }
            },
        };
        // an empty field name prevents label column promotion
        let namespace = config.name.clone();
        let name: String = if ctx.lang.to_label() {
            match &self.as_label {
                Some(a) => a.clone(),
                None => String::new(),
            }
        } else {
            String::new()
        };
        let ColumnConfig { name: _, help, iterable, iter_help, optional } = config;
        let config2 = ColumnConfig { name, help, iterable, iter_help, optional };
        let col = ColLabel::parse(config2, namespace.as_str(), strvals, &label_helps)?;
        Ok(Column::Label(col))
    }
}

/// The cells a column declaration reads: the column of its source header.
pub open spec fn spec_col_lookup(ctx: &TableContext, table: &Table, c: &Col) -> Option<
    Seq<String>,
> {
    spec_get(&ctx.col_values, spec_colkey(table.name@, spec_col_src_name(c)))
}

/// The declared format of a column, `str` when omitted.
pub open spec fn spec_format(c: &Col) -> Seq<char> {
    match c.format {
        Some(f) => f@,
        None => "str"@,
    }
}

/// The integer interface type a format name declares, if any.
pub open spec fn int_format_type(fmt: Seq<char>) -> Option<crate::basetype::BaseType> {
    if fmt == "i8"@ {
        Some(crate::basetype::BaseType::I8)
    } else if fmt == "i16"@ {
        Some(crate::basetype::BaseType::I16)
    } else if fmt == "i32"@ {
        Some(crate::basetype::BaseType::I32)
    } else if fmt == "i64"@ {
        Some(crate::basetype::BaseType::I64)
    } else if fmt == "u8"@ {
        Some(crate::basetype::BaseType::U8)
    } else if fmt == "u16"@ {
        Some(crate::basetype::BaseType::U16)
    } else if fmt == "u32"@ {
        Some(crate::basetype::BaseType::U32)
    } else if fmt == "u64"@ {
        Some(crate::basetype::BaseType::U64)
    } else {
        None
    }
}

proof fn lemma_format_literals()
    ensures
        "bool"@ == seq!['b', 'o', 'o', 'l'],
        "i8"@ == seq!['i', '8'],
        "i16"@ == seq!['i', '1', '6'],
        "i32"@ == seq!['i', '3', '2'],
        "i64"@ == seq!['i', '6', '4'],
        "u8"@ == seq!['u', '8'],
        "u16"@ == seq!['u', '1', '6'],
        "u32"@ == seq!['u', '3', '2'],
        "u64"@ == seq!['u', '6', '4'],
        "str"@ == seq!['s', 't', 'r'],
        "label"@ == seq!['l', 'a', 'b', 'e', 'l'],
        "object"@ == seq!['o', 'b', 'j', 'e', 'c', 't'],
{
    reveal_strlit("bool");
    reveal_strlit("i8");
    reveal_strlit("i16");
    reveal_strlit("i32");
    reveal_strlit("i64");
    reveal_strlit("u8");
    reveal_strlit("u16");
    reveal_strlit("u32");
    reveal_strlit("u64");
    reveal_strlit("str");
    reveal_strlit("label");
    reveal_strlit("object");
    assert("bool"@ =~= seq!['b', 'o', 'o', 'l']);
    assert("i8"@ =~= seq!['i', '8']);
    assert("i16"@ =~= seq!['i', '1', '6']);
    assert("i32"@ =~= seq!['i', '3', '2']);
    assert("i64"@ =~= seq!['i', '6', '4']);
    assert("u8"@ =~= seq!['u', '8']);
    assert("u16"@ =~= seq!['u', '1', '6']);
    assert("u32"@ =~= seq!['u', '3', '2']);
    assert("u64"@ =~= seq!['u', '6', '4']);
    assert("str"@ =~= seq!['s', 't', 'r']);
    assert("label"@ =~= seq!['l', 'a', 'b', 'e', 'l']);
    assert("object"@ =~= seq!['o', 'b', 'j', 'e', 'c', 't']);
}

/// A `[[table.col]]` declaration resolves: its cells are found and, per the
/// declared format, parse, find their label helps, or find their target.
pub open spec fn col_ok(ctx: &TableContext, table: &Table, c: &Col) -> bool {
    match spec_col_lookup(ctx, table, c) {
        Some(vals) => if spec_format(c) == "bool"@ {
            forall|i: int|
                0 <= i < vals.len() ==> crate::colbool::spec_bool_value(
                    lower_of(#[trigger] vals[i]@),
                ) is Some
        } else if int_format_type(spec_format(c)) is Some {
            forall|i: int|
                0 <= i < vals.len() ==> crate::strutil::is_i64_string(#[trigger] vals[i]@)
        } else if spec_format(c) == "str"@ {
            true
        } else if spec_format(c) == "label"@ {
            match c.label_helps {
                Some(h) => spec_get(&ctx.col_values, spec_colkey(table.name@, h@)) is Some,
                None => true,
            }
        } else if spec_format(c) == "object"@ {
            spec_target_match(
                spec_targets(c),
                match ctx.lang {
                    Lang::Rust => "rs"@,
                    Lang::C => "c"@,
                    Lang::Swift => "swift"@,
                },
            ) is Some
        } else {
            false
        },
        None => false,
    }
}

/// `col` is the column a resolving `[[table.col]]` declaration builds.
pub open spec fn col_built(ctx: &TableContext, table: &Table, c: &Col, col: &Column) -> bool {
    match spec_col_lookup(ctx, table, c) {
        Some(vals) => {
            &&& crate::table::spec_info(col).len == vals.len()
            &&& crate::table::spec_info(col).config.iterable == (match c.range {
                Some(b) => b,
                None => false,
            })
            &&& crate::table::spec_info(col).config.optional == false
            &&& (spec_format(c) != "label"@ ==> crate::table::spec_info(col).config.name@
                == c.name@)
            &&& (spec_format(c) == "bool"@ ==> (col matches Column::Bool(b) && (forall|i: int|
                0 <= i < vals.len() ==> #[trigger] b.values@[i] == crate::colbool::spec_bool_value(
                    lower_of(vals[i]@),
                )->0)))
            &&& (int_format_type(spec_format(c)) matches Some(bt) ==> (col matches Column::Int(ci)
                && ci.info.interface_type == bt && (forall|i: int|
                0 <= i < vals.len() ==> #[trigger] ci.values@[i] as int
                    == crate::strutil::int_value(vals[i]@))))
            &&& (spec_format(c) == "str"@ ==> (col matches Column::Str(cs) && (forall|i: int|
                0 <= i < vals.len() ==> (#[trigger] cs.values@[i])@ == vals[i]@)))
            &&& (spec_format(c) == "label"@ ==> (col matches Column::Label(cl) && (forall|i: int|
                0 <= i < vals.len() ==> (#[trigger] cl.labels@[i])@ == vals[i]@)))
            &&& (spec_format(c) == "object"@ ==> col is Object)
        },
        None => false,
    }
}

impl Col {
    /// Build the column object a `[[table.col]]` declaration describes:
    /// look up its cells and parse them per the declared format.
    pub fn create(&self, ctx: &TableContext, table: &Table) -> (r: aperror::Result<Column>)
        requires
            ctx.col_values.wf(),
        ensures
            r is Ok <==> col_ok(ctx, table, self),
            r matches Ok(c) ==> col_built(ctx, table, self, &c),
    {
        proof {
            lemma_format_literals();
        }
        let src = self.src_name();
        let key = table.key(src.as_str());
        let strvals = match ctx.col_values.get(key.as_str()) {
            Some(v) => v,
            None => {
                let mut m = String::new();
                m.append("column not found ");
                m.append(key.as_str());
                return Err(Error::new(m.as_str()));
            },
        };
        proof {
            assert(spec_col_lookup(ctx, table, self) == Some(strvals@));
        }
        let config = ColumnConfig {
            name: self.name.clone(),
            help: None,
            iterable: match self.range {
                Some(b) => b,
                None => false,
            },
            iter_help: None,
            optional: false,
        };
        let format: &str = match &self.format {
            Some(f) => f.as_str(),
            None => "str",
        };
        if str_eq(format, "bool") {
            let c = ColBool::parse(config, strvals)?;
            Ok(Column::Bool(c))
        } else if str_eq(format, "i8") {
            let c = ColInt::parse(config, strvals, crate::basetype::BaseType::I8)?;
            Ok(Column::Int(c))
        } else if str_eq(format, "i16") {
            let c = ColInt::parse(config, strvals, crate::basetype::BaseType::I16)?;
            Ok(Column::Int(c))
        } else if str_eq(format, "i32") {
            let c = ColInt::parse(config, strvals, crate::basetype::BaseType::I32)?;
            Ok(Column::Int(c))
        } else if str_eq(format, "i64") {
            let c = ColInt::parse(config, strvals, crate::basetype::BaseType::I64)?;
            Ok(Column::Int(c))
        } else if str_eq(format, "u8") {
            let c = ColInt::parse(config, strvals, crate::basetype::BaseType::U8)?;
            Ok(Column::Int(c))
        } else if str_eq(format, "u16") {
            let c = ColInt::parse(config, strvals, crate::basetype::BaseType::U16)?;
            Ok(Column::Int(c))
        } else if str_eq(format, "u32") {
            let c = ColInt::parse(config, strvals, crate::basetype::BaseType::U32)?;
            Ok(Column::Int(c))
        } else if str_eq(format, "u64") {
            let c = ColInt::parse(config, strvals, crate::basetype::BaseType::U64)?;
            Ok(Column::Int(c))
        } else if str_eq(format, "str") {
            let c = ColStr::parse(config, strvals)?;
            Ok(Column::Str(c))
        } else if str_eq(format, "label") {
            self.create_label(config, strvals, ctx, table)
        } else if str_eq(format, "object") {
            let ext = ctx.lang.extension();
            self.create_object(config, strvals, ext.as_str())
        } else {
            let mut m = String::new();
            m.append("unknown column type '");
            m.append(format);
            m.append("'");
            Err(Error::new(m.as_str()))
        }
    }
}

/// The destination table name of a join declaration.
pub open spec fn spec_join_dest(j: &Join, table: &Table) -> Seq<char> {
    match j.external {
        Some(e) => e@,
        None => table.name@,
    }
}

/// A `[[table.join]]` declaration resolves: its source cells and the
/// destination key column are found, and the destination is addressable.
pub open spec fn join_ok(ctx: &TableContext, table: &Table, j: &Join) -> bool {
    let src = spec_get(&ctx.col_values, spec_colkey(table.name@, spec_join_src_name(j)));
    let dest = spec_get(&ctx.col_values, spec_colkey(spec_join_dest(j, table), j.to@));
    &&& src is Some
    &&& (dest matches Some(dk) && dk.len() < 0x7FFF_FFFF_FFFF_FFFF && dk.len() < usize::MAX)
}

/// `col` is the column a resolving `[[table.join]]` declaration builds.
pub open spec fn join_built(ctx: &TableContext, table: &Table, j: &Join, col: &Column) -> bool {
    let src = spec_get(&ctx.col_values, spec_colkey(table.name@, spec_join_src_name(j)));
    let dest = spec_get(&ctx.col_values, spec_colkey(spec_join_dest(j, table), j.to@));
    &&& src matches Some(vals) && dest matches Some(dk) && (col matches Column::Join(jc) && {
        &&& jc.values@.len() == vals.len()
        &&& (forall|i: int|
            0 <= i < vals.len() ==> #[trigger] jc.values@[i] as nat
                == crate::coljoin::join_value(dk, vals[i]@))
        &&& jc.info.config.name@ == j.name@
        &&& jc.info.config.optional == (match j.optional {
            Some(b) => b,
            None => false,
        })
        &&& jc.info.config.iterable == ((match j.reverse {
            Some(rv) => rv@,
            None => Seq::<char>::empty(),
        }).len() > 0)
        &&& jc.reverse_name@ == (match j.reverse {
            Some(rv) => rv@,
            None => Seq::<char>::empty(),
        })
        &&& (jc.info.interface_type matches crate::basetype::BaseType::Join { strname }
            && strname@ == spec_join_dest(j, table))
    })
}

impl Join {
    /// Build the column object a `[[table.join]]` declaration describes:
    /// resolve every source cell against the destination key column.
    pub fn create(&self, ctx: &TableContext, table: &Table) -> (r: aperror::Result<Column>)
        requires
            ctx.col_values.wf(),
        ensures
            r is Ok <==> join_ok(ctx, table, self),
            r matches Ok(c) ==> join_built(ctx, table, self, &c),
    {
        let src = self.src_name();
        let key = table.key(src.as_str());
        let values = match ctx.col_values.get(key.as_str()) {
            Some(v) => v,
            None => {
                let mut m = String::new();
                m.append("column not found ");
                m.append(key.as_str());
                return Err(Error::new(m.as_str()));
            },
        };
        let dest_table: &String = match &self.external {
            Some(e) => e,
            None => &table.name,
        };
        let dest_col = colkey(dest_table.as_str(), self.to.as_str());
        let dest_keys = match ctx.col_values.get(dest_col.as_str()) {
            Some(v) => v,
            None => {
                let mut m = String::new();
                m.append("column not found ");
                m.append(dest_col.as_str());
                return Err(Error::new(m.as_str()));
            },
        };
        if dest_keys.len() as u64 >= 0x7FFF_FFFF_FFFF_FFFFu64 || dest_keys.len() >= usize::MAX {
            return Err(Error::new("too many destination rows"));
        }
        let config = ColumnConfig {
            name: self.name.clone(),
            help: None,
            iterable: false,  // will be computed from reverse
            iter_help: None,
            optional: match self.optional {
                Some(b) => b,
                None => false,
            },
        };
        let reverse: &str = match &self.reverse {
            Some(rv) => rv.as_str(),
            None => "",
        };
        proof {
            reveal_strlit("");
            match &self.reverse {
                Some(rv) => {
                    assert(reverse@ == rv@);
                },
                None => {
                    assert(reverse@ =~= Seq::<char>::empty());
                },
            }
        }
        let c = Column::Join(ColJoin::new(config, values, dest_table.as_str(), dest_keys, reverse));
        proof {
            assert(join_built(ctx, table, self, &c));
        }
        Ok(c)
    }
}

/// The destination table name of a variant clause.
pub open spec fn spec_either_dest(e: &Either, table: &Table) -> Seq<char> {
    match e.external {
        Some(x) => x@,
        None => table.name@,
    }
}

/// The key column a variant clause resolves against.
pub open spec fn spec_either_lookup(ctx: &TableContext, table: &Table, e: &Either) -> Option<
    Seq<String>,
> {
    spec_get(&ctx.col_values, spec_colkey(spec_either_dest(e, table), e.to@))
}

/// The key columns the variant clauses resolve against, blank where a
/// clause's lookup fails.
pub open spec fn spec_either_keyss(ctx: &TableContext, table: &Table, eithers: Seq<Either>) -> Seq<
    Seq<String>,
> {
    Seq::new(
        eithers.len(),
        |d: int|
            match spec_either_lookup(ctx, table, &eithers[d]) {
                Some(ks) => ks,
                None => Seq::<String>::empty(),
            },
    )
}

/// The total size of the clauses' key columns.
pub open spec fn spec_eithers_total(ctx: &TableContext, table: &Table, eithers: Seq<Either>) -> nat
    decreases eithers.len(),
{
    if eithers.len() == 0 {
        0
    } else {
        spec_eithers_total(ctx, table, eithers.drop_last()) + (match spec_either_lookup(
            ctx,
            table,
            &eithers.last(),
        ) {
            Some(ks) => ks.len(),
            None => 0,
        })
    }
}

/// A `[[table.variant]]` declaration resolves: its source cells and every
/// destination key column are found, the offset space fits, and every cell
/// points at some destination.
pub open spec fn variant_ok(ctx: &TableContext, table: &Table, v: &Variant) -> bool {
    let srcv = spec_get(&ctx.col_values, spec_colkey(table.name@, spec_variant_src_name(v)));
    let opt = match v.optional {
        Some(b) => b,
        None => false,
    };
    &&& srcv is Some
    &&& (forall|d: int|
        0 <= d < v.either@.len() ==> spec_either_lookup(
            ctx,
            table,
            &(#[trigger] v.either@[d]),
        ) is Some)
    &&& spec_eithers_total(ctx, table, v.either@) + 1 <= usize::MAX
    &&& spec_eithers_total(ctx, table, v.either@) + 1 <= 0x7FFF_FFFF_FFFF_FFFF
    &&& (srcv matches Some(vals) && (forall|i: int|
        0 <= i < vals.len() ==> crate::colvariant::spec_tabrow(
            spec_either_keyss(ctx, table, v.either@),
            opt,
            #[trigger] vals[i]@,
        ) is Some))
}

/// `col` is the column a resolving `[[table.variant]]` declaration builds.
pub open spec fn variant_built(ctx: &TableContext, table: &Table, v: &Variant, col: &Column) -> bool {
    col matches Column::Variant(vc) && {
        &&& vc.info.config.name@ == v.name@
        &&& vc.info.config.optional == (match v.optional {
            Some(b) => b,
            None => false,
        })
        &&& crate::colvariant::lanes_contiguous(vc.tables@)
        &&& vc.tables@.len() == v.either@.len() + (if vc.info.config.optional {
            1int
        } else {
            0int
        })
        &&& (match spec_get(
            &ctx.col_values,
            spec_colkey(table.name@, spec_variant_src_name(v)),
        ) {
            Some(vals) => vc.values@.len() == vals.len() && vc.info.len == vals.len(),
            None => false,
        })
    }
}

impl Variant {
    /// Build the column object a `[[table.variant]]` declaration describes:
    /// resolve every cell against the destination clauses in order and pack
    /// the lanes.
    pub fn create(&self, ctx: &TableContext, table: &Table) -> (r: aperror::Result<Column>)
        requires
            ctx.col_values.wf(),
        ensures
            r is Ok <==> variant_ok(ctx, table, self),
            r matches Ok(c) ==> variant_built(ctx, table, self, &c),
    {
        let ghost opt: bool = match self.optional {
            Some(b) => b,
            None => false,
        };
        let src = self.src_name();
        let key = table.key(src.as_str());
        let values = match ctx.col_values.get(key.as_str()) {
            Some(v) => v,
            None => {
                let mut m = String::new();
                m.append("column not found ");
                m.append(key.as_str());
                return Err(Error::new(m.as_str()));
            },
        };
        let en = self.either.len();
        let mut dests: Vec<Dest> = Vec::new();
        let mut total: u128 = 0;
        let mut d: usize = 0;
        while d < en
            invariant
                d <= en,
                en == self.either@.len(),
                ctx.col_values.wf(),
                dests@.len() == d,
                forall|e: int| 0 <= e < d ==> (#[trigger] dests@[e].max) == 0usize,
                total as nat == crate::colvariant::spec_keys_total(dests@),
                total as nat == spec_eithers_total(ctx, table, self.either@.take(d as int)),
                total <= 0xFFFF_FFFF_FFFF_FFFFu128 * (d as u128),
                forall|e: int|
                    0 <= e < d ==> spec_either_lookup(
                        ctx,
                        table,
                        &(#[trigger] self.either@[e]),
                    ) is Some,
                crate::colvariant::keyss_congruent(
                    crate::colvariant::dest_keys(dests@),
                    spec_either_keyss(ctx, table, self.either@.take(d as int)),
                ),
            decreases en - d,
        {
            proof {
                assert(self.either@.take(d + 1).drop_last() =~= self.either@.take(d as int));
                assert(self.either@.take(d + 1).last() == self.either@[d as int]);
            }
            let n = &self.either[d];
            let dest_table: &String = match &n.external {
                Some(e) => e,
                None => &table.name,
            };
            let dest_col = colkey(dest_table.as_str(), n.to.as_str());
            let dest_keys = match ctx.col_values.get(dest_col.as_str()) {
                Some(v) => v,
                None => {
                    proof {
                        assert(spec_either_lookup(
                            ctx,
                            table,
                            &self.either@[d as int],
                        ) is None);
                    }
                    let mut m = String::new();
                    m.append("variant column ");
                    m.append(n.to.as_str());
                    m.append(" not found for table ");
                    m.append(dest_table.as_str());
                    return Err(Error::new(m.as_str()));
                },
            };
            let ghost prev = dests@;
            let dest = n.to_dest(dest_keys, dest_table.clone());
            let klen = dest.keys.len();
            dests.push(dest);
            proof {
                assert(dests@.drop_last() =~= prev);
                let a = crate::colvariant::dest_keys(dests@);
                let b = spec_either_keyss(ctx, table, self.either@.take(d + 1));
                assert forall|e: int|
                    0 <= e < a.len() implies (#[trigger] a[e]).len() == b[e].len() && (forall|
                    i: int,
                |
                    0 <= i < a[e].len() ==> (#[trigger] a[e][i])@ == b[e][i]@) by {
                    if e < d as int {
                        let a0 = crate::colvariant::dest_keys(prev);
                        let b0 = spec_either_keyss(ctx, table, self.either@.take(d as int));
                        assert(a[e] == a0[e]);
                        assert(b[e] == b0[e]);
                        assert(a0[e].len() == b0[e].len() && (forall|i: int|
                            0 <= i < a0[e].len() ==> (#[trigger] a0[e][i])@ == b0[e][i]@));
                    }
                }
            }
            total = total + klen as u128;
            d += 1;
        }
        proof {
            assert(self.either@.take(en as int) =~= self.either@);
        }
        if total + 1 > 0x7FFF_FFFF_FFFF_FFFFu128 || total + 1 > usize::MAX as u128 {
            return Err(Error::new("too many destination rows"));
        }
        let config = ColumnConfig {
            name: self.name.clone(),
            help: None,
            iterable: false,  // will be computed from reverse
            iter_help: None,
            optional: match self.optional {
                Some(b) => b,
                None => false,
            },
        };
        let ghost dpre = dests@;
        let ghost keyss_a = crate::colvariant::dest_keys(dpre);
        let ghost keyss_b = spec_either_keyss(ctx, table, self.either@);
        match ColVariant::parse(config, values, &mut dests) {
            Ok(col) => {
                proof {
                    assert forall|i: int|
                        0 <= i < values@.len() implies crate::colvariant::spec_tabrow(
                        keyss_b,
                        opt,
                        #[trigger] values@[i]@,
                    ) is Some by {
                        crate::colvariant::lemma_dest_match_congruent(
                            keyss_a,
                            keyss_b,
                            values@[i]@,
                        );
                    }
                }
                Ok(Column::Variant(col))
            },
            Err(e) => {
                proof {
                    assert(!(forall|i: int|
                        0 <= i < values@.len() ==> crate::colvariant::spec_tabrow(
                            keyss_a,
                            opt,
                            #[trigger] values@[i]@,
                        ) is Some));
                    if forall|i: int|
                        0 <= i < values@.len() ==> crate::colvariant::spec_tabrow(
                            keyss_b,
                            opt,
                            #[trigger] values@[i]@,
                        ) is Some {
                        assert forall|i: int|
                            0 <= i < values@.len() implies crate::colvariant::spec_tabrow(
                            keyss_a,
                            opt,
                            #[trigger] values@[i]@,
                        ) is Some by {
                            crate::colvariant::lemma_dest_match_congruent(
                                keyss_a,
                                keyss_b,
                                values@[i]@,
                            );
                        }
                        assert(false);
                    }
                }
                Err(e)
            },
        }
    }
}

/// The join declarations of a table, empty when none.
pub open spec fn spec_joins_of(t: &Table) -> Seq<Join> {
    match t.join {
        Some(j) => j@,
        None => Seq::<Join>::empty(),
    }
}

/// The variant declarations of a table, empty when none.
pub open spec fn spec_variants_of(t: &Table) -> Seq<Variant> {
    match t.variant {
        Some(v) => v@,
        None => Seq::<Variant>::empty(),
    }
}

/// The declarations among the first `n` data columns that resolve, in
/// declaration order.
pub open spec fn cols_ok_idx(ctx: &TableContext, t: &Table, n: int) -> Seq<int>
    decreases n,
{
    if n <= 0 {
        Seq::empty()
    } else {
        let prev = cols_ok_idx(ctx, t, n - 1);
        if col_ok(ctx, t, &spec_cols_of(t)[n - 1]) {
            prev.push(n - 1)
        } else {
            prev
        }
    }
}

/// The declarations among the first `n` joins that resolve, in order.
pub open spec fn joins_ok_idx(ctx: &TableContext, t: &Table, n: int) -> Seq<int>
    decreases n,
{
    if n <= 0 {
        Seq::empty()
    } else {
        let prev = joins_ok_idx(ctx, t, n - 1);
        if join_ok(ctx, t, &spec_joins_of(t)[n - 1]) {
            prev.push(n - 1)
        } else {
            prev
        }
    }
}

/// The declarations among the first `n` variants that resolve, in order.
pub open spec fn variants_ok_idx(ctx: &TableContext, t: &Table, n: int) -> Seq<int>
    decreases n,
{
    if n <= 0 {
        Seq::empty()
    } else {
        let prev = variants_ok_idx(ctx, t, n - 1);
        if variant_ok(ctx, t, &spec_variants_of(t)[n - 1]) {
            prev.push(n - 1)
        } else {
            prev
        }
    }
}

/// The failures building one table records: one per declaration that does
/// not resolve.
pub open spec fn table_fail_count(ctx: &TableContext, t: &Table) -> int {
    spec_cols_of(t).len() + spec_joins_of(t).len() + spec_variants_of(t).len() - cols_ok_idx(
        ctx,
        t,
        spec_cols_of(t).len() as int,
    ).len() - joins_ok_idx(ctx, t, spec_joins_of(t).len() as int).len() - variants_ok_idx(
        ctx,
        t,
        spec_variants_of(t).len() as int,
    ).len()
}

/// `r` is the table a `[[table]]` declaration builds against `ctx`: the
/// resolving data columns, then the resolving joins, then the resolving
/// variants, each with the contents its declaration's contract fixes.
pub open spec fn table_built(ctx: &TableContext, decl: &Table, r: &crate::table::Table) -> bool {
    let okc = cols_ok_idx(ctx, decl, spec_cols_of(decl).len() as int);
    let okj = joins_ok_idx(ctx, decl, spec_joins_of(decl).len() as int);
    let okv = variants_ok_idx(ctx, decl, spec_variants_of(decl).len() as int);
    &&& r.wf()
    &&& r.name@ == decl.name@
    &&& r.get_array == (match decl.array {
        Some(b) => b,
        None => false,
    })
    &&& r.exhaustive == false
    &&& r.help is None
    &&& r.columns@.len() == okc.len() + okj.len() + okv.len()
    &&& (forall|k: int|
        0 <= k < okc.len() ==> col_built(
            ctx,
            decl,
            &spec_cols_of(decl)[okc[k]],
            &(#[trigger] r.columns@[k]),
        ))
    &&& (forall|k: int|
        0 <= k < okj.len() ==> join_built(
            ctx,
            decl,
            &spec_joins_of(decl)[okj[k]],
            &(#[trigger] r.columns@[okc.len() + k]),
        ))
    &&& (forall|k: int|
        0 <= k < okv.len() ==> variant_built(
            ctx,
            decl,
            &spec_variants_of(decl)[okv[k]],
            &(#[trigger] r.columns@[okc.len() + okj.len() + k]),
        ))
    &&& r.len == (if r.columns@.len() == 0 {
        0int
    } else {
        crate::table::spec_info(&r.columns@[0]).len as int
    })
}

impl Table {
    /// Create the table object: build each declared data, join and variant
    /// column in order, funnelling failures into the collector, and
    /// partition what was built.
    pub fn create(&self, ctx: &TableContext, linter: &mut Linter) -> (r: crate::table::Table)
        requires
            ctx.col_values.wf(),
        ensures
            table_built(ctx, self, &r),
            final(linter)@.emit == old(linter)@.emit,
            final(linter)@.contexts == old(linter)@.contexts,
            final(linter)@.failures.take(old(linter)@.failures.len() as int) == old(
                linter,
            )@.failures,
            final(linter)@.failures.len() >= old(linter)@.failures.len(),
            final(linter)@.failures.len() == old(linter)@.failures.len() + table_fail_count(
                ctx,
                self,
            ),
    {
        let ghost l0 = linter@;
        let mut columns: Vec<Column> = Vec::new();
        if let Some(cols) = &self.col {
            let n = cols.len();
            let mut i: usize = 0;
            while i < n
                invariant
                    i <= n,
                    n == cols@.len(),
                    cols@ == spec_cols_of(self),
                    ctx.col_values.wf(),
                    linter@.emit == l0.emit,
                    linter@.contexts == l0.contexts,
                    linter@.failures.take(l0.failures.len() as int) == l0.failures,
                    linter@.failures.len() >= l0.failures.len(),
                    columns@.len() == cols_ok_idx(ctx, self, i as int).len(),
                    columns@.len() + linter@.failures.len() == l0.failures.len() + i,
                    forall|k: int|
                        0 <= k < columns@.len() ==> col_built(
                            ctx,
                            self,
                            &spec_cols_of(self)[cols_ok_idx(ctx, self, i as int)[k]],
                            &(#[trigger] columns@[k]),
                        ),
                decreases n - i,
            {
                proof {
                    assert(cols@[i as int] == spec_cols_of(self)[i as int]);
                }
                match cols[i].create(ctx, self) {
                    Ok(c) => {
                        let ghost prevc = columns@;
                        columns.push(c);
                        proof {
                            assert(col_ok(ctx, self, &spec_cols_of(self)[i as int]));
                            assert forall|k: int|
                                0 <= k < columns@.len() implies col_built(
                                ctx,
                                self,
                                &spec_cols_of(self)[cols_ok_idx(ctx, self, i + 1)[k]],
                                &(#[trigger] columns@[k]),
                            ) by {
                                if k < prevc.len() {
                                    assert(columns@[k] == prevc[k]);
                                    assert(cols_ok_idx(ctx, self, i + 1)[k] == cols_ok_idx(
                                        ctx,
                                        self,
                                        i as int,
                                    )[k]);
                                } else {
                                    assert(cols_ok_idx(ctx, self, i + 1)[k] == i as int);
                                }
                            }
                        }
                    },
                    Err(e) => {
                        let ghost lprev = linter@;
                        linter.check_result(self.name.as_str(), Err::<Column, Error>(e));
                        proof {
                            assert(!col_ok(ctx, self, &spec_cols_of(self)[i as int]));
                            assert forall|k: int|
                                0 <= k < l0.failures.len() implies linter@.failures[k]
                                == l0.failures[k] by {
                                assert(lprev.failures.take(l0.failures.len() as int)[k]
                                    == lprev.failures[k]);
                            }
                            assert(linter@.failures.take(l0.failures.len() as int)
                                =~= l0.failures);
                        }
                    },
                }
                i += 1;
            }
        }
        let ghost nco = cols_ok_idx(ctx, self, spec_cols_of(self).len() as int).len();
        proof {
            assert(columns@.len() == nco);
        }
        if let Some(joins) = &self.join {
            let n = joins.len();
            let mut i: usize = 0;
            while i < n
                invariant
                    i <= n,
                    n == joins@.len(),
                    joins@ == spec_joins_of(self),
                    ctx.col_values.wf(),
                    linter@.emit == l0.emit,
                    linter@.contexts == l0.contexts,
                    linter@.failures.take(l0.failures.len() as int) == l0.failures,
                    linter@.failures.len() >= l0.failures.len(),
                    nco == cols_ok_idx(ctx, self, spec_cols_of(self).len() as int).len(),
                    columns@.len() == nco + joins_ok_idx(ctx, self, i as int).len(),
                    columns@.len() + linter@.failures.len() == l0.failures.len()
                        + spec_cols_of(self).len() + i,
                    forall|k: int|
                        0 <= k < nco ==> col_built(
                            ctx,
                            self,
                            &spec_cols_of(self)[cols_ok_idx(
                                ctx,
                                self,
                                spec_cols_of(self).len() as int,
                            )[k]],
                            &(#[trigger] columns@[k]),
                        ),
                    forall|k: int|
                        0 <= k < joins_ok_idx(ctx, self, i as int).len() ==> join_built(
                            ctx,
                            self,
                            &spec_joins_of(self)[joins_ok_idx(ctx, self, i as int)[k]],
                            &(#[trigger] columns@[nco + k]),
                        ),
                decreases n - i,
            {
                proof {
                    assert(joins@[i as int] == spec_joins_of(self)[i as int]);
                }
                match joins[i].create(ctx, self) {
                    Ok(c) => {
                        let ghost prevc = columns@;
                        columns.push(c);
                        proof {
                            assert(join_ok(ctx, self, &spec_joins_of(self)[i as int]));
                            assert forall|k: int|
                                0 <= k < columns@.len() implies (k < nco ==> col_built(
                                ctx,
                                self,
                                &spec_cols_of(self)[cols_ok_idx(
                                    ctx,
                                    self,
                                    spec_cols_of(self).len() as int,
                                )[k]],
                                &(#[trigger] columns@[k]),
                            )) && (nco <= k < nco + joins_ok_idx(ctx, self, i + 1).len()
                                ==> join_built(
                                ctx,
                                self,
                                &spec_joins_of(self)[joins_ok_idx(ctx, self, i + 1)[k - nco]],
                                &columns@[k],
                            )) by {
                                if k < prevc.len() {
                                    assert(columns@[k] == prevc[k]);
                                    if k >= nco {
                                        assert(joins_ok_idx(ctx, self, i + 1)[k - nco]
                                            == joins_ok_idx(ctx, self, i as int)[k - nco]);
                                    }
                                } else {
                                    assert(joins_ok_idx(ctx, self, i + 1)[k - nco] == i as int);
                                }
                            }
                        }
                    },
                    Err(e) => {
                        let ghost lprev = linter@;
                        linter.check_result(self.name.as_str(), Err::<Column, Error>(e));
                        proof {
                            assert(!join_ok(ctx, self, &spec_joins_of(self)[i as int]));
                            assert forall|k: int|
                                0 <= k < l0.failures.len() implies linter@.failures[k]
                                == l0.failures[k] by {
                                assert(lprev.failures.take(l0.failures.len() as int)[k]
                                    == lprev.failures[k]);
                            }
                            assert(linter@.failures.take(l0.failures.len() as int)
                                =~= l0.failures);
                        }
                    },
                }
                i += 1;
            }
        }
        let ghost njo = joins_ok_idx(ctx, self, spec_joins_of(self).len() as int).len();
        proof {
            assert(columns@.len() == nco + njo);
        }
        if let Some(variants) = &self.variant {
            let n = variants.len();
            let mut i: usize = 0;
            while i < n
                invariant
                    i <= n,
                    n == variants@.len(),
                    variants@ == spec_variants_of(self),
                    ctx.col_values.wf(),
                    linter@.emit == l0.emit,
                    linter@.contexts == l0.contexts,
                    linter@.failures.take(l0.failures.len() as int) == l0.failures,
                    linter@.failures.len() >= l0.failures.len(),
                    nco == cols_ok_idx(ctx, self, spec_cols_of(self).len() as int).len(),
                    njo == joins_ok_idx(ctx, self, spec_joins_of(self).len() as int).len(),
                    columns@.len() == nco + njo + variants_ok_idx(ctx, self, i as int).len(),
                    columns@.len() + linter@.failures.len() == l0.failures.len()
                        + spec_cols_of(self).len() + spec_joins_of(self).len() + i,
                    forall|k: int|
                        0 <= k < nco ==> col_built(
                            ctx,
                            self,
                            &spec_cols_of(self)[cols_ok_idx(
                                ctx,
                                self,
                                spec_cols_of(self).len() as int,
                            )[k]],
                            &(#[trigger] columns@[k]),
                        ),
                    forall|k: int|
                        0 <= k < njo ==> join_built(
                            ctx,
                            self,
                            &spec_joins_of(self)[joins_ok_idx(
                                ctx,
                                self,
                                spec_joins_of(self).len() as int,
                            )[k]],
                            &(#[trigger] columns@[nco + k]),
                        ),
                    forall|k: int|
                        0 <= k < variants_ok_idx(ctx, self, i as int).len() ==> variant_built(
                            ctx,
                            self,
                            &spec_variants_of(self)[variants_ok_idx(ctx, self, i as int)[k]],
                            &(#[trigger] columns@[nco + njo + k]),
                        ),
                decreases n - i,
            {
                proof {
                    assert(variants@[i as int] == spec_variants_of(self)[i as int]);
                }
                match variants[i].create(ctx, self) {
                    Ok(c) => {
                        let ghost prevc = columns@;
                        columns.push(c);
                        proof {
                            assert(variant_ok(ctx, self, &spec_variants_of(self)[i as int]));
                            assert forall|k: int|
                                0 <= k < columns@.len() implies (k < nco ==> col_built(
                                ctx,
                                self,
                                &spec_cols_of(self)[cols_ok_idx(
                                    ctx,
                                    self,
                                    spec_cols_of(self).len() as int,
                                )[k]],
                                &(#[trigger] columns@[k]),
                            )) && (nco <= k < nco + njo ==> join_built(
                                ctx,
                                self,
                                &spec_joins_of(self)[joins_ok_idx(
                                    ctx,
                                    self,
                                    spec_joins_of(self).len() as int,
                                )[k - nco]],
                                &columns@[k],
                            )) && (nco + njo <= k < nco + njo + variants_ok_idx(
                                ctx,
                                self,
                                i + 1,
                            ).len() ==> variant_built(
                                ctx,
                                self,
                                &spec_variants_of(self)[variants_ok_idx(ctx, self, i + 1)[k - nco
                                    - njo]],
                                &columns@[k],
                            )) by {
                                if k < prevc.len() {
                                    assert(columns@[k] == prevc[k]);
                                    if k >= nco + njo {
                                        assert(variants_ok_idx(ctx, self, i + 1)[k - nco - njo]
                                            == variants_ok_idx(ctx, self, i as int)[k - nco
                                            - njo]);
                                    }
                                } else {
                                    assert(variants_ok_idx(ctx, self, i + 1)[k - nco - njo]
                                        == i as int);
                                }
                            }
                        }
                    },
                    Err(e) => {
                        let ghost lprev = linter@;
                        linter.check_result(self.name.as_str(), Err::<Column, Error>(e));
                        proof {
                            assert(!variant_ok(ctx, self, &spec_variants_of(self)[i as int]));
                            assert forall|k: int|
                                0 <= k < l0.failures.len() implies linter@.failures[k]
                                == l0.failures[k] by {
                                assert(lprev.failures.take(l0.failures.len() as int)[k]
                                    == lprev.failures[k]);
                            }
                            assert(linter@.failures.take(l0.failures.len() as int)
                                =~= l0.failures);
                        }
                    },
                }
                i += 1;
            }
        }
        let get_array = match self.array {
            Some(b) => b,
            None => false,
        };
        crate::table::Table::new(self.name.as_str(), None, columns, get_array, false)
    }
}

/// The destination path of the generated file: the runtime override, the
/// schema's `dest`, or the working directory; a path ending in `/` gets the
/// project name and the generated-language suffix; a relative path is
/// resolved against the project directory.
pub open spec fn spec_dst_path(c: &Config, runtime: &Runtime) -> Seq<char> {
    let base = if runtime.dest@.len() > 0 {
        runtime.dest@
    } else {
        match c.dest {
            Some(d) => d@,
            None => "./"@,
        }
    };
    let name = match runtime.projectpath {
        Some(p) => if crate::strutil::spec_basename(p@).len() > 0 {
            crate::strutil::spec_stem(crate::strutil::spec_basename(p@))
        } else {
            "insrcdata"@
        },
        None => "insrcdata"@,
    };
    let dst = if base.len() > 0 && base.last() == '/' {
        base + "/"@ + name + ".rs"@
    } else {
        base
    };
    if dst.len() > 0 && dst[0] == '/' {
        dst
    } else {
        runtime.projectdir@ + "/"@ + dst
    }
}

/// Fold the ingestion over the first `n` tables: the accumulated store
/// view and the number of failing tables (a missing source, or an
/// ingestion the store refused).
pub open spec fn ingest_fold(
    tables: Seq<Table>,
    sources: Seq<aperror::Result<RawSource>>,
    n: int,
) -> (Seq<CvEntry>, nat)
    decreases n,
{
    if n <= 0 {
        (Seq::<CvEntry>::empty(), 0nat)
    } else {
        let prev = ingest_fold(tables, sources, n - 1);
        match sources[n - 1] {
            Ok(src) => if ingest_step_ok(prev.0, &tables[n - 1], src.headers@, src.records@) {
                (prev.0 + ingested_view(&tables[n - 1], src.headers@, src.records@), prev.1)
            } else {
                (prev.0, prev.1 + 1)
            },
            Err(_) => (prev.0, prev.1 + 1),
        }
    }
}

impl Config {
    /// Ingest every table's raw rows, funnelling per-table failures into
    /// the collector.
    pub fn read_values(&self, sources: Vec<aperror::Result<RawSource>>, linter: &mut Linter) -> (r:
        ColumnValues)
        requires
            sources@.len() == self.table@.len(),
        ensures
            r.wf(),
            r@ == ingest_fold(self.table@, sources@, self.table@.len() as int).0,
            final(linter)@.emit == old(linter)@.emit,
            final(linter)@.contexts == old(linter)@.contexts,
            final(linter)@.failures.take(old(linter)@.failures.len() as int) == old(
                linter,
            )@.failures,
            final(linter)@.failures.len() == old(linter)@.failures.len() + ingest_fold(
                self.table@,
                sources@,
                self.table@.len() as int,
            ).1,
    {
        let ghost l0 = linter@;
        let ghost sourcesv = sources@;
        let mut cv = ColumnValues::new();
        let mut srcs = sources;
        let n = self.table.len();
        let mut i: usize = 0;
        proof {
            assert(cv@ =~= Seq::<CvEntry>::empty());
        }
        while i < n
            invariant
                i <= n,
                n == self.table@.len(),
                sourcesv.len() == n,
                srcs@ == sourcesv.skip(i as int),
                cv.wf(),
                cv@ == ingest_fold(self.table@, sourcesv, i as int).0,
                linter@.emit == l0.emit,
                linter@.contexts == l0.contexts,
                linter@.failures.take(l0.failures.len() as int) == l0.failures,
                linter@.failures.len() == l0.failures.len() + ingest_fold(
                    self.table@,
                    sourcesv,
                    i as int,
                ).1,
            decreases n - i,
        {
            let ghost lprev = linter@;
            let res = srcs.remove(0);
            proof {
                assert(srcs@ =~= sourcesv.skip(i + 1));
                assert(res == sourcesv[i as int]);
            }
            match res {
                Ok(src) => {
                    let rr = self.table[i].read_values(&src.headers, &src.records, &mut cv);
                    linter.check_result(self.table[i].name.as_str(), rr);
                },
                Err(e) => {
                    linter.check_result(self.table[i].name.as_str(), Err::<(), Error>(e));
                },
            }
            proof {
                assert forall|k: int|
                    0 <= k < l0.failures.len() implies linter@.failures[k] == l0.failures[k] by {
                    assert(lprev.failures.take(l0.failures.len() as int)[k]
                        == lprev.failures[k]);
                }
                assert(linter@.failures.take(l0.failures.len() as int) =~= l0.failures);
            }
            i += 1;
        }
        cv
    }

    /// The path of the generated file.
    pub fn dst_path(&self, runtime: &Runtime) -> (r: String)
        ensures
            r@ == spec_dst_path(self, runtime),
    {
        let base: String = if !runtime.dest.as_str().is_empty() {
            runtime.dest.clone()
        } else {
            match &self.dest {
                Some(d) => d.clone(),
                None => {
                    let mut s = String::new();
                    s.append("./");
                    s
                },
            }
        };
        let bn = base.as_str().unicode_len();
        let ends_slash = if bn > 0 {
            base.as_str().get_char(bn - 1) == '/'
        } else {
            false
        };
        let dst: String = if ends_slash {
            let mut s = String::new();
            s.append(base.as_str());
            s.append("/");
            let name = runtime.projectname();
            s.append(name.as_str());
            s.append(".rs");
            s
        } else {
            base
        };
        let dn = dst.as_str().unicode_len();
        let absolute = if dn > 0 {
            dst.as_str().get_char(0) == '/'
        } else {
            false
        };
        if absolute {
            dst
        } else {
            let mut s = String::new();
            s.append(runtime.projectdir.as_str());
            s.append("/");
            s.append(dst.as_str());
            s
        }
    }

    /// Every source the compilation reads: the schema file and each
    /// table's data source, for rebuild detection.
    pub fn src_paths(&self, runtime: &Runtime) -> (r: Vec<String>)
        ensures
            ({
                let off = if runtime.projectpath is Some {
                    1int
                } else {
                    0int
                };
                let indir = if runtime.indir@.len() == 0 {
                    runtime.projectdir@
                } else {
                    runtime.indir@
                };
                &&& r@.len() == off + self.table@.len()
                &&& (runtime.projectpath matches Some(p) ==> r@[0]@ == p@)
                &&& forall|k: int|
                    0 <= k < self.table@.len() ==> (#[trigger] r@[off + k])@ == spec_src_path(
                        &self.table@[k],
                        indir,
                    )
            }),
    {
        let mut src_paths: Vec<String> = Vec::new();
        if let Some(pathbuf) = &runtime.projectpath {
            src_paths.push(pathbuf.clone());
        }
        let n = self.table.len();
        let ghost base = src_paths@.len();
        let ghost indirv = if runtime.indir@.len() == 0 {
            runtime.projectdir@
        } else {
            runtime.indir@
        };
        let mut i: usize = 0;
        while i < n
            invariant
                i <= n,
                n == self.table@.len(),
                src_paths@.len() == base + i,
                base == if runtime.projectpath is Some {
                    1int
                } else {
                    0int
                },
                runtime.projectpath matches Some(p) ==> src_paths@[0]@ == p@,
                indirv == if runtime.indir@.len() == 0 {
                    runtime.projectdir@
                } else {
                    runtime.indir@
                },
                forall|k: int|
                    0 <= k < i ==> (#[trigger] src_paths@[base + k])@ == spec_src_path(
                        &self.table@[k],
                        indirv,
                    ),
            decreases n - i,
        {
            let p = self.table[i].src_path(runtime.indir_path());
            src_paths.push(p);
            i += 1;
        }
        src_paths
    }

    /// Create the project object: ingest every table's rows, build and
    /// resolve every table, lint the whole model, and refuse to hand it out
    /// unless the failure count is zero. The model is pinned through a
    /// witness: the ingested store and the built project, table by table.
    pub fn project(&self, runtime: &mut Runtime, sources: Vec<aperror::Result<RawSource>>) -> (r:
        aperror::Result<Project>)
        requires
            sources@.len() == self.table@.len(),
        ensures
            r is Ok <==> final(runtime).linter@.failures.len() == 0,
            final(runtime).linter@.emit == old(runtime).linter@.emit,
            final(runtime).linter@.contexts == old(runtime).linter@.contexts,
            r matches Ok(p) ==> {
                &&& p.dst_path@ == spec_dst_path(self, old(runtime))
                &&& p.tables@.len() == self.table@.len()
                &&& (forall|t: int| 0 <= t < p.tables@.len() ==> (#[trigger] p.tables@[t]).wf())
                &&& (forall|t: int|
                    0 <= t < p.tables@.len() ==> (#[trigger] p.tables@[t]).name@
                        == self.table@[t].name@)
                &&& p.help is None
            },
            exists|cv: ColumnValues, p2: Project|
                #![trigger cv.wf(), p2.tables@]
                {
                    let ctx = TableContext {
                        lang: spec_language_for_dest(spec_dst_path(self, old(runtime))),
                        col_values: cv,
                    };
                    &&& cv.wf()
                    &&& cv@ == ingest_fold(self.table@, sources@, self.table@.len() as int).0
                    &&& p2.dst_path@ == spec_dst_path(self, old(runtime))
                    &&& p2.help is None
                    &&& p2.tables@.len() == self.table@.len()
                    &&& (forall|t: int|
                        0 <= t < self.table@.len() ==> table_built(
                            &ctx,
                            &self.table@[t],
                            &(#[trigger] p2.tables@[t]),
                        ))
                    &&& final(runtime).linter@.failures.len() == old(
                        runtime,
                    ).linter@.failures.len() + ingest_fold(
                        self.table@,
                        sources@,
                        self.table@.len() as int,
                    ).1 + tables_fail_total(&ctx, self.table@, self.table@.len() as int)
                        + crate::table::project_lint_count(&p2)
                    &&& (r matches Ok(p) ==> p == p2)
                },
    {
        let ghost sourcesv = sources@;
        let dst_path = self.dst_path(runtime);
        let lang = crate::language::language_for_dest(dst_path.as_str());
        let src_paths = self.src_paths(runtime);
        let col_values = self.read_values(sources, &mut runtime.linter);
        let ghost cvg = col_values;
        let ghost lmid = runtime.linter@;
        let ctx = TableContext { lang, col_values };
        proof {
            assert(ctx == TableContext {
                lang: spec_language_for_dest(spec_dst_path(self, old(runtime))),
                col_values: cvg,
            });
        }
        let n = self.table.len();
        let mut tables: Vec<crate::table::Table> = Vec::new();
        let mut t: usize = 0;
        while t < n
            invariant
                t <= n,
                n == self.table@.len(),
                ctx.col_values.wf(),
                tables@.len() == t,
                forall|j: int|
                    0 <= j < t ==> table_built(&ctx, &self.table@[j], &(#[trigger] tables@[j])),
                forall|j: int| 0 <= j < t ==> (#[trigger] tables@[j]).wf(),
                forall|j: int|
                    0 <= j < t ==> (#[trigger] tables@[j]).name@ == self.table@[j].name@,
                runtime.linter@.emit == lmid.emit,
                runtime.linter@.contexts == lmid.contexts,
                runtime.linter@.failures.len() >= lmid.failures.len(),
                runtime.linter@.failures.take(lmid.failures.len() as int) == lmid.failures,
                runtime.linter@.failures.len() == lmid.failures.len() + tables_fail_total(
                    &ctx,
                    self.table@,
                    t as int,
                ),
            decreases n - t,
        {
            let ghost lprev = runtime.linter@;
            let tbl = self.table[t].create(&ctx, &mut runtime.linter);
            tables.push(tbl);
            proof {
                assert forall|k: int|
                    0 <= k < lmid.failures.len() implies runtime.linter@.failures[k]
                    == lmid.failures[k] by {
                    assert(lprev.failures.take(lmid.failures.len() as int).len()
                        == lmid.failures.len());
                    assert(lprev.failures.take(lmid.failures.len() as int)[k]
                        == lprev.failures[k]);
                    assert(runtime.linter@.failures.take(lprev.failures.len() as int).len()
                        == lprev.failures.len());
                    assert(runtime.linter@.failures.take(lprev.failures.len() as int)[k]
                        == runtime.linter@.failures[k]);
                }
                assert(runtime.linter@.failures.take(lmid.failures.len() as int)
                    =~= lmid.failures);
            }
            t += 1;
        }
        let project = Project { dst_path, help: None, tables, src_paths };
        let ghost p2g = project;
        let ghost lpre_lint = runtime.linter@;
        project.lint(&mut runtime.linter);
        proof {
            assert forall|k: int|
                0 <= k < lmid.failures.len() implies runtime.linter@.failures[k]
                == lmid.failures[k] by {
                assert(lpre_lint.failures.take(lmid.failures.len() as int).len()
                    == lmid.failures.len());
                assert(lpre_lint.failures.take(lmid.failures.len() as int)[k]
                    == lpre_lint.failures[k]);
                assert(runtime.linter@.failures.take(lpre_lint.failures.len() as int).len()
                    == lpre_lint.failures.len());
                assert(runtime.linter@.failures.take(lpre_lint.failures.len() as int)[k]
                    == runtime.linter@.failures[k]);
            }
            assert(runtime.linter@.failures.take(lmid.failures.len() as int) =~= lmid.failures);
        }
        if runtime.linter.errors() > 0 {
            let count = runtime.linter.errors();
            let mut m = String::new();
            let digits = crate::strutil::usize_to_string(count);
            m.append(digits.as_str());
            m.append(" lint failures");
            return Err(Error::new(m.as_str()));
        }
        Ok(project)
    }
}

/// The failures building every table records, summed in order.
pub open spec fn tables_fail_total(ctx: &TableContext, decls: Seq<Table>, n: int) -> int
    decreases n,
{
    if n <= 0 {
        0
    } else {
        tables_fail_total(ctx, decls, n - 1) + table_fail_count(ctx, &decls[n - 1])
    }
}

proof fn lemma_unic_key_blank(idxs: Seq<usize>)
    ensures
        spec_unic_key(Seq::<String>::empty(), idxs) == empty_key(idxs.len()),
    decreases idxs.len(),
{
    if idxs.len() > 0 {
        lemma_unic_key_blank(idxs.drop_last());
    }
}

} // verus!
