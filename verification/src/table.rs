//! The compiled model: column metadata, the closed set of column kinds, the
//! table that owns them, and the project that owns the tables.

use vstd::prelude::*;
use crate::aperror;
use crate::aperror::Error;
use crate::basetype::BaseType;
use crate::basetype::{spec_int_type_for_range, spec_max, spec_min, int_type_for_range};
use crate::colbool::ColBool;
use crate::colint::ColInt;
use crate::coljoin::ColJoin;
use crate::collabel::ColLabel;
use crate::colobject::ColObject;
use crate::colstr::ColStr;
use crate::colvariant::ColVariant;
use crate::lint::{Linter, extends, is_label, label};
use crate::strutil::{is_i64_string, int_value, dec_rep, usize_to_string};

verus! {

/// How a column is accessed by generated code.
pub enum TypeImpl {
    Label,
    Join,
    JoinOptional,
    Scalar,
    Variant,
}

/// Configuration shared by every column kind.
pub struct ColumnConfig {
    /// field name
    pub name: String,
    /// doc comment for getter
    pub help: Option<String>,
    /// implement iter accessor (range search for data or reverse for join)
    pub iterable: bool,
    /// doc for iter accessor
    pub iter_help: Option<String>,
    /// for join
    pub optional: bool,
}

impl Default for ColumnConfig {
    fn default() -> (r: ColumnConfig)
        ensures
            r.name@ == Seq::<char>::empty(),
            r.help is None,
            r.iterable == false,
            r.iter_help is None,
            r.optional == false,
    {
        ColumnConfig {
            name: String::new(),
            help: None,
            iterable: false,
            iter_help: None,
            optional: false,
        }
    }
}

/// Metadata of one column.
pub struct ColumnInfo {
    pub config: ColumnConfig,
    pub len: usize,
    /// for public API
    pub interface_type: BaseType,
    /// for data table
    pub table_type: BaseType,
}

/// The access kind selected by a column's interface type.
pub open spec fn spec_type_impl(info: &ColumnInfo) -> TypeImpl {
    match info.interface_type {
        BaseType::Label { .. } => TypeImpl::Label,
        BaseType::Join { .. } => if info.config.optional {
            TypeImpl::JoinOptional
        } else {
            TypeImpl::Join
        },
        BaseType::Variant => TypeImpl::Variant,
        _ => TypeImpl::Scalar,
    }
}

impl ColumnInfo {
    pub fn type_impl(&self) -> (r: TypeImpl)
        ensures
            r == spec_type_impl(self),
    {
        match &self.interface_type {
            BaseType::Label { .. } => TypeImpl::Label,
            BaseType::Bool
            | BaseType::F32
            | BaseType::F64
            | BaseType::I8
            | BaseType::I16
            | BaseType::I32
            | BaseType::I64
            | BaseType::U8
            | BaseType::U16
            | BaseType::U32
            | BaseType::U64
            | BaseType::Str
            | BaseType::Object { .. } => TypeImpl::Scalar,
            BaseType::Join { .. } => {
                if self.config.optional {
                    TypeImpl::JoinOptional
                } else {
                    TypeImpl::Join
                }
            },
            BaseType::Variant => TypeImpl::Variant,
        }
    }

    /// The destination table name of a join column, empty otherwise.
    pub fn join_table(&self) -> (r: String)
        ensures
            r@ == match self.interface_type {
                BaseType::Join { strname } => strname@,
                _ => Seq::<char>::empty(),
            },
    {
        match &self.interface_type {
            BaseType::Join { strname } => strname.clone(),
            _ => String::new(),
        }
    }

    /// Whether the column answers forward range queries; join and variant
    /// columns answer through the destination table instead.
    pub fn has_iter_range(&self) -> (r: bool)
        ensures
            r == match self.interface_type {
                BaseType::Join { .. } | BaseType::Variant => false,
                _ => self.config.iterable,
            },
    {
        match &self.interface_type {
            BaseType::Join { .. } | BaseType::Variant => false,
            _ => self.config.iterable,
        }
    }
}

/// One lane of a variant column: a contiguous sub-range of the flattened
/// offset space reserved for one destination table (or the `None` case).
pub struct Variant {
    /// dest table name
    pub name: String,
    pub index: usize,
    pub count: usize,
    /// getter name for reverse join
    pub reverse: String,
    /// null value placeholder for optional variants
    pub is_none: bool,
}

/// The closed set of column kinds, dispatched by exhaustive matching.
pub enum Column {
    Bool(ColBool),
    Int(ColInt),
    Str(ColStr),
    Label(ColLabel),
    Object(ColObject),
    Join(ColJoin),
    Variant(ColVariant),
}

/// The metadata of a column, whatever its kind.
pub open spec fn spec_info(c: &Column) -> ColumnInfo {
    match c {
        Column::Bool(x) => x.info,
        Column::Int(x) => x.info,
        Column::Str(x) => x.info,
        Column::Label(x) => x.info,
        Column::Object(x) => x.info,
        Column::Join(x) => x.info,
        Column::Variant(x) => x.info,
    }
}

/// The failures a column's own lint records.
pub open spec fn col_violations(c: &Column) -> nat {
    match c {
        Column::Int(x) => ((if x.max as int > spec_max(&x.info.interface_type) {
            1nat
        } else {
            0nat
        }) + (if (x.min as int) < spec_min(&x.info.interface_type) {
            1nat
        } else {
            0nat
        })) as nat,
        Column::Join(x) => ((if is_label(
            match x.info.interface_type {
                BaseType::Join { strname } => strname@,
                _ => Seq::<char>::empty(),
            },
        ) {
            0nat
        } else {
            1nat
        }) + (if x.info.config.optional {
            0nat
        } else {
            crate::coljoin::zero_count(x.values@)
        })) as nat,
        Column::Label(x) => (crate::collabel::label_lint_count(
            x.labels@,
            x.info.config.name@.len() == 0,
            x.labels@.len() as int,
        ) + (if x.labels@.len() == x.label_helps@.len() {
            0nat
        } else {
            1nat
        })) as nat,
        Column::Object(x) => if crate::colobject::placeholder_count(x.template@) == 1 {
            0nat
        } else {
            1nat
        },
        _ => 0,
    }
}

impl Column {
    pub fn info(&self) -> (r: &ColumnInfo)
        ensures
            *r == spec_info(self),
    {
        match self {
            Column::Bool(x) => &x.info,
            Column::Int(x) => &x.info,
            Column::Str(x) => &x.info,
            Column::Label(x) => &x.info,
            Column::Object(x) => &x.info,
            Column::Join(x) => &x.info,
            Column::Variant(x) => &x.info,
        }
    }

    pub fn name(&self) -> (r: &String)
        ensures
            r@ == spec_info(self).config.name@,
    {
        &self.info().config.name
    }

    pub fn iterable(&self) -> (r: bool)
        ensures
            r == spec_info(self).config.iterable,
    {
        self.info().config.iterable
    }

    pub fn optional(&self) -> (r: bool)
        ensures
            r == spec_info(self).config.optional,
    {
        self.info().config.optional
    }

    /// The stable sorted row index of the column, empty for kinds that are
    /// not indexed.
    pub fn indexes(&self) -> (r: Vec<usize>)
        ensures
            match self {
                Column::Bool(x) => crate::index::is_permutation(x.values@.len(), r@) && (forall|
                    i: int,
                    j: int,
                |
                    0 <= i < j < r@.len() ==> (!x.values@[(#[trigger] r@[i]) as int]
                        && x.values@[(#[trigger] r@[j]) as int]) || (x.values@[r@[i] as int]
                        == x.values@[r@[j] as int] && r@[i] < r@[j])),
                Column::Int(x) => crate::index::is_permutation(x.values@.len(), r@)
                    && crate::index::sorted_index_i64(x.values@, r@),
                Column::Str(x) => crate::index::is_permutation(x.values@.len(), r@)
                    && crate::index::sorted_index_str(x.values@, r@),
                Column::Label(_) => r@.len() == 0,
                Column::Object(_) => r@.len() == 0,
                Column::Join(x) => crate::index::sorted_index_usize(x.values@, r@) && (
                !x.info.config.optional ==> crate::index::is_permutation(x.values@.len(), r@)) && (
                x.info.config.optional ==> (forall|row: usize|
                    (row as nat) < x.values@.len() && x.values@[row as int] != 0
                        ==> #[trigger] r@.contains(row)) && (forall|k: int|
                    0 <= k < r@.len() ==> x.values@[(#[trigger] r@[k]) as int] != 0)),
                Column::Variant(x) => crate::index::sorted_index_usize(x.values@, r@) && (
                !x.info.config.optional ==> crate::index::is_permutation(x.values@.len(), r@)) && (
                x.info.config.optional ==> (forall|row: usize|
                    (row as nat) < x.values@.len() && x.values@[row as int] != 0
                        ==> #[trigger] r@.contains(row)) && (forall|k: int|
                    0 <= k < r@.len() ==> x.values@[(#[trigger] r@[k]) as int] != 0)),
            },
    {
        match self {
            Column::Bool(x) => x.indexes(),
            Column::Int(x) => x.indexes(),
            Column::Str(x) => x.indexes(),
            Column::Label(x) => x.indexes(),
            Column::Object(_) => Vec::new(),
            Column::Join(x) => x.indexes(),
            Column::Variant(x) => x.indexes(),
        }
    }

    /// Check the validity of the column's own input parameters.
    pub fn lint(&self, linter: &mut Linter)
        ensures
            extends(final(linter)@, old(linter)@, col_violations(self)),
    {
        proof {
            assert(old(linter)@.failures.take(old(linter)@.failures.len() as int)
                =~= old(linter)@.failures);
        }
        match self {
            Column::Bool(x) => x.lint(linter),
            Column::Int(x) => x.lint(linter),
            Column::Str(x) => x.lint(linter),
            Column::Label(x) => x.lint(linter),
            Column::Object(x) => x.lint(linter),
            Column::Join(x) => x.lint(linter),
            Column::Variant(x) => x.lint(linter),
        }
    }

    /// The reverse accessor name a join column exposes, empty otherwise.
    pub fn reverse_name(&self) -> (r: String)
        ensures
            r@ == match self {
                Column::Join(x) => x.reverse_name@,
                _ => Seq::<char>::empty(),
            },
    {
        match self {
            Column::Join(x) => x.reverse_name.clone(),
            _ => String::new(),
        }
    }

    /// The lanes of a variant column.
    pub fn variants(&self) -> (r: Option<&Vec<Variant>>)
        ensures
            match self {
                Column::Variant(x) => r matches Some(v) && v == &x.tables,
                _ => r is None,
            },
    {
        match self {
            Column::Variant(x) => Some(&x.tables),
            _ => None,
        }
    }

    /// Add the column's import to `out`; only object columns carry one.
    pub fn fill_import(&self, out: &mut Vec<String>)
        ensures
            match self {
                Column::Object(x) => (x.import@.len() == 0 || crate::strutil::seq_contains_str(
                    old(out)@,
                    x.import@,
                ) ==> final(out)@ == old(out)@) && (x.import@.len() > 0
                    && !crate::strutil::seq_contains_str(old(out)@, x.import@) ==> final(out)@
                    =~= old(out)@.push(final(out)@.last()) && final(out)@.last()@ == x.import@),
                _ => final(out)@ == old(out)@,
            },
    {
        match self {
            Column::Object(x) => x.fill_import(out),
            _ => {},
        }
    }
}

/// A table owns its columns, partitioned without reordering into data
/// columns (with per-row storage) and label columns (a row/name mapping).
pub struct Table {
    pub name: String,
    pub help: Option<String>,
    pub len: usize,
    pub columns: Vec<Column>,
    pub get_array: bool,
    /// a row can not be added between major releases
    pub exhaustive: bool,
    /// value columns
    pub outcol_indexes: Vec<usize>,
    /// label columns
    pub labcol_indexes: Vec<usize>,
}

/// Whether an earlier data column of `t` carries the same name as data
/// column `k`.
pub open spec fn data_col_dup(t: &Table, k: int) -> bool {
    exists|j: int|
        0 <= j < k && spec_info(
            &t.columns[(#[trigger] t.outcol_indexes@[j]) as int],
        ).config.name@ == spec_info(&t.columns[t.outcol_indexes@[k] as int]).config.name@
}

/// The failures recorded for data column `k` of `t`.
pub open spec fn data_col_count(t: &Table, k: int) -> nat {
    let c = t.columns[t.outcol_indexes@[k] as int];
    ((if is_label(spec_info(&c).config.name@) {
        0nat
    } else {
        1nat
    }) + (if data_col_dup(t, k) {
        1nat
    } else {
        0nat
    }) + (if spec_info(&c).len == t.len {
        0nat
    } else {
        1nat
    }) + col_violations(&c)) as nat
}

/// The failures recorded for the first `n` data columns of `t`.
pub open spec fn data_cols_count(t: &Table, n: int) -> nat
    decreases n,
{
    if n <= 0 {
        0
    } else {
        data_cols_count(t, n - 1) + data_col_count(t, n - 1)
    }
}

/// The failures [`Table::lint`] records.
pub open spec fn table_lint_count(t: &Table) -> nat {
    ((if is_label(t.name@) {
        0nat
    } else {
        1nat
    }) + (if t.outcol_indexes@.len() > 0 || !t.get_array {
        0nat
    } else {
        1nat
    }) + data_cols_count(t, t.outcol_indexes@.len() as int)) as nat
}

/// A column that contributes to per-row storage: any non-label column, and
/// a label column promoted to a data column by a non-empty field name.
pub open spec fn is_outcol(c: &Column) -> bool {
    match spec_info(c).table_type {
        BaseType::Label { .. } => spec_info(c).config.name@.len() > 0,
        _ => true,
    }
}

/// A column that maps rows to names.
pub open spec fn is_labcol(c: &Column) -> bool {
    spec_info(c).table_type is Label
}

impl Table {
    /// The partition index vectors name real columns.
    pub open spec fn wf(&self) -> bool {
        &&& forall|k: int|
            0 <= k < self.outcol_indexes@.len() ==> (#[trigger] self.outcol_indexes@[k] as nat)
                < self.columns@.len()
        &&& forall|k: int|
            0 <= k < self.labcol_indexes@.len() ==> (#[trigger] self.labcol_indexes@[k] as nat)
                < self.columns@.len()
    }

    /// Create the table structure: the row count comes from the first
    /// column, and the columns are partitioned in declaration order.
    pub fn new(
        name: &str,
        help: Option<String>,
        columns: Vec<Column>,
        get_array: bool,
        exhaustive: bool,
    ) -> (r: Table)
        ensures
            r.wf(),
            r.name@ == name@,
            r.help == help,
            r.columns == columns,
            r.get_array == get_array,
            r.exhaustive == exhaustive,
            r.len == if columns@.len() == 0 {
                0int
            } else {
                spec_info(&columns@[0]).len as int
            },
            forall|a: int, b: int|
                0 <= a < b < r.outcol_indexes@.len() ==> r.outcol_indexes@[a]
                    < r.outcol_indexes@[b],
            forall|k: int|
                0 <= k < r.outcol_indexes@.len() ==> is_outcol(
                    &r.columns@[(#[trigger] r.outcol_indexes@[k]) as int],
                ),
            forall|i: usize|
                (i as nat) < columns@.len() && is_outcol(&columns@[i as int])
                    ==> #[trigger] r.outcol_indexes@.contains(i),
            forall|a: int, b: int|
                0 <= a < b < r.labcol_indexes@.len() ==> r.labcol_indexes@[a]
                    < r.labcol_indexes@[b],
            forall|k: int|
                0 <= k < r.labcol_indexes@.len() ==> is_labcol(
                    &r.columns@[(#[trigger] r.labcol_indexes@[k]) as int],
                ),
            forall|i: usize|
                (i as nat) < columns@.len() && is_labcol(&columns@[i as int])
                    ==> #[trigger] r.labcol_indexes@.contains(i),
    {
        let mut outcol_indexes: Vec<usize> = Vec::new();
        let mut labcol_indexes: Vec<usize> = Vec::new();
        let len = if columns.len() == 0 {
            0
        } else {
            columns[0].info().len
        };
        let n = columns.len();
        let mut index: usize = 0;
        while index < n
            invariant
                index <= n,
                n == columns@.len(),
                forall|a: int, b: int|
                    0 <= a < b < outcol_indexes@.len() ==> outcol_indexes@[a]
                        < outcol_indexes@[b],
                forall|k: int|
                    0 <= k < outcol_indexes@.len() ==> (#[trigger] outcol_indexes@[k] as nat)
                        < index && is_outcol(&columns@[outcol_indexes@[k] as int]),
                forall|i: usize|
                    (i as nat) < index && is_outcol(&columns@[i as int])
                        ==> #[trigger] outcol_indexes@.contains(i),
                forall|a: int, b: int|
                    0 <= a < b < labcol_indexes@.len() ==> labcol_indexes@[a]
                        < labcol_indexes@[b],
                forall|k: int|
                    0 <= k < labcol_indexes@.len() ==> (#[trigger] labcol_indexes@[k] as nat)
                        < index && is_labcol(&columns@[labcol_indexes@[k] as int]),
                forall|i: usize|
                    (i as nat) < index && is_labcol(&columns@[i as int])
                        ==> #[trigger] labcol_indexes@.contains(i),
            decreases n - index,
        {
            let ghost out_prev = outcol_indexes@;
            let ghost lab_prev = labcol_indexes@;
            let col = &columns[index];
            match &col.info().table_type {
                BaseType::Label { .. } => {
                    if !col.name().as_str().is_empty() {
                        // tolabel option is set
                        outcol_indexes.push(index);
                    }
                    labcol_indexes.push(index);
                },
                _ => {
                    outcol_indexes.push(index);
                },
            }
            proof {
                assert forall|i: usize|
                    (i as nat) < index + 1 && is_outcol(
                        &columns@[i as int],
                    ) implies #[trigger] outcol_indexes@.contains(i) by {
                    if (i as nat) < index as nat {
                        assert(out_prev.contains(i));
                        let k = choose|k: int| 0 <= k < out_prev.len() && out_prev[k] == i;
                        assert(outcol_indexes@[k] == i);
                    } else {
                        assert(outcol_indexes@[outcol_indexes@.len() - 1] == i);
                    }
                }
                assert forall|i: usize|
                    (i as nat) < index + 1 && is_labcol(
                        &columns@[i as int],
                    ) implies #[trigger] labcol_indexes@.contains(i) by {
                    if (i as nat) < index as nat {
                        assert(lab_prev.contains(i));
                        let k = choose|k: int| 0 <= k < lab_prev.len() && lab_prev[k] == i;
                        assert(labcol_indexes@[k] == i);
                    } else {
                        assert(labcol_indexes@[labcol_indexes@.len() - 1] == i);
                    }
                }
            }
            index += 1;
        }
        Table {
            name: name.to_owned(),
            help,
            len,
            columns,
            get_array,
            exhaustive,
            outcol_indexes,
            labcol_indexes,
        }
    }

    /// Data type columns.
    pub fn data_columns(&self) -> (r: Vec<&Column>)
        requires
            self.wf(),
        ensures
            r@.len() == self.outcol_indexes@.len(),
            forall|k: int|
                0 <= k < r@.len() ==> #[trigger] r@[k]
                    == &self.columns@[self.outcol_indexes@[k] as int],
    {
        let n = self.outcol_indexes.len();
        let mut r: Vec<&Column> = Vec::new();
        let mut k: usize = 0;
        while k < n
            invariant
                k <= n,
                n == self.outcol_indexes@.len(),
                self.wf(),
                r@.len() == k,
                forall|j: int|
                    0 <= j < k ==> #[trigger] r@[j]
                        == &self.columns@[self.outcol_indexes@[j] as int],
            decreases n - k,
        {
            r.push(&self.columns[self.outcol_indexes[k]]);
            k += 1;
        }
        r
    }

    /// Has at least one data type column.
    pub fn has_data(&self) -> (r: bool)
        ensures
            r == (self.outcol_indexes@.len() > 0),
    {
        self.outcol_indexes.len() > 0
    }

    /// Label type columns.
    pub fn label_columns(&self) -> (r: Vec<&Column>)
        requires
            self.wf(),
        ensures
            r@.len() == self.labcol_indexes@.len(),
            forall|k: int|
                0 <= k < r@.len() ==> #[trigger] r@[k]
                    == &self.columns@[self.labcol_indexes@[k] as int],
    {
        let n = self.labcol_indexes.len();
        let mut r: Vec<&Column> = Vec::new();
        let mut k: usize = 0;
        while k < n
            invariant
                k <= n,
                n == self.labcol_indexes@.len(),
                self.wf(),
                r@.len() == k,
                forall|j: int|
                    0 <= j < k ==> #[trigger] r@[j]
                        == &self.columns@[self.labcol_indexes@[j] as int],
            decreases n - k,
        {
            r.push(&self.columns[self.labcol_indexes[k]]);
            k += 1;
        }
        r
    }

    /// Check the table configuration: a valid name, data behind `get_array`,
    /// and per data column a valid unique name, a matching row count, and
    /// the column's own checks.
    pub fn lint(&self, linter: &mut Linter)
        requires
            self.wf(),
        ensures
            extends(final(linter)@, old(linter)@, table_lint_count(self)),
    {
        let ghost l0 = linter@;
        linter.context(self.name.as_str());
        let name_ok = label(self.name.as_str());
        linter.err(name_ok, "invalid table name");
        linter.err(
            self.has_data() || !self.get_array,
            "unable to use array on table without values",
        );
        let ghost base = linter@.failures.len();
        let n = self.outcol_indexes.len();
        let mut colnames: Vec<String> = Vec::new();
        let ghost mut rows: Seq<int> = Seq::empty();
        let mut k: usize = 0;
        while k < n
            invariant
                k <= n,
                n == self.outcol_indexes@.len(),
                self.wf(),
                linter@.emit == l0.emit,
                linter@.contexts == l0.contexts.push(self.name@),
                linter@.failures.len() == base + data_cols_count(self, k as int),
                linter@.failures.take(l0.failures.len() as int) == l0.failures,
                base == l0.failures.len() + (if is_label(self.name@) {
                    0nat
                } else {
                    1nat
                }) + (if self.outcol_indexes@.len() > 0 || !self.get_array {
                    0nat
                } else {
                    1nat
                }),
                colnames@.len() == rows.len(),
                colnames@.len() == k,
                forall|j: int|
                    0 <= j < rows.len() ==> 0 <= #[trigger] rows[j] < k && colnames@[j]@
                        == spec_info(
                        &self.columns@[self.outcol_indexes@[rows[j]] as int],
                    ).config.name@,
                forall|j: int| 0 <= j < rows.len() ==> rows[j] == j,
            decreases n - k,
        {
            let ghost lprev = linter@;
            let ci = self.outcol_indexes[k];
            let col = &self.columns[ci];
            let cname = col.name().clone();
            let cname_ok = label(cname.as_str());
            let dup = crate::strutil::contains_str(&colnames, cname.as_str());
            proof {
                assert(cname@ == spec_info(
                    &self.columns@[self.outcol_indexes@[k as int] as int],
                ).config.name@);
                if dup {
                    let j = choose|j: int|
                        0 <= j < colnames@.len() && #[trigger] colnames@[j]@ == cname@;
                    assert(rows[j] == j);
                    assert(colnames@[j]@ == spec_info(
                        &self.columns@[self.outcol_indexes@[rows[j]] as int],
                    ).config.name@);
                    assert(spec_info(
                        &self.columns@[(self.outcol_indexes@[j]) as int],
                    ).config.name@ == spec_info(
                        &self.columns@[self.outcol_indexes@[k as int] as int],
                    ).config.name@);
                    assert(data_col_dup(self, k as int));
                }
                if data_col_dup(self, k as int) {
                    let j = choose|j: int|
                        0 <= j < k && spec_info(
                            &self.columns@[(#[trigger] self.outcol_indexes@[j]) as int],
                        ).config.name@ == spec_info(
                            &self.columns@[self.outcol_indexes@[k as int] as int],
                        ).config.name@;
                    assert(rows[j] == j);
                    assert(colnames@[j]@ == spec_info(
                        &self.columns@[self.outcol_indexes@[rows[j]] as int],
                    ).config.name@);
                    assert(colnames@[j]@ == cname@);
                    assert(dup);
                }
            }
            linter.context(cname.as_str());
            linter.err(cname_ok, "invalid column name");
            linter.err(!dup, "duplicated column name");
            linter.err(self.len == col.info().len, "mismatched number of rows");
            col.lint(linter);
            linter.leave();
            colnames.push(cname);
            proof {
                rows = rows.push(k as int);
                assert(linter@.contexts =~= lprev.contexts);
                assert(linter@.failures.take(l0.failures.len() as int) =~= l0.failures);
            }
            k += 1;
        }
        linter.leave();
        proof {
            assert(linter@.contexts =~= l0.contexts);
            assert(linter@.failures.take(l0.failures.len() as int) =~= l0.failures);
        }
    }

    /// The unsigned integer type able to index every row of the table.
    pub fn index_type(&self) -> (r: BaseType)
        requires
            self.len <= 0x7FFF_FFFF_FFFF_FFFF,
        ensures
            r == spec_int_type_for_range(0, self.len as int),
    {
        int_type_for_range(0, self.len as i64)
    }
}

/// One discovered reverse join: the source table and column (as indices
/// into the project, per the row-identity-by-handle rule), the offset that
/// destination rows add to their index before searching, and the accessor
/// name to expose on the destination table.
pub struct JoinTo {
    pub table: usize,
    pub col: usize,
    pub offset: usize,
    pub reverse_name: String,
}

impl JoinTo {
    fn from_join(table: usize, col: usize, c: &ColJoin) -> (r: JoinTo)
        ensures
            r.table == table,
            r.col == col,
            r.offset == (if c.info.config.optional {
                1int
            } else {
                0int
            }),
            r.reverse_name@ == c.reverse_name@,
    {
        JoinTo {
            table,
            col,
            offset: if c.info.config.optional {
                1
            } else {
                0
            },
            reverse_name: c.reverse_name.clone(),
        }
    }

    fn from_variant(table: usize, col: usize, vrt: &Variant) -> (r: JoinTo)
        ensures
            r.table == table,
            r.col == col,
            r.offset == vrt.index,
            r.reverse_name@ == vrt.reverse@,
    {
        JoinTo { table, col, offset: vrt.index, reverse_name: vrt.reverse.clone() }
    }
}

/// The project owns the resolved tables and the destination identity.
pub struct Project {
    pub dst_path: String,
    pub help: Option<String>,
    pub tables: Vec<Table>,
    pub src_paths: Vec<String>,
}

/// Join column `ci` of table `ti` supplies a reverse join into a table
/// named `tname`.
pub open spec fn join_contrib(p: &Project, tname: Seq<char>, ti: int, ci: int) -> bool {
    &&& 0 <= ti < p.tables@.len()
    &&& p.tables@[ti].name@ != tname
    &&& 0 <= ci < p.tables@[ti].columns@.len()
    &&& match p.tables@[ti].columns@[ci] {
        Column::Join(cj) => (cj.info.interface_type matches BaseType::Join { strname }
            && strname@ == tname) && cj.info.config.iterable,
        _ => false,
    }
}

/// Lane `l` of variant column `ci` of table `ti` supplies a reverse join
/// into a table named `tname`.
pub open spec fn variant_contrib(p: &Project, tname: Seq<char>, ti: int, ci: int, l: int) -> bool {
    &&& 0 <= ti < p.tables@.len()
    &&& p.tables@[ti].name@ != tname
    &&& 0 <= ci < p.tables@[ti].columns@.len()
    &&& match p.tables@[ti].columns@[ci] {
        Column::Variant(cv) => 0 <= l < cv.tables@.len() && cv.tables@[l].name@ == tname
            && cv.tables@[l].reverse@.len() > 0,
        _ => false,
    }
}

/// Some table or lane supplies a reverse join into a table named `tname`.
pub open spec fn has_join_to(p: &Project, tname: Seq<char>) -> bool {
    ||| exists|ti: int, ci: int| #[trigger] join_contrib(p, tname, ti, ci)
    ||| exists|ti: int, ci: int, l: int| #[trigger] variant_contrib(p, tname, ti, ci, l)
}

/// The entries follow the scan order: ascending source table, then
/// ascending column; two entries share a column only when it is a variant
/// column (one entry per lane).
pub open spec fn scan_ordered(p: &Project, entries: Seq<JoinTo>) -> bool {
    forall|k1: int, k2: int|
        0 <= k1 < k2 < entries.len() ==> ((#[trigger] entries[k1]).table < (
        #[trigger] entries[k2]).table) || (entries[k1].table == entries[k2].table && (
        entries[k1].col < entries[k2].col || (entries[k1].col == entries[k2].col
            && p.tables@[entries[k1].table as int].columns@[entries[k1].col as int] is Variant)))
}

/// Entry `e` correctly describes one discovered reverse join into `tname`.
pub open spec fn join_to_entry_ok(p: &Project, tname: Seq<char>, e: &JoinTo) -> bool {
    ||| (join_contrib(p, tname, e.table as int, e.col as int) && match p.tables@[e.table as int].columns@[e.col as int] {
        Column::Join(cj) => e.offset == (if cj.info.config.optional {
            1int
        } else {
            0int
        }) && e.reverse_name@ == cj.reverse_name@,
        _ => false,
    })
    ||| (exists|l: int|
        #[trigger] variant_contrib(p, tname, e.table as int, e.col as int, l)
            && match p.tables@[e.table as int].columns@[e.col as int] {
            Column::Variant(cv) => e.offset == cv.tables@[l].index && e.reverse_name@
                == cv.tables@[l].reverse@,
            _ => false,
        })
}

/// Whether an earlier table of `p` carries the same name as table `t`.
pub open spec fn table_dup(p: &Project, t: int) -> bool {
    exists|j: int| 0 <= j < t && (#[trigger] p.tables@[j].name@) == p.tables@[t].name@
}

/// The failures recorded for table `t` of `p`: a duplicated name, the
/// table's own checks, and a reverse join into a table without values.
pub open spec fn per_table_count(p: &Project, t: int) -> nat {
    ((if table_dup(p, t) {
        1nat
    } else {
        0nat
    }) + table_lint_count(&p.tables@[t]) + (if p.tables@[t].outcol_indexes@.len() > 0
        || !has_join_to(p, p.tables@[t].name@) {
        0nat
    } else {
        1nat
    })) as nat
}

/// The failures recorded for the first `n` tables of `p`.
pub open spec fn tables_count(p: &Project, n: int) -> nat
    decreases n,
{
    if n <= 0 {
        0
    } else {
        tables_count(p, n - 1) + per_table_count(p, n - 1)
    }
}

/// The project name: the stem of the destination path, or `unnamed`.
pub open spec fn spec_project_name(p: &Project) -> Seq<char> {
    if crate::strutil::spec_basename(p.dst_path@).len() > 0 {
        crate::strutil::spec_stem(crate::strutil::spec_basename(p.dst_path@))
    } else {
        "unnamed"@
    }
}

/// The failures [`Project::lint`] records.
pub open spec fn project_lint_count(p: &Project) -> nat {
    ((if is_label(spec_project_name(p)) {
        0nat
    } else {
        1nat
    }) + tables_count(p, p.tables@.len() as int)) as nat
}

impl Project {
    /// The name of the project: the destination file name without its
    /// extension.
    pub fn name(&self) -> (r: String)
        ensures
            crate::strutil::spec_basename(self.dst_path@).len() > 0 ==> r@
                == crate::strutil::spec_stem(crate::strutil::spec_basename(self.dst_path@)),
            crate::strutil::spec_basename(self.dst_path@).len() == 0 ==> r@ == "unnamed"@,
    {
        match crate::strutil::file_stem(self.dst_path.as_str()) {
            Some(name) => name,
            None => {
                let mut s = String::new();
                s.append("unnamed");
                s
            },
        }
    }

    /// Re-validate the whole model: a valid project name, unique table
    /// names, each table's own checks, and no reverse join into a table
    /// without values.
    pub fn lint(&self, linter: &mut Linter)
        requires
            forall|ti: int| 0 <= ti < self.tables@.len() ==> (#[trigger] self.tables@[ti]).wf(),
        ensures
            extends(final(linter)@, old(linter)@, project_lint_count(self)),
    {
        let ghost l0 = linter@;
        let projectname = self.name();
        linter.context(projectname.as_str());
        let name_ok = label(projectname.as_str());
        linter.err(name_ok, "invalid project name");
        let ghost base = linter@.failures.len();
        let tn = self.tables.len();
        let mut tblnames: Vec<String> = Vec::new();
        let ghost mut rows: Seq<int> = Seq::empty();
        let mut t: usize = 0;
        while t < tn
            invariant
                t <= tn,
                tn == self.tables@.len(),
                forall|ti: int|
                    0 <= ti < self.tables@.len() ==> (#[trigger] self.tables@[ti]).wf(),
                linter@.emit == l0.emit,
                linter@.contexts == l0.contexts.push(spec_project_name(self)),
                linter@.failures.len() == base + tables_count(self, t as int),
                linter@.failures.take(l0.failures.len() as int) == l0.failures,
                base == l0.failures.len() + (if is_label(spec_project_name(self)) {
                    0nat
                } else {
                    1nat
                }),
                tblnames@.len() == rows.len(),
                tblnames@.len() == t,
                forall|j: int|
                    0 <= j < rows.len() ==> 0 <= #[trigger] rows[j] < t && tblnames@[j]@
                        == self.tables@[rows[j]].name@,
                forall|j: int| 0 <= j < rows.len() ==> rows[j] == j,
            decreases tn - t,
        {
            let ghost lprev = linter@;
            let table = &self.tables[t];
            let dup = crate::strutil::contains_str(&tblnames, table.name.as_str());
            proof {
                if dup {
                    let j = choose|j: int|
                        0 <= j < tblnames@.len() && #[trigger] tblnames@[j]@ == table.name@;
                    assert(rows[j] == j);
                    assert(tblnames@[j]@ == self.tables@[rows[j]].name@);
                    assert(table_dup(self, t as int));
                }
                if table_dup(self, t as int) {
                    let j = choose|j: int|
                        0 <= j < t && (#[trigger] self.tables@[j].name@)
                            == self.tables@[t as int].name@;
                    assert(rows[j] == j);
                    assert(tblnames@[j]@ == self.tables@[rows[j]].name@);
                    assert(dup);
                }
            }
            linter.err(!dup, "duplicated table name");
            let ghost m1 = linter@;
            table.lint(linter);
            let ghost m2 = linter@;
            let joins = self.join_to_columns(table);
            let mut msg = String::new();
            msg.append("unable to create reverse join to table without values ");
            msg.append(table.name.as_str());
            linter.err(table.has_data() || joins.len() == 0, msg.as_str());
            tblnames.push(table.name.clone());
            proof {
                rows = rows.push(t as int);
                assert(linter@.contexts =~= lprev.contexts);
                assert forall|k: int|
                    0 <= k < l0.failures.len() implies linter@.failures[k] == l0.failures[k] by {
                    assert(m2.failures.take(m1.failures.len() as int)[k] == m2.failures[k]);
                    assert(lprev.failures.take(l0.failures.len() as int)[k]
                        == lprev.failures[k]);
                }
                assert(linter@.failures.take(l0.failures.len() as int) =~= l0.failures);
            }
            t += 1;
        }
        linter.leave();
        proof {
            assert(linter@.contexts =~= l0.contexts);
            assert(linter@.failures.take(l0.failures.len() as int) =~= l0.failures);
        }
    }

    /// Whether generated code for `table` needs an iterator type: some
    /// column is iterable, or some other table reverse-joins into it.
    pub fn table_need_iter(&self, table: &Table) -> (r: bool)
        requires
            forall|ti: int| 0 <= ti < self.tables@.len() ==> (#[trigger] self.tables@[ti]).wf(),
        ensures
            r == ((exists|c: int|
                0 <= c < table.columns@.len() && spec_info(
                    &table.columns@[c],
                ).config.iterable) || has_join_to(self, table.name@)),
    {
        let n = table.columns.len();
        let mut c: usize = 0;
        while c < n
            invariant
                c <= n,
                n == table.columns@.len(),
                forall|j: int|
                    0 <= j < c ==> !spec_info(&table.columns@[j]).config.iterable,
            decreases n - c,
        {
            if table.columns[c].iterable() {
                return true;
            }
            c += 1;
        }
        let joins = self.join_to_columns(table);
        if joins.len() > 0 {
            proof {
                assert(join_to_entry_ok(self, table.name@, &joins@[0]));
            }
            true
        } else {
            false
        }
    }

    /// Discover the reverse joins into `table`: scan every other table's
    /// join and variant columns for one whose destination is `table` and
    /// whose reverse accessor name is non-empty, in declaration order.
    #[verifier::rlimit(100)]
    #[verifier::spinoff_prover]
    pub fn join_to_columns(&self, table: &Table) -> (r: Vec<JoinTo>)
        requires
            forall|ti: int| 0 <= ti < self.tables@.len() ==> (#[trigger] self.tables@[ti]).wf(),
        ensures
            forall|k: int|
                0 <= k < r@.len() ==> join_to_entry_ok(self, table.name@, &(#[trigger] r@[k])),
            forall|t: int, c: int|
                #[trigger] join_contrib(self, table.name@, t, c) ==> exists|k: int|
                    0 <= k < r@.len() && (#[trigger] r@[k]).table == t && r@[k].col == c,
            forall|t: int, c: int, l: int|
                #[trigger] variant_contrib(self, table.name@, t, c, l) ==> exists|k: int|
                    0 <= k < r@.len() && (#[trigger] r@[k]).table == t && r@[k].col == c
                        && (match self.tables@[t].columns@[c] {
                        Column::Variant(cv) => r@[k].offset == cv.tables@[l].index
                            && r@[k].reverse_name@ == cv.tables@[l].reverse@,
                        _ => false,
                    }),
            scan_ordered(self, r@),
            r@.len() > 0 ==> has_join_to(self, table.name@),
    {
        let ghost tname = table.name@;
        let mut columns: Vec<JoinTo> = Vec::new();
        let tn = self.tables.len();
        let mut ti: usize = 0;
        while ti < tn
            invariant
                ti <= tn,
                tn == self.tables@.len(),
                tname == table.name@,
                forall|t: int| 0 <= t < self.tables@.len() ==> (#[trigger] self.tables@[t]).wf(),
                forall|k: int|
                    0 <= k < columns@.len() ==> join_to_entry_ok(
                        self,
                        tname,
                        &(#[trigger] columns@[k]),
                    ),
                forall|t: int, c: int|
                    0 <= t < ti && #[trigger] join_contrib(self, tname, t, c) ==> exists|k: int|
                        0 <= k < columns@.len() && (#[trigger] columns@[k]).table == t
                            && columns@[k].col == c,
                forall|t: int, c: int, l: int|
                    0 <= t < ti && #[trigger] variant_contrib(self, tname, t, c, l) ==> exists|
                        k: int,
                    |
                        0 <= k < columns@.len() && (#[trigger] columns@[k]).table == t
                            && columns@[k].col == c && (match self.tables@[t].columns@[c] {
                            Column::Variant(cv) => columns@[k].offset == cv.tables@[l].index
                                && columns@[k].reverse_name@ == cv.tables@[l].reverse@,
                            _ => false,
                        }),
                scan_ordered(self, columns@),
                forall|k: int| 0 <= k < columns@.len() ==> ((#[trigger] columns@[k]).table as int) < ti,
            decreases tn - ti,
        {
            let join = &self.tables[ti];
            if !crate::strutil::str_eq(join.name.as_str(), table.name.as_str()) {
                let cn = join.columns.len();
                let mut ci: usize = 0;
                while ci < cn
                    invariant
                        ci <= cn,
                        ti < tn,
                        tn == self.tables@.len(),
                        tname == table.name@,
                        cn == self.tables@[ti as int].columns@.len(),
                        join == &self.tables@[ti as int],
                        join.name@ != tname,
                        forall|t: int|
                            0 <= t < self.tables@.len() ==> (#[trigger] self.tables@[t]).wf(),
                        forall|k: int|
                            0 <= k < columns@.len() ==> join_to_entry_ok(
                                self,
                                tname,
                                &(#[trigger] columns@[k]),
                            ),
                        forall|t: int, c: int|
                            0 <= t < ti && #[trigger] join_contrib(self, tname, t, c) ==> exists|
                                k: int,
                            |
                                0 <= k < columns@.len() && (#[trigger] columns@[k]).table == t
                                    && columns@[k].col == c,
                        forall|c: int|
                            0 <= c < ci && #[trigger] join_contrib(self, tname, ti as int, c)
                                ==> exists|k: int|
                                0 <= k < columns@.len() && (#[trigger] columns@[k]).table
                                    == ti as int && columns@[k].col == c,
                        forall|t: int, c: int, l: int|
                            0 <= t < ti && #[trigger] variant_contrib(self, tname, t, c, l)
                                ==> exists|k: int|
                                0 <= k < columns@.len() && (#[trigger] columns@[k]).table == t
                                    && columns@[k].col == c && (match self.tables@[t].columns@[c] {
                                    Column::Variant(cv) => columns@[k].offset
                                        == cv.tables@[l].index && columns@[k].reverse_name@
                                        == cv.tables@[l].reverse@,
                                    _ => false,
                                }),
                        forall|c: int, l: int|
                            0 <= c < ci && #[trigger] variant_contrib(
                                self,
                                tname,
                                ti as int,
                                c,
                                l,
                            ) ==> exists|k: int|
                                0 <= k < columns@.len() && (#[trigger] columns@[k]).table
                                    == ti as int && columns@[k].col == c && (
                                match self.tables@[ti as int].columns@[c] {
                                    Column::Variant(cv) => columns@[k].offset
                                        == cv.tables@[l].index && columns@[k].reverse_name@
                                        == cv.tables@[l].reverse@,
                                    _ => false,
                                }),
                        scan_ordered(self, columns@),
                        forall|k: int|
                            0 <= k < columns@.len() ==> ((#[trigger] columns@[k]).table as int)
                                < ti || (columns@[k].table == ti && (columns@[k].col as int)
                                < ci),
                    decreases cn - ci,
                {
                    let col = &join.columns[ci];
                    match col {
                        Column::Join(cj) => {
                            let is_dest = match &cj.info.interface_type {
                                BaseType::Join { strname } => crate::strutil::str_eq(
                                    strname.as_str(),
                                    table.name.as_str(),
                                ),
                                _ => false,
                            };
                            if is_dest && cj.info.config.iterable {
                                let ghost prev = columns@;
                                columns.push(JoinTo::from_join(ti, ci, cj));
                                proof {
                                    assert(join_contrib(self, tname, ti as int, ci as int));
                                    assert(join_to_entry_ok(
                                        self,
                                        tname,
                                        &columns@[columns@.len() - 1],
                                    ));
                                    assert(columns@[columns@.len() - 1].table == ti
                                        && columns@[columns@.len() - 1].col == ci);
                                    assert forall|k1: int, k2: int|
                                        0 <= k1 < k2 < columns@.len() implies ((
                                        #[trigger] columns@[k1]).table < (
                                        #[trigger] columns@[k2]).table) || (columns@[k1].table
                                        == columns@[k2].table && (columns@[k1].col
                                        < columns@[k2].col || (columns@[k1].col
                                        == columns@[k2].col && self.tables@[columns@[k1].table as int].columns@[columns@[k1].col as int] is Variant))) by {
                                        if k2 < prev.len() {
                                            assert(columns@[k1] == prev[k1]);
                                            assert(columns@[k2] == prev[k2]);
                                        } else {
                                            assert(columns@[k1] == prev[k1]);
                                            assert(((prev[k1]).table as int) < ti || (
                                            prev[k1].table == ti && ((prev[k1]).col as int)
                                                < ci));
                                        }
                                    }
                                    assert forall|t: int, c: int|
                                        0 <= t < ti && #[trigger] join_contrib(
                                        self,
                                        tname,
                                        t,
                                        c,
                                    ) implies exists|k: int|
                                        0 <= k < columns@.len() && (#[trigger] columns@[k]).table
                                            == t && columns@[k].col == c by {
                                        let k = choose|k: int|
                                            0 <= k < prev.len() && (#[trigger] prev[k]).table == t
                                                && prev[k].col == c;
                                        assert(columns@[k] == prev[k]);
                                    }
                                    assert forall|c: int|
                                        0 <= c < ci && #[trigger] join_contrib(
                                        self,
                                        tname,
                                        ti as int,
                                        c,
                                    ) implies exists|k: int|
                                        0 <= k < columns@.len() && (#[trigger] columns@[k]).table
                                            == ti as int && columns@[k].col == c by {
                                        let k = choose|k: int|
                                            0 <= k < prev.len() && (#[trigger] prev[k]).table
                                                == ti as int && prev[k].col == c;
                                        assert(columns@[k] == prev[k]);
                                    }
                                    assert forall|t: int, c: int, li: int|
                                        0 <= t < ti && #[trigger] variant_contrib(
                                        self,
                                        tname,
                                        t,
                                        c,
                                        li,
                                    ) implies exists|k: int|
                                        0 <= k < columns@.len() && (#[trigger] columns@[k]).table
                                            == t && columns@[k].col == c && (
                                        match self.tables@[t].columns@[c] {
                                            Column::Variant(cw) => columns@[k].offset
                                                == cw.tables@[li].index && columns@[k].reverse_name@
                                                == cw.tables@[li].reverse@,
                                            _ => false,
                                        }) by {
                                        let k = choose|k: int|
                                            0 <= k < prev.len() && (#[trigger] prev[k]).table == t
                                                && prev[k].col == c && (
                                            match self.tables@[t].columns@[c] {
                                                Column::Variant(cw) => prev[k].offset
                                                    == cw.tables@[li].index
                                                    && prev[k].reverse_name@
                                                    == cw.tables@[li].reverse@,
                                                _ => false,
                                            });
                                        assert(columns@[k] == prev[k]);
                                    }
                                    assert forall|c: int, li: int|
                                        0 <= c < ci && #[trigger] variant_contrib(
                                        self,
                                        tname,
                                        ti as int,
                                        c,
                                        li,
                                    ) implies exists|k: int|
                                        0 <= k < columns@.len() && (#[trigger] columns@[k]).table
                                            == ti as int && columns@[k].col == c && (
                                        match self.tables@[ti as int].columns@[c] {
                                            Column::Variant(cw) => columns@[k].offset
                                                == cw.tables@[li].index && columns@[k].reverse_name@
                                                == cw.tables@[li].reverse@,
                                            _ => false,
                                        }) by {
                                        let k = choose|k: int|
                                            0 <= k < prev.len() && (#[trigger] prev[k]).table
                                                == ti as int && prev[k].col == c && (
                                            match self.tables@[ti as int].columns@[c] {
                                                Column::Variant(cw) => prev[k].offset
                                                    == cw.tables@[li].index
                                                    && prev[k].reverse_name@
                                                    == cw.tables@[li].reverse@,
                                                _ => false,
                                            });
                                        assert(columns@[k] == prev[k]);
                                    }
                                }
                            } else {
                                proof {
                                    assert(!join_contrib(self, tname, ti as int, ci as int));
                                }
                            }
                        },
                        Column::Variant(cv) => {
                            let ln = cv.tables.len();
                            let mut l: usize = 0;
                            while l < ln
                                invariant
                                    l <= ln,
                                    ti < tn,
                                    ci < cn,
                                    tn == self.tables@.len(),
                                    tname == table.name@,
                                    cn == self.tables@[ti as int].columns@.len(),
                                    join == &self.tables@[ti as int],
                                    join.name@ != tname,
                                    (match self.tables@[ti as int].columns@[ci as int] {
                                        Column::Variant(cw) => cw == *cv,
                                        _ => false,
                                    }),
                                    ln == cv.tables@.len(),
                                    forall|k: int|
                                        0 <= k < columns@.len() ==> join_to_entry_ok(
                                            self,
                                            tname,
                                            &(#[trigger] columns@[k]),
                                        ),
                                    forall|t: int, c: int|
                                        0 <= t < ti && #[trigger] join_contrib(
                                            self,
                                            tname,
                                            t,
                                            c,
                                        ) ==> exists|k: int|
                                            0 <= k < columns@.len() && (
                                            #[trigger] columns@[k]).table == t && columns@[k].col
                                                == c,
                                    forall|c: int|
                                        0 <= c < ci && #[trigger] join_contrib(
                                            self,
                                            tname,
                                            ti as int,
                                            c,
                                        ) ==> exists|k: int|
                                            0 <= k < columns@.len() && (
                                            #[trigger] columns@[k]).table == ti as int
                                                && columns@[k].col == c,
                                    forall|t: int, c: int, li: int|
                                        0 <= t < ti && #[trigger] variant_contrib(
                                            self,
                                            tname,
                                            t,
                                            c,
                                            li,
                                        ) ==> exists|k: int|
                                            0 <= k < columns@.len() && (
                                            #[trigger] columns@[k]).table == t && columns@[k].col
                                                == c && (match self.tables@[t].columns@[c] {
                                                Column::Variant(cw) => columns@[k].offset
                                                    == cw.tables@[li].index
                                                    && columns@[k].reverse_name@
                                                    == cw.tables@[li].reverse@,
                                                _ => false,
                                            }),
                                    forall|c: int, li: int|
                                        0 <= c < ci && #[trigger] variant_contrib(
                                            self,
                                            tname,
                                            ti as int,
                                            c,
                                            li,
                                        ) ==> exists|k: int|
                                            0 <= k < columns@.len() && (
                                            #[trigger] columns@[k]).table == ti as int
                                                && columns@[k].col == c && (
                                            match self.tables@[ti as int].columns@[c] {
                                                Column::Variant(cw) => columns@[k].offset
                                                    == cw.tables@[li].index
                                                    && columns@[k].reverse_name@
                                                    == cw.tables@[li].reverse@,
                                                _ => false,
                                            }),
                                    forall|li: int|
                                        0 <= li < l && #[trigger] variant_contrib(
                                            self,
                                            tname,
                                            ti as int,
                                            ci as int,
                                            li,
                                        ) ==> exists|k: int|
                                            0 <= k < columns@.len() && (
                                            #[trigger] columns@[k]).table == ti as int
                                                && columns@[k].col == ci as int
                                                && columns@[k].offset == cv.tables@[li].index
                                                && columns@[k].reverse_name@
                                                == cv.tables@[li].reverse@,
                                    scan_ordered(self, columns@),
                                    forall|k: int|
                                        0 <= k < columns@.len() ==> ((
                                        #[trigger] columns@[k]).table as int) < ti || (
                                        columns@[k].table == ti && (columns@[k].col as int)
                                            <= ci),
                                decreases ln - l,
                            {
                                let vrt = &cv.tables[l];
                                let is_dest = crate::strutil::str_eq(
                                    vrt.name.as_str(),
                                    table.name.as_str(),
                                );
                                if is_dest && !vrt.reverse.as_str().is_empty() {
                                    let ghost prev = columns@;
                                    columns.push(JoinTo::from_variant(ti, ci, vrt));
                                    proof {
                                        assert(variant_contrib(
                                            self,
                                            tname,
                                            ti as int,
                                            ci as int,
                                            l as int,
                                        ));
                                        assert(join_to_entry_ok(
                                            self,
                                            tname,
                                            &columns@[columns@.len() - 1],
                                        ));
                                        assert(columns@[columns@.len() - 1].table == ti
                                            && columns@[columns@.len() - 1].col == ci);
                                        assert forall|k1: int, k2: int|
                                            0 <= k1 < k2 < columns@.len() implies ((
                                            #[trigger] columns@[k1]).table < (
                                            #[trigger] columns@[k2]).table) || (columns@[k1].table
                                            == columns@[k2].table && (columns@[k1].col
                                            < columns@[k2].col || (columns@[k1].col
                                            == columns@[k2].col && self.tables@[columns@[k1].table as int].columns@[columns@[k1].col as int] is Variant))) by {
                                            if k2 < prev.len() {
                                                assert(columns@[k1] == prev[k1]);
                                                assert(columns@[k2] == prev[k2]);
                                            } else {
                                                assert(columns@[k1] == prev[k1]);
                                                assert(((prev[k1]).table as int) < ti || (
                                                prev[k1].table == ti && ((prev[k1]).col as int)
                                                    <= ci));
                                            }
                                        }
                                        assert forall|t: int, c: int|
                                            0 <= t < ti && #[trigger] join_contrib(
                                            self,
                                            tname,
                                            t,
                                            c,
                                        ) implies exists|k: int|
                                            0 <= k < columns@.len() && (
                                            #[trigger] columns@[k]).table == t && columns@[k].col
                                                == c by {
                                            let k = choose|k: int|
                                                0 <= k < prev.len() && (#[trigger] prev[k]).table
                                                    == t && prev[k].col == c;
                                            assert(columns@[k] == prev[k]);
                                        }
                                        assert forall|c: int|
                                            0 <= c < ci && #[trigger] join_contrib(
                                            self,
                                            tname,
                                            ti as int,
                                            c,
                                        ) implies exists|k: int|
                                            0 <= k < columns@.len() && (
                                            #[trigger] columns@[k]).table == ti as int
                                                && columns@[k].col == c by {
                                            let k = choose|k: int|
                                                0 <= k < prev.len() && (#[trigger] prev[k]).table
                                                    == ti as int && prev[k].col == c;
                                            assert(columns@[k] == prev[k]);
                                        }
                                        assert forall|t: int, c: int, li: int|
                                            0 <= t < ti && #[trigger] variant_contrib(
                                            self,
                                            tname,
                                            t,
                                            c,
                                            li,
                                        ) implies exists|k: int|
                                            0 <= k < columns@.len() && (
                                            #[trigger] columns@[k]).table == t && columns@[k].col
                                                == c && (match self.tables@[t].columns@[c] {
                                                Column::Variant(cw) => columns@[k].offset
                                                    == cw.tables@[li].index
                                                    && columns@[k].reverse_name@
                                                    == cw.tables@[li].reverse@,
                                                _ => false,
                                            }) by {
                                            let k = choose|k: int|
                                                0 <= k < prev.len() && (#[trigger] prev[k]).table
                                                    == t && prev[k].col == c && (
                                                match self.tables@[t].columns@[c] {
                                                    Column::Variant(cw) => prev[k].offset
                                                        == cw.tables@[li].index
                                                        && prev[k].reverse_name@
                                                        == cw.tables@[li].reverse@,
                                                    _ => false,
                                                });
                                            assert(columns@[k] == prev[k]);
                                        }
                                        assert forall|c: int, li: int|
                                            0 <= c < ci && #[trigger] variant_contrib(
                                            self,
                                            tname,
                                            ti as int,
                                            c,
                                            li,
                                        ) implies exists|k: int|
                                            0 <= k < columns@.len() && (
                                            #[trigger] columns@[k]).table == ti as int
                                                && columns@[k].col == c && (
                                            match self.tables@[ti as int].columns@[c] {
                                                Column::Variant(cw) => columns@[k].offset
                                                    == cw.tables@[li].index
                                                    && columns@[k].reverse_name@
                                                    == cw.tables@[li].reverse@,
                                                _ => false,
                                            }) by {
                                            let k = choose|k: int|
                                                0 <= k < prev.len() && (#[trigger] prev[k]).table
                                                    == ti as int && prev[k].col == c && (
                                                match self.tables@[ti as int].columns@[c] {
                                                    Column::Variant(cw) => prev[k].offset
                                                        == cw.tables@[li].index
                                                        && prev[k].reverse_name@
                                                        == cw.tables@[li].reverse@,
                                                    _ => false,
                                                });
                                            assert(columns@[k] == prev[k]);
                                        }
                                        assert forall|li: int|
                                            0 <= li < l && #[trigger] variant_contrib(
                                            self,
                                            tname,
                                            ti as int,
                                            ci as int,
                                            li,
                                        ) implies exists|k: int|
                                            0 <= k < columns@.len() && (
                                            #[trigger] columns@[k]).table == ti as int
                                                && columns@[k].col == ci as int
                                                && columns@[k].offset == cv.tables@[li].index
                                                && columns@[k].reverse_name@
                                                == cv.tables@[li].reverse@ by {
                                            let k = choose|k: int|
                                                0 <= k < prev.len() && (#[trigger] prev[k]).table
                                                    == ti as int && prev[k].col == ci as int
                                                    && prev[k].offset == cv.tables@[li].index
                                                    && prev[k].reverse_name@
                                                    == cv.tables@[li].reverse@;
                                            assert(columns@[k] == prev[k]);
                                        }
                                    }
                                } else {
                                    proof {
                                        assert(!variant_contrib(
                                            self,
                                            tname,
                                            ti as int,
                                            ci as int,
                                            l as int,
                                        ));
                                    }
                                }
                                l += 1;
                            }
                            proof {
                                assert(!join_contrib(self, tname, ti as int, ci as int));
                            }
                        },
                        _ => {
                            proof {
                                assert(!join_contrib(self, tname, ti as int, ci as int));
                                assert(forall|li: int|
                                    !(#[trigger] variant_contrib(
                                        self,
                                        tname,
                                        ti as int,
                                        ci as int,
                                        li,
                                    )));
                            }
                        },
                    }
                    ci += 1;
                }
            } else {
                proof {
                    assert(forall|c: int|
                        !(#[trigger] join_contrib(self, tname, ti as int, c)));
                    assert(forall|c: int, li: int|
                        !(#[trigger] variant_contrib(self, tname, ti as int, c, li)));
                }
            }
            ti += 1;
        }
        proof {
            if columns@.len() > 0 {
                assert(join_to_entry_ok(self, tname, &columns@[0]));
            }
            assert forall|t: int, c: int|
                #[trigger] join_contrib(self, tname, t, c) implies exists|k: int|
                0 <= k < columns@.len() && (#[trigger] columns@[k]).table == t && columns@[k].col
                    == c by {
                assert(0 <= t < self.tables@.len());
            }
            assert forall|t: int, c: int, l: int|
                #[trigger] variant_contrib(self, tname, t, c, l) implies exists|k: int|
                0 <= k < columns@.len() && (#[trigger] columns@[k]).table == t && columns@[k].col
                    == c && (match self.tables@[t].columns@[c] {
                    Column::Variant(cv) => columns@[k].offset == cv.tables@[l].index
                        && columns@[k].reverse_name@ == cv.tables@[l].reverse@,
                    _ => false,
                }) by {
                assert(0 <= t < self.tables@.len());
            }
        }
        columns
    }
}

/// Parse a vector of strings into integers, reporting the first failing row.
pub fn parse_vec(strvals: &Vec<String>) -> (r: aperror::Result<Vec<i64>>)
    ensures
        r is Ok <==> (forall|i: int|
            0 <= i < strvals@.len() ==> is_i64_string(#[trigger] strvals@[i]@)),
        r matches Ok(vals) ==> vals@.len() == strvals@.len() && forall|i: int|
            0 <= i < strvals@.len() ==> #[trigger] vals@[i] as int == int_value(strvals@[i]@),
        r matches Err(e) ==> exists|i: int|
            0 <= i < strvals@.len() && !is_i64_string(#[trigger] strvals@[i]@) && (forall|j: int|
                0 <= j < i ==> is_i64_string(#[trigger] strvals@[j]@)) && e@ == strvals@[i]@
                + " not a number at row "@ + dec_rep(i as nat),
{
    let n = strvals.len();
    let mut vals: Vec<i64> = Vec::new();
    let mut i: usize = 0;
    while i < n
        invariant
            i <= n,
            n == strvals@.len(),
            vals@.len() == i,
            forall|j: int| 0 <= j < i ==> is_i64_string(#[trigger] strvals@[j]@),
            forall|j: int| 0 <= j < i ==> #[trigger] vals@[j] as int == int_value(strvals@[j]@),
        decreases n - i,
    {
        match crate::strutil::parse_i64(strvals[i].as_str()) {
            Some(v) => {
                vals.push(v);
            },
            None => {
                let mut m = strvals[i].clone();
                m.append(" not a number at row ");
                let rownum = usize_to_string(i);
                m.append(rownum.as_str());
                return Err(Error::new(m.as_str()));
            },
        }
        i += 1;
    }
    Ok(vals)
}

} // verus!
