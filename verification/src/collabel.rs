//! Row label column: each non-empty cell names its row, and the names must
//! stay distinct and valid after conversion to SHOUTY_SNAKE_CASE.

use vstd::prelude::*;
use crate::aperror;
use crate::basetype::BaseType;
use crate::caseconv::{shouty_snake_of, shouty_snake_case};
use crate::lint::{Linter, extends, is_label, label};
use crate::strutil::{seq_contains_str, contains_str};
use crate::table::{ColumnConfig, ColumnInfo};

verus! {

pub struct ColLabel {
    pub info: ColumnInfo,
    pub labels: Vec<String>,
    pub label_helps: Vec<String>,
}

/// Whether an earlier non-empty label folds to the same SHOUTY_SNAKE_CASE
/// name as label `i`.
pub open spec fn label_dup(labels: Seq<String>, i: int) -> bool {
    exists|j: int|
        0 <= j < i && labels[j]@.len() > 0 && shouty_snake_of(#[trigger] labels[j]@)
            == shouty_snake_of(labels[i]@)
}

/// The failures recorded for row `i`: an empty label where the column is
/// promoted to a data column, an invalid folded name, a duplicate.
pub open spec fn label_row_count(labels: Seq<String>, allow_empty: bool, i: int) -> nat {
    if labels[i]@.len() == 0 {
        if allow_empty {
            0nat
        } else {
            1nat
        }
    } else {
        (if is_label(shouty_snake_of(labels[i]@)) {
            0nat
        } else {
            1nat
        }) + (if label_dup(labels, i) {
            1nat
        } else {
            0nat
        })
    }
}

/// The failures recorded for the first `n` rows.
pub open spec fn label_lint_count(labels: Seq<String>, allow_empty: bool, n: int) -> nat
    decreases n,
{
    if n <= 0 {
        0
    } else {
        label_lint_count(labels, allow_empty, n - 1) + label_row_count(labels, allow_empty, n - 1)
    }
}

impl ColLabel {
    pub fn parse(
        config: ColumnConfig,
        namespace: &str,
        labels: &Vec<String>,
        label_helps: &Vec<String>,
    ) -> (r: aperror::Result<ColLabel>)
        ensures
            r is Ok,
            r matches Ok(c) ==> {
                &&& c.labels@.len() == labels@.len()
                &&& forall|i: int| 0 <= i < labels@.len() ==> #[trigger] c.labels@[i]@ == labels@[i]@
                &&& c.label_helps@.len() == label_helps@.len()
                &&& forall|i: int|
                    0 <= i < label_helps@.len() ==> #[trigger] c.label_helps@[i]@
                        == label_helps@[i]@
                &&& c.info.config == config
                &&& c.info.len == labels@.len()
                &&& c.info.interface_type matches BaseType::Label { name } && name@ == namespace@
                &&& c.info.table_type matches BaseType::Label { name } && name@ == namespace@
            },
    {
        let n = labels.len();
        let mut lcopy: Vec<String> = Vec::new();
        let mut i: usize = 0;
        while i < n
            invariant
                i <= n,
                n == labels@.len(),
                lcopy@.len() == i,
                forall|k: int| 0 <= k < i ==> #[trigger] lcopy@[k]@ == labels@[k]@,
            decreases n - i,
        {
            lcopy.push(labels[i].clone());
            i += 1;
        }
        let m = label_helps.len();
        let mut hcopy: Vec<String> = Vec::new();
        let mut j: usize = 0;
        while j < m
            invariant
                j <= m,
                m == label_helps@.len(),
                hcopy@.len() == j,
                forall|k: int| 0 <= k < j ==> #[trigger] hcopy@[k]@ == label_helps@[k]@,
            decreases m - j,
        {
            hcopy.push(label_helps[j].clone());
            j += 1;
        }
        Ok(
            ColLabel {
                info: ColumnInfo {
                    config,
                    len: n,
                    interface_type: BaseType::Label { name: namespace.to_owned() },
                    table_type: BaseType::Label { name: namespace.to_owned() },
                },
                labels: lcopy,
                label_helps: hcopy,
            },
        )
    }

    /// Label columns expose no sorted index.
    pub fn indexes(&self) -> (r: Vec<usize>)
        ensures
            r@.len() == 0,
    {
        Vec::new()
    }

    /// Record a failure per empty label where the column was promoted, per
    /// invalid folded name, per duplicate folded name, and one when the
    /// help column length does not match.
    pub fn lint(&self, linter: &mut Linter)
        ensures
            extends(
                final(linter)@,
                old(linter)@,
                (label_lint_count(
                    self.labels@,
                    self.info.config.name@.len() == 0,
                    self.labels@.len() as int,
                ) + (if self.labels@.len() == self.label_helps@.len() {
                    0nat
                } else {
                    1nat
                })) as nat,
            ),
    {
        let ghost l0 = linter@;
        let ghost allow_e = self.info.config.name@.len() == 0;
        let allow_empty = self.info.config.name.as_str().is_empty();
        let n = self.labels.len();
        let mut uppers: Vec<String> = Vec::new();
        let ghost mut rows: Seq<int> = Seq::empty();
        let mut i: usize = 0;
        while i < n
            invariant
                i <= n,
                n == self.labels@.len(),
                allow_e == (self.info.config.name@.len() == 0),
                allow_empty == allow_e,
                linter@.emit == l0.emit,
                linter@.contexts == l0.contexts,
                linter@.failures.len() == l0.failures.len() + label_lint_count(
                    self.labels@,
                    allow_e,
                    i as int,
                ),
                linter@.failures.take(l0.failures.len() as int) == l0.failures,
                uppers@.len() == rows.len(),
                forall|k: int|
                    0 <= k < rows.len() ==> 0 <= #[trigger] rows[k] < i
                        && self.labels@[rows[k]]@.len() > 0 && uppers@[k]@ == shouty_snake_of(
                        self.labels@[rows[k]]@,
                    ),
                forall|j: int|
                    0 <= j < i && (#[trigger] self.labels@[j]@).len() > 0 ==> seq_contains_str(
                        uppers@,
                        shouty_snake_of(self.labels@[j]@),
                    ),
            decreases n - i,
        {
            let ghost lprev = linter@;
            if self.labels[i].as_str().is_empty() {
                linter.row(i);
                linter.err(allow_empty, "empty values disallowed by as_label option");
                linter.leave();
                proof {
                    assert(linter@.contexts =~= lprev.contexts);
                    assert(linter@.failures.take(l0.failures.len() as int) =~= l0.failures);
                }
            } else {
                let upper = shouty_snake_case(self.labels[i].as_str());
                let valid = label(upper.as_str());
                let dup = contains_str(&uppers, upper.as_str());
                proof {
                    if dup {
                        let k = choose|k: int|
                            0 <= k < uppers@.len() && #[trigger] uppers@[k]@ == upper@;
                        let j = rows[k];
                        assert(self.labels@[j]@.len() > 0 && shouty_snake_of(self.labels@[j]@)
                            == shouty_snake_of(self.labels@[i as int]@));
                        assert(label_dup(self.labels@, i as int));
                    }
                    if label_dup(self.labels@, i as int) {
                        let j = choose|j: int|
                            0 <= j < i && self.labels@[j]@.len() > 0 && shouty_snake_of(
                                self.labels@[j]@,
                            ) == shouty_snake_of(self.labels@[i as int]@);
                        assert(seq_contains_str(uppers@, shouty_snake_of(self.labels@[j]@)));
                        assert(dup);
                    }
                }
                let mut msg = String::new();
                msg.append("invalid label ");
                msg.append(self.labels[i].as_str());
                let mut msg2 = String::new();
                msg2.append("duplicate label ");
                msg2.append(self.labels[i].as_str());
                linter.row(i);
                linter.err(valid, msg.as_str());
                linter.err(!dup, msg2.as_str());
                linter.leave();
                let ghost uppers_prev = uppers@;
                uppers.push(upper);
                proof {
                    rows = rows.push(i as int);
                    assert(linter@.contexts =~= lprev.contexts);
                    assert(linter@.failures.take(l0.failures.len() as int) =~= l0.failures);
                    assert(uppers@[uppers@.len() - 1]@ == shouty_snake_of(
                        self.labels@[i as int]@,
                    ));
                    assert forall|j: int|
                        0 <= j < i + 1 && (#[trigger] self.labels@[j]@).len()
                            > 0 implies seq_contains_str(
                        uppers@,
                        shouty_snake_of(self.labels@[j]@),
                    ) by {
                        if j < i {
                            assert(seq_contains_str(uppers_prev, shouty_snake_of(
                                self.labels@[j]@,
                            )));
                            let k = choose|k: int|
                                0 <= k < uppers_prev.len() && (#[trigger] uppers_prev[k]@)
                                    == shouty_snake_of(self.labels@[j]@);
                            assert(uppers@[k]@ == shouty_snake_of(self.labels@[j]@));
                        } else {
                            assert(uppers@[uppers@.len() - 1]@ == shouty_snake_of(
                                self.labels@[j]@,
                            ));
                        }
                    }
                }
            }
            i += 1;
        }
        linter.err(
            self.labels.len() == self.label_helps.len(),
            "invalid number of label helps",
        );
        proof {
            assert(linter@.failures.take(l0.failures.len() as int) =~= l0.failures);
        }
    }
}

} // verus!
