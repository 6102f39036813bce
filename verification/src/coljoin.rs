//! Jointure column: per row, either 0 (absent, legal only for optional
//! joins) or `1 + index` of the referenced row in the destination key column.

use vstd::prelude::*;
use crate::basetype::{BaseType, spec_int_type_for_range, int_type_for_range};
use crate::lint::{Linter, extends, is_label, label};
use crate::strutil::last_position_str;
use crate::table::{ColumnConfig, ColumnInfo};

verus! {

pub struct ColJoin {
    pub info: ColumnInfo,
    pub values: Vec<usize>,
    pub reverse_name: String,
}

/// The stored link for source cell `v`: `1 +` the last destination row whose
/// key equals `v`, or 0 when no destination key matches.
pub open spec fn join_value(dest_keys: Seq<String>, v: Seq<char>) -> nat
    decreases dest_keys.len(),
{
    if dest_keys.len() == 0 {
        0
    } else if dest_keys.last()@ == v {
        dest_keys.len()
    } else {
        join_value(dest_keys.drop_last(), v)
    }
}

pub proof fn lemma_join_value_last(dest_keys: Seq<String>, v: Seq<char>, i: int)
    requires
        0 <= i < dest_keys.len(),
        dest_keys[i]@ == v,
        forall|k: int| i < k < dest_keys.len() ==> #[trigger] dest_keys[k]@ != v,
    ensures
        join_value(dest_keys, v) == i + 1,
    decreases dest_keys.len(),
{
    if i == dest_keys.len() - 1 {
    } else {
        assert(dest_keys.last()@ != v);
        assert(dest_keys.drop_last()[i]@ == v);
        lemma_join_value_last(dest_keys.drop_last(), v, i);
    }
}

pub proof fn lemma_join_value_none(dest_keys: Seq<String>, v: Seq<char>)
    requires
        forall|k: int| 0 <= k < dest_keys.len() ==> #[trigger] dest_keys[k]@ != v,
    ensures
        join_value(dest_keys, v) == 0,
    decreases dest_keys.len(),
{
    if dest_keys.len() > 0 {
        lemma_join_value_none(dest_keys.drop_last(), v);
    }
}

/// Equal cell views give equal links.
pub proof fn lemma_join_value_congruent(a: Seq<String>, b: Seq<String>, v: Seq<char>)
    requires
        a.len() == b.len(),
        forall|i: int| 0 <= i < a.len() ==> (#[trigger] a[i])@ == b[i]@,
    ensures
        join_value(a, v) == join_value(b, v),
    decreases a.len(),
{
    if a.len() > 0 {
        assert(a.last()@ == b.last()@);
        assert(forall|i: int|
            0 <= i < a.drop_last().len() ==> (#[trigger] a.drop_last()[i]) == a[i]);
        assert(forall|i: int|
            0 <= i < b.drop_last().len() ==> (#[trigger] b.drop_last()[i]) == b[i]);
        lemma_join_value_congruent(a.drop_last(), b.drop_last(), v);
    }
}

/// The number of zero entries in `values`.
pub open spec fn zero_count(values: Seq<usize>) -> nat
    decreases values.len(),
{
    if values.len() == 0 {
        0
    } else {
        zero_count(values.drop_last()) + (if values.last() == 0usize {
            1nat
        } else {
            0nat
        })
    }
}

impl ColJoin {
    pub fn new(
        config: ColumnConfig,
        values: &Vec<String>,
        dest_table: &str,
        dest_keys: &Vec<String>,
        reverse: &str,
    ) -> (r: ColJoin)
        requires
            dest_keys@.len() < usize::MAX,
            dest_keys@.len() < 0x7FFF_FFFF_FFFF_FFFF,
        ensures
            r.values@.len() == values@.len(),
            forall|i: int|
                0 <= i < values@.len() ==> #[trigger] r.values@[i] as nat == join_value(
                    dest_keys@,
                    values@[i]@,
                ),
            forall|i: int| 0 <= i < values@.len() ==> #[trigger] r.values@[i] <= dest_keys@.len(),
            r.reverse_name@ == reverse@,
            r.info.config.name == config.name,
            r.info.config.help == config.help,
            r.info.config.iter_help == config.iter_help,
            r.info.config.optional == config.optional,
            r.info.config.iterable == (reverse@.len() > 0),
            r.info.len == values@.len(),
            r.info.interface_type matches BaseType::Join { strname } && strname@ == dest_table@,
            r.info.table_type == spec_int_type_for_range(
                0,
                dest_keys@.len() + (if config.optional {
                    1int
                } else {
                    0int
                }),
            ),
    {
        let n = values.len();
        let mut links: Vec<usize> = Vec::new();
        let mut i: usize = 0;
        while i < n
            invariant
                i <= n,
                n == values@.len(),
                links@.len() == i,
                dest_keys@.len() < usize::MAX,
                dest_keys@.len() < 0x7FFF_FFFF_FFFF_FFFF,
                forall|k: int|
                    0 <= k < i ==> #[trigger] links@[k] as nat == join_value(
                        dest_keys@,
                        values@[k]@,
                    ),
                forall|k: int| 0 <= k < i ==> #[trigger] links@[k] <= dest_keys@.len(),
            decreases n - i,
        {
            match last_position_str(dest_keys, values[i].as_str()) {
                Some(j) => {
                    proof {
                        lemma_join_value_last(dest_keys@, values@[i as int]@, j as int);
                    }
                    links.push(j + 1);
                },
                None => {
                    proof {
                        lemma_join_value_none(dest_keys@, values@[i as int]@);
                    }
                    links.push(0);
                },
            }
            i += 1;
        }
        let max: usize = dest_keys.len() + (if config.optional {
            1
        } else {
            0
        });
        let iterable = !reverse.is_empty();
        let ColumnConfig { name, help, iterable: _, iter_help, optional } = config;
        ColJoin {
            info: ColumnInfo {
                config: ColumnConfig { name, help, iterable, iter_help, optional },
                len: n,
                interface_type: BaseType::Join { strname: dest_table.to_owned() },
                table_type: int_type_for_range(0, max as i64),
            },
            values: links,
            reverse_name: reverse.to_owned(),
        }
    }

    /// Stable index of the linked rows: for an optional join only the rows
    /// that carry a link, for a mandatory join every row.
    pub fn indexes(&self) -> (r: Vec<usize>)
        ensures
            crate::index::sorted_index_usize(self.values@, r@),
            r@.no_duplicates(),
            forall|k: int|
                0 <= k < r@.len() ==> (#[trigger] r@[k] as nat) < self.values@.len(),
            self.info.config.optional ==> forall|row: usize|
                (row as nat) < self.values@.len() && self.values@[row as int] != 0
                    ==> #[trigger] r@.contains(row),
            self.info.config.optional ==> forall|k: int|
                0 <= k < r@.len() ==> self.values@[(#[trigger] r@[k]) as int] != 0,
            !self.info.config.optional ==> crate::index::is_permutation(self.values@.len(), r@),
    {
        if self.info.config.optional {
            crate::index::filter_index(&self.values, 0)
        } else {
            crate::index::index(&self.values)
        }
    }

    /// Record a failure when the destination table name is invalid, and, for
    /// a mandatory join, one per row whose link is unresolved.
    pub fn lint(&self, linter: &mut Linter)
        ensures
            extends(
                final(linter)@,
                old(linter)@,
                ((if is_label(
                    match self.info.interface_type {
                        BaseType::Join { strname } => strname@,
                        _ => Seq::<char>::empty(),
                    },
                ) {
                    0nat
                } else {
                    1nat
                }) + (if self.info.config.optional {
                    0nat
                } else {
                    zero_count(self.values@)
                })) as nat,
            ),
    {
        let ghost l0 = linter@;
        let jt = self.info.join_table();
        let name_ok = label(jt.as_str());
        linter.err(name_ok, "invalid table name for join");
        proof {
            assert(linter@.failures.take(l0.failures.len() as int) =~= l0.failures);
        }
        if !self.info.config.optional {
            let ghost base = linter@.failures.len();
            let n = self.values.len();
            let mut i: usize = 0;
            while i < n
                invariant
                    i <= n,
                    n == self.values@.len(),
                    linter@.emit == l0.emit,
                    linter@.contexts == l0.contexts,
                    linter@.failures.len() == base + zero_count(self.values@.take(i as int)),
                    linter@.failures.take(l0.failures.len() as int) == l0.failures,
                    base == l0.failures.len() + (if is_label(
                        match self.info.interface_type {
                            BaseType::Join { strname } => strname@,
                            _ => Seq::<char>::empty(),
                        },
                    ) {
                        0nat
                    } else {
                        1nat
                    }),
                decreases n - i,
            {
                let ghost lprev = linter@;
                linter.row(i);
                linter.err(self.values[i] != 0, "undefined link");
                linter.leave();
                proof {
                    assert(self.values@.take(i + 1).drop_last() =~= self.values@.take(i as int));
                    assert(self.values@.take(i + 1).last() == self.values@[i as int]);
                    assert(linter@.contexts =~= lprev.contexts);
                    assert(linter@.failures.take(l0.failures.len() as int) =~= l0.failures);
                }
                i += 1;
            }
            proof {
                assert(self.values@.take(n as int) =~= self.values@);
            }
        }
    }
}

/// Every stored value of a mandatory join column that passed the lint
/// resolves to a valid destination row: it is `1 + row` with
/// `row < dest_len`, never the absent marker 0.
pub proof fn lemma_join_resolves(values: Seq<usize>, dest_len: nat)
    requires
        forall|i: int| 0 <= i < values.len() ==> #[trigger] values[i] as nat <= dest_len,
        zero_count(values) == 0,
    ensures
        forall|i: int|
            0 <= i < values.len() ==> 1 <= #[trigger] values[i] && ((values[i] - 1) as nat)
                < dest_len,
    decreases values.len(),
{
    if values.len() > 0 {
        assert(forall|i: int|
            0 <= i < values.drop_last().len() ==> #[trigger] values.drop_last()[i] == values[i]);
        lemma_join_resolves(values.drop_last(), dest_len);
        assert forall|i: int| 0 <= i < values.len() implies 1 <= #[trigger] values[i] && ((values[i]
            - 1) as nat) < dest_len by {
            if i < values.len() - 1 {
                assert(values.drop_last()[i] == values[i]);
            } else {
                assert(values.last() != 0usize);
            }
        }
    }
}

} // verus!
