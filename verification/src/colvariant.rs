//! Variant column: a tagged union over several destination tables, stored
//! as one flat offset into a virtual address space partitioned into disjoint
//! contiguous lanes, one lane per destination (a `None` lane first when the
//! variant is optional), each lane sized by the highest row it references.

use vstd::prelude::*;
use crate::aperror;
use crate::aperror::Error;
use crate::basetype::{BaseType, spec_int_type_for_range, int_type_for_range};
use crate::coljoin::join_value;
use crate::lint::Linter;
use crate::strutil::{dec_rep, last_position_str, usize_to_string};
use crate::table::{ColumnConfig, ColumnInfo, Variant};

verus! {

/// One candidate destination of a variant column: the name of the target
/// table, the reverse accessor to generate, the key column of the target,
/// and the highest referenced row bound found so far.
pub struct Dest {
    /// name of table for join target
    pub table: String,
    /// generate accessor for reverse join
    pub reverse: String,
    pub max: usize,
    pub keys: Vec<String>,
}

impl Dest {
    pub fn new(values: &Vec<String>, table: String, reverse: String) -> (r: Dest)
        ensures
            r.table == table,
            r.reverse == reverse,
            r.max == 0,
            r.keys@.len() == values@.len(),
            forall|i: int| 0 <= i < values@.len() ==> #[trigger] r.keys@[i]@ == values@[i]@,
    {
        let n = values.len();
        let mut keys: Vec<String> = Vec::new();
        let mut i: usize = 0;
        while i < n
            invariant
                i <= n,
                n == values@.len(),
                keys@.len() == i,
                forall|k: int| 0 <= k < i ==> #[trigger] keys@[k]@ == values@[k]@,
            decreases n - i,
        {
            keys.push(values[i].clone());
            i += 1;
        }
        Dest { table, reverse, max: 0, keys }
    }
}

/// The key columns of the destinations, in declaration order.
pub open spec fn dest_keys(dests: Seq<Dest>) -> Seq<Seq<String>> {
    Seq::new(dests.len(), |d: int| dests[d].keys@)
}

/// The first destination whose key column holds `v`, together with the
/// referenced row (the last matching key row, as for a join).
pub open spec fn spec_dest_match(keyss: Seq<Seq<String>>, v: Seq<char>) -> Option<(int, int)>
    decreases keyss.len(),
{
    if keyss.len() == 0 {
        None
    } else if join_value(keyss[0], v) > 0 {
        Some((0int, join_value(keyss[0], v) - 1))
    } else {
        match spec_dest_match(keyss.drop_first(), v) {
            Some(p) => Some((p.0 + 1, p.1)),
            None => None,
        }
    }
}

proof fn lemma_dest_match_found(keyss: Seq<Seq<String>>, v: Seq<char>, d: int)
    requires
        0 <= d < keyss.len(),
        join_value(keyss[d], v) > 0,
        forall|e: int| 0 <= e < d ==> join_value(#[trigger] keyss[e], v) == 0,
    ensures
        spec_dest_match(keyss, v) == Some((d, join_value(keyss[d], v) - 1)),
    decreases d,
{
    if d == 0 {
    } else {
        assert(join_value(keyss[0], v) == 0);
        assert forall|e: int| 0 <= e < d - 1 implies join_value(
            #[trigger] keyss.drop_first()[e],
            v,
        ) == 0 by {
            assert(keyss.drop_first()[e] == keyss[e + 1]);
        }
        assert(keyss.drop_first()[d - 1] == keyss[d]);
        lemma_dest_match_found(keyss.drop_first(), v, d - 1);
    }
}

proof fn lemma_dest_match_none(keyss: Seq<Seq<String>>, v: Seq<char>)
    requires
        forall|e: int| 0 <= e < keyss.len() ==> join_value(#[trigger] keyss[e], v) == 0,
    ensures
        spec_dest_match(keyss, v) is None,
    decreases keyss.len(),
{
    if keyss.len() > 0 {
        assert forall|e: int| 0 <= e < keyss.len() - 1 implies join_value(
            #[trigger] keyss.drop_first()[e],
            v,
        ) == 0 by {
            assert(keyss.drop_first()[e] == keyss[e + 1]);
        }
        lemma_dest_match_none(keyss.drop_first(), v);
    }
}

/// Where the cell `v` of an optional or mandatory variant points: the lane
/// position (`None` lane included) and the destination row.
pub open spec fn spec_tabrow(keyss: Seq<Seq<String>>, optional: bool, v: Seq<char>) -> Option<
    (int, int),
> {
    if optional && v.len() == 0 {
        Some((0int, 0int))
    } else {
        match spec_dest_match(keyss, v) {
            Some(p) => Some(
                (
                    p.0 + (if optional {
                        1int
                    } else {
                        0int
                    }),
                    p.1,
                ),
            ),
            None => None,
        }
    }
}

/// The lane size bound of destination `d` after ingesting `values`: one
/// past the highest row referenced by a cell that matched destination `d`.
pub open spec fn spec_dest_max(
    keyss: Seq<Seq<String>>,
    values: Seq<String>,
    optional: bool,
    d: int,
) -> nat
    decreases values.len(),
{
    if values.len() == 0 {
        0
    } else {
        let prev = spec_dest_max(keyss, values.drop_last(), optional, d);
        let v = values.last()@;
        if optional && v.len() == 0 {
            prev
        } else {
            match spec_dest_match(keyss, v) {
                Some(p) => if p.0 == d && p.1 + 1 > prev {
                    (p.1 + 1) as nat
                } else {
                    prev
                },
                None => prev,
            }
        }
    }
}

proof fn lemma_dest_max_ge(
    keyss: Seq<Seq<String>>,
    values: Seq<String>,
    optional: bool,
    i: int,
    d: int,
    r: int,
)
    requires
        0 <= i < values.len(),
        !(optional && values[i]@.len() == 0),
        spec_dest_match(keyss, values[i]@) == Some((d, r)),
    ensures
        spec_dest_max(keyss, values, optional, d) >= r + 1,
    decreases values.len(),
{
    if i == values.len() - 1 {
    } else {
        assert(values.drop_last()[i] == values[i]);
        lemma_dest_max_ge(keyss, values.drop_last(), optional, i, d, r);
    }
}

/// Key columns equal view by view.
pub open spec fn keyss_congruent(a: Seq<Seq<String>>, b: Seq<Seq<String>>) -> bool {
    &&& a.len() == b.len()
    &&& forall|d: int|
        0 <= d < a.len() ==> (#[trigger] a[d]).len() == b[d].len() && (forall|i: int|
            0 <= i < a[d].len() ==> (#[trigger] a[d][i])@ == b[d][i]@)
}

/// Key columns equal view by view resolve every cell the same way.
pub proof fn lemma_dest_match_congruent(a: Seq<Seq<String>>, b: Seq<Seq<String>>, v: Seq<char>)
    requires
        keyss_congruent(a, b),
    ensures
        spec_dest_match(a, v) == spec_dest_match(b, v),
    decreases a.len(),
{
    if a.len() > 0 {
        crate::coljoin::lemma_join_value_congruent(a[0], b[0], v);
        assert(forall|d: int| 0 <= d < a.drop_first().len() ==> (#[trigger] a.drop_first()[d]) == a[d + 1]);
        assert(forall|d: int| 0 <= d < b.drop_first().len() ==> (#[trigger] b.drop_first()[d]) == b[d + 1]);
        lemma_dest_match_congruent(a.drop_first(), b.drop_first(), v);
    }
}

fn find_dest(dests: &Vec<Dest>, v: &str) -> (r: Option<(usize, usize)>)
    ensures
        match r {
            Some(p) => spec_dest_match(dest_keys(dests@), v@) == Some(
                (p.0 as int, p.1 as int),
            ) && p.0 < dests@.len() && (p.1 as nat) < dests@[p.0 as int].keys@.len(),
            None => spec_dest_match(dest_keys(dests@), v@) is None,
        },
{
    let dn = dests.len();
    let mut d: usize = 0;
    while d < dn
        invariant
            d <= dn,
            dn == dests@.len(),
            forall|e: int| 0 <= e < d ==> join_value(#[trigger] dest_keys(dests@)[e], v@) == 0,
        decreases dn - d,
    {
        match last_position_str(&dests[d].keys, v) {
            Some(row) => {
                proof {
                    crate::coljoin::lemma_join_value_last(dests@[d as int].keys@, v@, row as int);
                    assert(dest_keys(dests@)[d as int] == dests@[d as int].keys@);
                    lemma_dest_match_found(dest_keys(dests@), v@, d as int);
                }
                return Some((d, row));
            },
            None => {
                proof {
                    crate::coljoin::lemma_join_value_none(dests@[d as int].keys@, v@);
                    assert(dest_keys(dests@)[d as int] == dests@[d as int].keys@);
                }
            },
        }
        d += 1;
    }
    proof {
        lemma_dest_match_none(dest_keys(dests@), v@);
    }
    None
}

pub struct ColVariant {
    pub info: ColumnInfo,
    pub values: Vec<usize>,
    pub tables: Vec<Variant>,
}

/// The lanes partition the offset space into contiguous sub-ranges, the
/// first starting at offset 0.
pub open spec fn lanes_contiguous(lanes: Seq<Variant>) -> bool {
    &&& lanes.len() > 0 ==> lanes[0].index == 0
    &&& forall|k: int|
        0 <= k < lanes.len() - 1 ==> (#[trigger] lanes[k + 1].index) == lanes[k].index
            + lanes[k].count
}

/// The sum of the key column lengths, a bound on the total offset space.
pub open spec fn spec_keys_total(dests: Seq<Dest>) -> nat
    decreases dests.len(),
{
    if dests.len() == 0 {
        0
    } else {
        spec_keys_total(dests.drop_last()) + dests.last().keys@.len()
    }
}

/// The sum of the lane size bounds found so far.
pub open spec fn spec_max_total(dests: Seq<Dest>) -> nat
    decreases dests.len(),
{
    if dests.len() == 0 {
        0
    } else {
        spec_max_total(dests.drop_last()) + dests.last().max as nat
    }
}

proof fn lemma_max_total_le(dests: Seq<Dest>)
    requires
        forall|d: int| 0 <= d < dests.len() ==> (#[trigger] dests[d].max) as nat
            <= dests[d].keys@.len(),
    ensures
        spec_max_total(dests) <= spec_keys_total(dests),
    decreases dests.len(),
{
    if dests.len() > 0 {
        assert(forall|d: int|
            0 <= d < dests.drop_last().len() ==> #[trigger] dests.drop_last()[d]
                == dests[d]);
        lemma_max_total_le(dests.drop_last());
    }
}

/// Assign the contiguous lanes: a one-wide `None` lane first when optional,
/// then one lane per destination sized by its bound, in declaration order.
/// Returns the lanes and the total size of the offset space.
pub fn col_offsets(dests: &Vec<Dest>, optional: bool) -> (r: (Vec<Variant>, usize))
    requires
        forall|d: int|
            0 <= d < dests@.len() ==> (#[trigger] dests@[d].max) as nat <= dests@[d].keys@.len(),
        spec_keys_total(dests@) + 1 <= usize::MAX,
    ensures
        ({
            let off = if optional {
                1int
            } else {
                0int
            };
            &&& r.0@.len() == dests@.len() + off
            &&& (optional ==> r.0@[0].index == 0 && r.0@[0].count == 1 && r.0@[0].is_none
                && r.0@[0].reverse@.len() == 0)
            &&& forall|k: int|
                off <= k < r.0@.len() ==> {
                    let lane = #[trigger] r.0@[k];
                    &&& lane.name@ == dests@[k - off].table@
                    &&& lane.count == dests@[k - off].max
                    &&& lane.reverse@ == dests@[k - off].reverse@
                    &&& !lane.is_none
                }
            &&& lanes_contiguous(r.0@)
            &&& r.1 as int == off + spec_max_total(dests@)
            &&& (r.0@.len() > 0 ==> r.1 as int == r.0@.last().index + r.0@.last().count)
        }),
{
    let ghost off: int = if optional {
        1int
    } else {
        0int
    };
    let mut tables: Vec<Variant> = Vec::new();
    let mut index: usize = 0;
    if optional {
        tables.push(
            Variant {
                name: {
                    let mut s = String::new();
                    s.append("NONE");
                    s
                },
                index: 0,
                count: 1,
                reverse: String::new(),
                is_none: true,
            },
        );
        index = 1;
    }
    let dn = dests.len();
    let mut d: usize = 0;
    while d < dn
        invariant
            d <= dn,
            dn == dests@.len(),
            forall|e: int|
                0 <= e < dests@.len() ==> (#[trigger] dests@[e].max) as nat
                    <= dests@[e].keys@.len(),
            spec_keys_total(dests@) + 1 <= usize::MAX,
            off == if optional {
                1int
            } else {
                0int
            },
            tables@.len() == d + off,
            optional ==> tables@[0].index == 0 && tables@[0].count == 1 && tables@[0].is_none
                && tables@[0].reverse@.len() == 0,
            forall|k: int|
                off <= k < tables@.len() ==> {
                    let lane = #[trigger] tables@[k];
                    &&& lane.name@ == dests@[k - off].table@
                    &&& lane.count == dests@[k - off].max
                    &&& lane.reverse@ == dests@[k - off].reverse@
                    &&& !lane.is_none
                },
            lanes_contiguous(tables@),
            index as int == off + spec_max_total(dests@.take(d as int)),
            tables@.len() > 0 ==> index as int == tables@.last().index + tables@.last().count,
        decreases dn - d,
    {
        proof {
            assert(dests@.take(d + 1).drop_last() =~= dests@.take(d as int));
            assert(dests@.take(d + 1).last() == dests@[d as int]);
            assert(forall|e: int|
                0 <= e < dests@.take(d + 1).len() ==> #[trigger] dests@.take(d + 1)[e]
                    == dests@[e]);
            lemma_max_total_le(dests@.take(d + 1));
            assert(spec_keys_total(dests@.take(d + 1)) <= spec_keys_total(dests@)) by {
                lemma_keys_total_prefix(dests@, d + 1);
            }
        }
        let dest = &dests[d];
        tables.push(
            Variant {
                name: dest.table.clone(),
                index,
                count: dest.max,
                reverse: dest.reverse.clone(),
                is_none: false,
            },
        );
        index = index + dest.max;
        d += 1;
    }
    proof {
        assert(dests@.take(dn as int) =~= dests@);
        reveal_strlit("NONE");
    }
    (tables, index)
}

proof fn lemma_keys_total_prefix(dests: Seq<Dest>, n: int)
    requires
        0 <= n <= dests.len(),
    ensures
        spec_keys_total(dests.take(n)) <= spec_keys_total(dests),
    decreases dests.len() - n,
{
    if n < dests.len() {
        assert(dests.take(n + 1).drop_last() =~= dests.take(n));
        lemma_keys_total_prefix(dests, n + 1);
        assert(dests.take(dests.len() as int) =~= dests);
    } else {
        assert(dests.take(n) =~= dests);
    }
}

proof fn lemma_keys_total_congruent(a: Seq<Dest>, b: Seq<Dest>)
    requires
        a.len() == b.len(),
        forall|d: int| 0 <= d < a.len() ==> (#[trigger] a[d].keys) == b[d].keys,
    ensures
        spec_keys_total(a) == spec_keys_total(b),
    decreases a.len(),
{
    if a.len() > 0 {
        assert(forall|d: int|
            0 <= d < a.drop_last().len() ==> (#[trigger] a.drop_last()[d]) == a[d]);
        assert(forall|d: int|
            0 <= d < b.drop_last().len() ==> (#[trigger] b.drop_last()[d]) == b[d]);
        lemma_keys_total_congruent(a.drop_last(), b.drop_last());
    }
}

proof fn lemma_keys_le_total(dests: Seq<Dest>, d: int)
    requires
        0 <= d < dests.len(),
    ensures
        dests[d].keys@.len() <= spec_keys_total(dests),
    decreases dests.len(),
{
    if d == dests.len() - 1 {
        lemma_keys_total_nonneg(dests.drop_last());
    } else {
        assert(dests.drop_last()[d] == dests[d]);
        lemma_keys_le_total(dests.drop_last(), d);
    }
}

proof fn lemma_keys_total_nonneg(dests: Seq<Dest>)
    ensures
        spec_keys_total(dests) >= 0,
{
}

/// Every lane ends at or before the total size of the offset space.
pub proof fn lemma_lane_end_le_total(lanes: Seq<Variant>, total: int, k: int)
    requires
        lanes_contiguous(lanes),
        lanes.len() > 0,
        total == lanes.last().index + lanes.last().count,
        0 <= k < lanes.len(),
    ensures
        lanes[k].index + lanes[k].count <= total,
    decreases lanes.len() - k,
{
    if k < lanes.len() - 1 {
        assert(lanes[k + 1].index == lanes[k].index + lanes[k].count);
        lemma_lane_end_le_total(lanes, total, k + 1);
    }
}

/// Flatten the per-row lane and destination row into the stored offsets.
pub fn row_values(tabrow: &Vec<(usize, usize)>, tables: &Vec<Variant>) -> (r: Vec<usize>)
    requires
        forall|i: int|
            0 <= i < tabrow@.len() ==> (#[trigger] tabrow@[i].0 as nat) < tables@.len() && (
            tabrow@[i].1 as nat) < tables@[tabrow@[i].0 as int].count,
        forall|k: int|
            0 <= k < tables@.len() ==> (#[trigger] tables@[k].index) + tables@[k].count
                <= usize::MAX,
    ensures
        r@.len() == tabrow@.len(),
        forall|i: int|
            0 <= i < tabrow@.len() ==> (#[trigger] r@[i]) as int
                == tables@[tabrow@[i].0 as int].index + tabrow@[i].1,
{
    let n = tabrow.len();
    let mut r: Vec<usize> = Vec::new();
    let mut i: usize = 0;
    while i < n
        invariant
            i <= n,
            n == tabrow@.len(),
            r@.len() == i,
            forall|k: int|
                0 <= k < tabrow@.len() ==> (#[trigger] tabrow@[k].0 as nat) < tables@.len() && (
                tabrow@[k].1 as nat) < tables@[tabrow@[k].0 as int].count,
            forall|k: int|
                0 <= k < tables@.len() ==> (#[trigger] tables@[k].index) + tables@[k].count
                    <= usize::MAX,
            forall|k: int|
                0 <= k < i ==> (#[trigger] r@[k]) as int == tables@[tabrow@[k].0 as int].index
                    + tabrow@[k].1,
        decreases n - i,
    {
        let (t, row) = tabrow[i];
        r.push(tables[t].index + row);
        i += 1;
    }
    r
}

/// Whether some destination asks for a reverse accessor.
pub open spec fn any_reverse(dests: Seq<Dest>) -> bool {
    exists|d: int| 0 <= d < dests.len() && (#[trigger] dests[d].reverse@).len() > 0
}

impl ColVariant {
    /// Resolve every cell to a destination and row, size the lanes by the
    /// highest row each destination is referenced at, and store one flat
    /// offset per row.
    #[verifier::rlimit(60)]
    #[verifier::spinoff_prover]
    pub fn parse(config: ColumnConfig, values: &Vec<String>, dests: &mut Vec<Dest>) -> (r:
        aperror::Result<ColVariant>)
        requires
            forall|d: int| 0 <= d < old(dests)@.len() ==> (#[trigger] old(dests)@[d].max) == 0,
            spec_keys_total(old(dests)@) + 1 <= usize::MAX,
            spec_keys_total(old(dests)@) + 1 <= 0x7FFF_FFFF_FFFF_FFFF,
        ensures
            final(dests)@.len() == old(dests)@.len(),
            forall|d: int|
                0 <= d < old(dests)@.len() ==> {
                    &&& (#[trigger] final(dests)@[d].keys) == old(dests)@[d].keys
                    &&& final(dests)@[d].table == old(dests)@[d].table
                    &&& final(dests)@[d].reverse == old(dests)@[d].reverse
                },
            r is Ok <==> (forall|i: int|
                0 <= i < values@.len() ==> spec_tabrow(
                    dest_keys(old(dests)@),
                    config.optional,
                    #[trigger] values@[i]@,
                ) is Some),
            r matches Ok(c) ==> {
                let keyss = dest_keys(old(dests)@);
                let off = if config.optional {
                    1int
                } else {
                    0int
                };
                &&& forall|d: int|
                    0 <= d < old(dests)@.len() ==> (#[trigger] final(dests)@[d].max) as nat
                        == spec_dest_max(keyss, values@, config.optional, d)
                &&& c.tables@.len() == old(dests)@.len() + off
                &&& (config.optional ==> c.tables@[0].index == 0 && c.tables@[0].count == 1
                    && c.tables@[0].is_none && c.tables@[0].reverse@.len() == 0)
                &&& forall|k: int|
                    off <= k < c.tables@.len() ==> {
                        let lane = #[trigger] c.tables@[k];
                        &&& lane.name@ == old(dests)@[k - off].table@
                        &&& lane.count as nat == spec_dest_max(
                            keyss,
                            values@,
                            config.optional,
                            k - off,
                        )
                        &&& lane.reverse@ == old(dests)@[k - off].reverse@
                        &&& !lane.is_none
                    }
                &&& lanes_contiguous(c.tables@)
                &&& c.values@.len() == values@.len()
                &&& forall|i: int|
                    0 <= i < values@.len() ==> (spec_tabrow(
                        keyss,
                        config.optional,
                        #[trigger] values@[i]@,
                    ) matches Some(p) && c.values@[i] as int == c.tables@[p.0].index + p.1 && p.1
                        < c.tables@[p.0].count)
                &&& c.info.config.name == config.name
                &&& c.info.config.optional == config.optional
                &&& c.info.config.iterable == any_reverse(old(dests)@)
                &&& c.info.len == values@.len()
                &&& c.info.interface_type is Variant
                &&& c.info.table_type == spec_int_type_for_range(
                    0,
                    off + spec_max_total(final(dests)@),
                )
            },
            r matches Err(e) ==> exists|i: int|
                0 <= i < values@.len() && spec_tabrow(
                    dest_keys(old(dests)@),
                    config.optional,
                    #[trigger] values@[i]@,
                ) is None && (forall|q: int|
                    0 <= q < i ==> spec_tabrow(
                        dest_keys(old(dests)@),
                        config.optional,
                        #[trigger] values@[q]@,
                    ) is Some) && e@ == "column "@ + config.name@ + " : dest not found for "@
                    + values@[i]@ + " at row "@ + dec_rep(i as nat),
    {
        let ghost dests0 = dests@;
        let ghost keyss = dest_keys(dests0);
        let optional = config.optional;
        let off: usize = if optional {
            1
        } else {
            0
        };
        let n = values.len();
        let dn = dests.len();
        let mut tabrow: Vec<(usize, usize)> = Vec::new();
        let mut i: usize = 0;
        while i < n
            invariant
                i <= n,
                n == values@.len(),
                dn == dests0.len(),
                optional == config.optional,
                off as int == (if optional {
                    1int
                } else {
                    0int
                }),
                dests@.len() == dests0.len(),
                dests0 == old(dests)@,
                keyss == dest_keys(dests0),
                forall|d: int| 0 <= d < dests0.len() ==> (#[trigger] dests0[d].max) == 0,
                spec_keys_total(dests0) + 1 <= usize::MAX,
                spec_keys_total(dests0) + 1 <= 0x7FFF_FFFF_FFFF_FFFF,
                forall|d: int|
                    0 <= d < dests0.len() ==> (#[trigger] dests@[d].keys) == dests0[d].keys
                        && dests@[d].table == dests0[d].table && dests@[d].reverse
                        == dests0[d].reverse,
                forall|d: int|
                    0 <= d < dests0.len() ==> (#[trigger] dests@[d].max) as nat == spec_dest_max(
                        keyss,
                        values@.take(i as int),
                        optional,
                        d,
                    ),
                forall|d: int|
                    0 <= d < dests0.len() ==> (#[trigger] dests@[d].max) as nat
                        <= dests@[d].keys@.len(),
                tabrow@.len() == i,
                forall|k: int|
                    0 <= k < i ==> spec_tabrow(keyss, optional, values@[k]@) == Some(
                        ((#[trigger] tabrow@[k]).0 as int, tabrow@[k].1 as int),
                    ),
                forall|k: int| 0 <= k < i ==> ((#[trigger] tabrow@[k]).0 as int) < dests0.len() + off,
                forall|k: int|
                    0 <= k < i && optional && (#[trigger] tabrow@[k]).0 == 0usize ==> tabrow@[k].1
                        == 0usize,
            decreases n - i,
        {
            proof {
                assert(dest_keys(dests@) =~= keyss);
                assert(values@.take(i + 1).drop_last() =~= values@.take(i as int));
                assert(values@.take(i + 1).last() == values@[i as int]);
            }
            let empty = values[i].as_str().is_empty();
            if optional && empty {
                tabrow.push((0, 0));
            } else {
                match find_dest(dests, values[i].as_str()) {
                    Some((d, row)) => {
                        proof {
                            lemma_keys_total_congruent(dests@, dests0);
                            lemma_keys_le_total(dests@, d as int);
                        }
                        let ghost dpre = dests@;
                        let cur = dests[d].max;
                        if row + 1 > cur {
                            dests[d].max = row + 1;
                        }
                        proof {
                            assert forall|e: int|
                                0 <= e < dests0.len() implies (#[trigger] dests@[e].keys)
                                == dpre[e].keys && dests@[e].table == dpre[e].table
                                && dests@[e].reverse == dpre[e].reverse by {
                                if e != d as int {
                                    assert(dests@[e] == dpre[e]);
                                }
                            }
                        }
                        tabrow.push((d + off, row));
                        proof {
                            assert(dest_keys(dests@) =~= keyss);
                            assert forall|e: int|
                                0 <= e < dests0.len() implies (#[trigger] dests@[e].max) as nat
                                == spec_dest_max(keyss, values@.take(i + 1), optional, e) by {
                                assert(dests@[e].keys == dests0[e].keys);
                            }
                        }
                    },
                    None => {
                        proof {
                            assert forall|q: int|
                                0 <= q < i implies spec_tabrow(
                                keyss,
                                optional,
                                #[trigger] values@[q]@,
                            ) is Some by {
                                assert(spec_tabrow(keyss, optional, values@[q]@) == Some(
                                    ((tabrow@[q]).0 as int, tabrow@[q].1 as int),
                                ));
                            }
                        }
                        let mut m = String::new();
                        m.append("column ");
                        m.append(config.name.as_str());
                        m.append(" : dest not found for ");
                        m.append(values[i].as_str());
                        m.append(" at row ");
                        let rownum = usize_to_string(i);
                        m.append(rownum.as_str());
                        proof {
                            assert(m@ =~= "column "@ + config.name@ + " : dest not found for "@
                                + values@[i as int]@ + " at row "@ + dec_rep(i as nat));
                        }
                        return Err(Error::new(m.as_str()));
                    },
                }
            }
            i += 1;
        }
        proof {
            assert(values@.take(n as int) =~= values@);
            assert(dest_keys(dests@) =~= keyss);
            lemma_keys_total_congruent(dests@, dests0);
            lemma_max_total_le(dests@);
            assert forall|i: int|
                0 <= i < values@.len() implies spec_tabrow(
                keyss,
                optional,
                #[trigger] values@[i]@,
            ) is Some by {
                assert(spec_tabrow(keyss, optional, values@[i]@) == Some(
                    ((tabrow@[i]).0 as int, tabrow@[i].1 as int),
                ));
            }
        }
        let (tables, total) = col_offsets(dests, optional);
        proof {
            assert forall|k: int|
                0 <= k < tabrow@.len() implies (#[trigger] tabrow@[k].0 as nat) < tables@.len() && (
            tabrow@[k].1 as nat) < tables@[tabrow@[k].0 as int].count by {
                let t = tabrow@[k].0 as int;
                let row = tabrow@[k].1 as int;
                if optional && t == 0 {
                    assert(row == 0);
                } else {
                    let offg: int = if optional {
                        1int
                    } else {
                        0int
                    };
                    let d = t - offg;
                    assert(spec_tabrow(keyss, optional, values@[k]@) == Some((t, row)));
                    assert(spec_dest_match(keyss, values@[k]@) == Some((d, row)));
                    lemma_dest_max_ge(keyss, values@, optional, k, d, row);
                    assert(tables@[t].count == dests@[d].max);
                    assert(tables@[t].count as nat == spec_dest_max(keyss, values@, optional, d));
                }
            }
            assert forall|k: int|
                0 <= k < tables@.len() implies (#[trigger] tables@[k].index) + tables@[k].count
                <= usize::MAX by {
                lemma_lane_end_le_total(tables@, total as int, k);
            }
        }
        let stored = row_values(&tabrow, &tables);
        proof {
            assert forall|e: int| 0 <= e < dests0.len() implies (#[trigger] dests@[e].reverse)
                == dests0[e].reverse by {
                assert(dests@[e].keys == dests0[e].keys);
            }
        }
        let mut iterable = false;
        let mut d: usize = 0;
        while d < dn
            invariant
                d <= dn,
                dn == dests@.len(),
                dests@.len() == dests0.len(),
                forall|e: int|
                    0 <= e < dests0.len() ==> (#[trigger] dests@[e].reverse) == dests0[e].reverse,
                iterable == exists|e: int|
                    0 <= e < d && (#[trigger] dests0[e].reverse@).len() > 0,
            decreases dn - d,
        {
            if !dests[d].reverse.as_str().is_empty() {
                proof {
                    assert((dests0[d as int].reverse@).len() > 0);
                }
                iterable = true;
            }
            d += 1;
        }
        let ColumnConfig { name, help, iterable: _, iter_help, optional: opt } = config;
        Ok(
            ColVariant {
                info: ColumnInfo {
                    config: ColumnConfig { name, help, iterable, iter_help, optional: opt },
                    len: n,
                    interface_type: BaseType::Variant,
                    table_type: int_type_for_range(0, total as i64),
                },
                values: stored,
                tables,
            },
        )
    }

    /// Stable index of the rows holding a real destination: for an optional
    /// variant the rows storing the `None` offset 0 are left out.
    pub fn indexes(&self) -> (r: Vec<usize>)
        ensures
            crate::index::sorted_index_usize(self.values@, r@),
            r@.no_duplicates(),
            forall|k: int| 0 <= k < r@.len() ==> (#[trigger] r@[k] as nat) < self.values@.len(),
            self.info.config.optional ==> forall|row: usize|
                (row as nat) < self.values@.len() && self.values@[row as int] != 0
                    ==> #[trigger] r@.contains(row),
            self.info.config.optional ==> forall|k: int|
                0 <= k < r@.len() ==> self.values@[(#[trigger] r@[k]) as int] != 0,
            !self.info.config.optional ==> crate::index::is_permutation(self.values@.len(), r@),
    {
        if self.info.config.optional {
            crate::index::filter_index(&self.values, 0)
        } else {
            crate::index::index(&self.values)
        }
    }

    /// Variant cells carry no further per-column constraints.
    pub fn lint(&self, linter: &mut Linter)
        ensures
            final(linter)@ == old(linter)@,
    {
    }
}

/// Decode a stored offset: the first lane whose range contains it, and the
/// destination row within that lane.
pub fn decode(lanes: &Vec<Variant>, offset: usize) -> (r: Option<(usize, usize)>)
    ensures
        r matches Some(p) ==> {
            &&& (p.0 as nat) < lanes@.len()
            &&& lanes@[p.0 as int].index <= offset < lanes@[p.0 as int].index + lanes@[
                p.0 as int].count
            &&& p.1 == offset - lanes@[p.0 as int].index
            &&& forall|k: int|
                0 <= k < p.0 ==> !((#[trigger] lanes@[k].index) <= offset < lanes@[k].index
                    + lanes@[k].count)
        },
        r is None ==> forall|k: int|
            0 <= k < lanes@.len() ==> !((#[trigger] lanes@[k].index) <= offset < lanes@[k].index
                + lanes@[k].count),
{
    let n = lanes.len();
    let mut k: usize = 0;
    while k < n
        invariant
            k <= n,
            n == lanes@.len(),
            forall|e: int|
                0 <= e < k ==> !((#[trigger] lanes@[e].index) <= offset < lanes@[e].index
                    + lanes@[e].count),
        decreases n - k,
    {
        let lane = &lanes[k];
        if lane.index <= offset && offset - lane.index < lane.count {
            return Some((k, offset - lane.index));
        }
        k += 1;
    }
    None
}

/// Encoding a destination row into its lane and decoding the stored offset
/// are inverse: the offset `lanes[l].index + row` falls in lane `l` and in
/// no earlier lane.
pub proof fn lemma_variant_round_trip(lanes: Seq<Variant>, l: int, row: int)
    requires
        lanes_contiguous(lanes),
        0 <= l < lanes.len(),
        0 <= row < lanes[l].count,
    ensures
        lanes[l].index <= lanes[l].index + row < lanes[l].index + lanes[l].count,
        forall|k: int|
            0 <= k < l ==> !((#[trigger] lanes[k].index) <= lanes[l].index + row < lanes[k].index
                + lanes[k].count),
    decreases l,
{
    assert forall|k: int|
        0 <= k < l implies !((#[trigger] lanes[k].index) <= lanes[l].index + row < lanes[k].index
            + lanes[k].count) by {
        lemma_lane_base_monotone(lanes, k + 1, l);
        assert(lanes[k + 1].index == lanes[k].index + lanes[k].count);
    }
}

proof fn lemma_lane_base_monotone(lanes: Seq<Variant>, a: int, b: int)
    requires
        lanes_contiguous(lanes),
        0 <= a <= b < lanes.len(),
    ensures
        lanes[a].index <= lanes[b].index,
    decreases b - a,
{
    if a < b {
        assert(lanes[a + 1].index == lanes[a].index + lanes[a].count);
        lemma_lane_base_monotone(lanes, a + 1, b);
    }
}

} // verus!
