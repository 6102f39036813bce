//! Integer data type column: typed values, observed bounds, and the lint
//! check that the bounds fit the declared interface type.

use vstd::prelude::*;
use crate::aperror;
use crate::basetype::{BaseType, spec_int_type_for_range, spec_max, spec_min, int_type_for_range};
use crate::lint::{Linter, extends};
use crate::strutil::{is_i64_string, int_value, i64_to_string};
use crate::table::{ColumnConfig, ColumnInfo, parse_vec};

verus! {

pub struct ColInt {
    pub info: ColumnInfo,
    pub values: Vec<i64>,
    /// minimal value
    pub min: i64,
    /// maximal value
    pub max: i64,
}

/// The smallest value of `s`, or 0 when `s` is empty.
pub open spec fn spec_vmin(s: Seq<i64>) -> int
    decreases s.len(),
{
    if s.len() == 0 {
        0
    } else if s.len() == 1 {
        s[0] as int
    } else {
        let m = spec_vmin(s.drop_last());
        if (s.last() as int) < m {
            s.last() as int
        } else {
            m
        }
    }
}

/// The largest value of `s`, or 0 when `s` is empty.
pub open spec fn spec_vmax(s: Seq<i64>) -> int
    decreases s.len(),
{
    if s.len() == 0 {
        0
    } else if s.len() == 1 {
        s[0] as int
    } else {
        let m = spec_vmax(s.drop_last());
        if (s.last() as int) > m {
            s.last() as int
        } else {
            m
        }
    }
}

fn vec_min_max(values: &Vec<i64>) -> (r: (i64, i64))
    ensures
        r.0 as int == spec_vmin(values@),
        r.1 as int == spec_vmax(values@),
        r.0 <= r.1 || values@.len() == 0,
{
    let n = values.len();
    if n == 0 {
        return (0, 0);
    }
    let mut mn = values[0];
    let mut mx = values[0];
    let mut i: usize = 1;
    while i < n
        invariant
            1 <= i <= n,
            n == values@.len(),
            mn as int == spec_vmin(values@.take(i as int)),
            mx as int == spec_vmax(values@.take(i as int)),
            mn <= mx,
        decreases n - i,
    {
        proof {
            assert(values@.take(i + 1).drop_last() =~= values@.take(i as int));
            assert(values@.take(i + 1).last() == values@[i as int]);
        }
        let v = values[i];
        if v < mn {
            mn = v;
        }
        if v > mx {
            mx = v;
        }
        i += 1;
    }
    proof {
        assert(values@.take(n as int) =~= values@);
    }
    (mn, mx)
}

fn fits_max(v: i64, t: &BaseType) -> (r: bool)
    ensures
        r == (v as int <= spec_max(t)),
{
    match t {
        BaseType::I8 => v <= 0x7F,
        BaseType::I16 => v <= 0x7FFF,
        BaseType::I32 => v <= 0x7FFF_FFFF,
        BaseType::I64 => true,
        BaseType::U8 => v <= 0xFF,
        BaseType::U16 => v <= 0xFFFF,
        BaseType::U32 => v <= 0xFFFF_FFFF,
        BaseType::U64 => true,
        _ => v <= 0,
    }
}

fn fits_min(v: i64, t: &BaseType) -> (r: bool)
    ensures
        r == (v as int >= spec_min(t)),
{
    match t {
        BaseType::I8 => v >= -0x80,
        BaseType::I16 => v >= -0x8000,
        BaseType::I32 => v >= -0x8000_0000,
        BaseType::I64 => true,
        _ => v >= 0,
    }
}

impl ColInt {
    pub fn parse(config: ColumnConfig, strvals: &Vec<String>, interface_type: BaseType) -> (r:
        aperror::Result<ColInt>)
        ensures
            r is Ok <==> (forall|i: int|
                0 <= i < strvals@.len() ==> is_i64_string(#[trigger] strvals@[i]@)),
            r matches Ok(c) ==> {
                &&& c.values@.len() == strvals@.len()
                &&& forall|i: int|
                    0 <= i < strvals@.len() ==> #[trigger] c.values@[i] as int == int_value(
                        strvals@[i]@,
                    )
                &&& c.min as int == spec_vmin(c.values@)
                &&& c.max as int == spec_vmax(c.values@)
                &&& c.info.config == config
                &&& c.info.len == strvals@.len()
                &&& c.info.interface_type == interface_type
                &&& c.info.table_type == spec_int_type_for_range(
                    spec_vmin(c.values@),
                    spec_vmax(c.values@),
                )
            },
    {
        let values = parse_vec(strvals)?;
        let (min, max) = vec_min_max(&values);
        Ok(
            ColInt {
                info: ColumnInfo {
                    config,
                    len: values.len(),
                    interface_type,
                    table_type: int_type_for_range(min, max),
                },
                values,
                min,
                max,
            },
        )
    }

    /// Stable index of the rows in value order.
    pub fn indexes(&self) -> (r: Vec<usize>)
        ensures
            crate::index::is_permutation(self.values@.len(), r@),
            crate::index::sorted_index_i64(self.values@, r@),
    {
        crate::index::index_i64(&self.values)
    }

    /// Record a failure when an observed value falls outside the declared
    /// interface type's bounds.
    pub fn lint(&self, linter: &mut Linter)
        ensures
            extends(
                final(linter)@,
                old(linter)@,
                ((if self.max as int > spec_max(&self.info.interface_type) {
                    1nat
                } else {
                    0nat
                }) + (if (self.min as int) < spec_min(&self.info.interface_type) {
                    1nat
                } else {
                    0nat
                })) as nat,
            ),
    {
        let ghost l0 = linter@;
        let over_ok = fits_max(self.max, &self.info.interface_type);
        let mut msg = String::new();
        msg.append("value overflow ");
        let maxtext = i64_to_string(self.max);
        msg.append(maxtext.as_str());
        msg.append(" for interface type");
        linter.err(over_ok, msg.as_str());
        let under_ok = fits_min(self.min, &self.info.interface_type);
        let mut msg2 = String::new();
        msg2.append("value underflow ");
        let mintext = i64_to_string(self.min);
        msg2.append(mintext.as_str());
        msg2.append(" for interface type");
        linter.err(under_ok, msg2.as_str());
        proof {
            let l2 = linter@;
            assert(l2.failures.take(l0.failures.len() as int) =~= l0.failures);
        }
    }
}

} // verus!
