//! Boolean data type column.

use vstd::prelude::*;
use crate::aperror;
use crate::aperror::Error;
use crate::basetype::BaseType;
use crate::caseconv::{lower_of, lowercase};
use crate::lint::Linter;
use crate::strutil::{dec_rep, str_eq, usize_to_string};
use crate::table::{ColumnConfig, ColumnInfo};

verus! {

pub struct ColBool {
    pub info: ColumnInfo,
    pub values: Vec<bool>,
}

/// The boolean denoted by a lowercased cell, if any.
pub open spec fn spec_bool_value(lower: Seq<char>) -> Option<bool> {
    if lower == "1"@ || lower == "true"@ || lower == "yes"@ {
        Some(true)
    } else if lower == "0"@ || lower == "false"@ || lower == "no"@ {
        Some(false)
    } else {
        None
    }
}

/// Parse a vector of strings into booleans, reporting the first failing row.
/// A cell is read case-insensitively as `1`/`true`/`yes` or `0`/`false`/`no`.
pub fn parse_vec_bool(strvals: &Vec<String>) -> (r: aperror::Result<Vec<bool>>)
    ensures
        r is Ok <==> (forall|i: int|
            0 <= i < strvals@.len() ==> spec_bool_value(lower_of(#[trigger] strvals@[i]@)) is Some),
        r matches Ok(vals) ==> vals@.len() == strvals@.len() && forall|i: int|
            0 <= i < strvals@.len() ==> #[trigger] vals@[i] == spec_bool_value(
                lower_of(strvals@[i]@),
            )->0,
        r matches Err(e) ==> exists|i: int|
            0 <= i < strvals@.len() && spec_bool_value(lower_of(#[trigger] strvals@[i]@)) is None
                && (forall|j: int|
                0 <= j < i ==> spec_bool_value(lower_of(#[trigger] strvals@[j]@)) is Some) && e@
                == "invalid bool value "@ + lower_of(strvals@[i]@) + " at row "@ + dec_rep(
                i as nat,
            ),
{
    let n = strvals.len();
    let mut vals: Vec<bool> = Vec::new();
    let mut i: usize = 0;
    while i < n
        invariant
            i <= n,
            n == strvals@.len(),
            vals@.len() == i,
            forall|j: int|
                0 <= j < i ==> spec_bool_value(lower_of(#[trigger] strvals@[j]@)) is Some,
            forall|j: int|
                0 <= j < i ==> #[trigger] vals@[j] == spec_bool_value(lower_of(strvals@[j]@))->0,
        decreases n - i,
    {
        let low = lowercase(strvals[i].as_str());
        if str_eq(low.as_str(), "1") || str_eq(low.as_str(), "true") || str_eq(
            low.as_str(),
            "yes",
        ) {
            vals.push(true);
        } else if str_eq(low.as_str(), "0") || str_eq(low.as_str(), "false") || str_eq(
            low.as_str(),
            "no",
        ) {
            vals.push(false);
        } else {
            let mut m = String::new();
            m.append("invalid bool value ");
            m.append(low.as_str());
            m.append(" at row ");
            let rownum = usize_to_string(i);
            m.append(rownum.as_str());
            proof {
                assert(m@ =~= "invalid bool value "@ + lower_of(strvals@[i as int]@) + " at row "@
                    + dec_rep(i as nat));
            }
            return Err(Error::new(m.as_str()));
        }
        i += 1;
    }
    Ok(vals)
}

impl ColBool {
    pub fn parse(config: ColumnConfig, strvals: &Vec<String>) -> (r: aperror::Result<ColBool>)
        ensures
            r is Ok <==> (forall|i: int|
                0 <= i < strvals@.len() ==> spec_bool_value(
                    lower_of(#[trigger] strvals@[i]@),
                ) is Some),
            r matches Ok(c) ==> {
                &&& c.values@.len() == strvals@.len()
                &&& forall|i: int|
                    0 <= i < strvals@.len() ==> #[trigger] c.values@[i] == spec_bool_value(
                        lower_of(strvals@[i]@),
                    )->0
                &&& c.info.config == config
                &&& c.info.len == strvals@.len()
                &&& c.info.interface_type is Bool
                &&& c.info.table_type is Bool
            },
    {
        let values = parse_vec_bool(strvals)?;
        Ok(
            ColBool {
                info: ColumnInfo {
                    config,
                    len: values.len(),
                    interface_type: BaseType::Bool,
                    table_type: BaseType::Bool,
                },
                values,
            },
        )
    }

    /// Stable index of the rows, `false` before `true`.
    pub fn indexes(&self) -> (r: Vec<usize>)
        ensures
            crate::index::is_permutation(self.values@.len(), r@),
            forall|i: int, j: int|
                0 <= i < j < r@.len() ==> (!self.values@[(#[trigger] r@[i]) as int]
                    && self.values@[(#[trigger] r@[j]) as int]) || (self.values@[r@[i] as int]
                    == self.values@[r@[j] as int] && r@[i] < r@[j]),
    {
        let n = self.values.len();
        let mut keys: Vec<usize> = Vec::new();
        let mut i: usize = 0;
        while i < n
            invariant
                i <= n,
                n == self.values@.len(),
                keys@.len() == i,
                forall|k: int|
                    0 <= k < i ==> #[trigger] keys@[k] == (if self.values@[k] {
                        1usize
                    } else {
                        0usize
                    }),
            decreases n - i,
        {
            if self.values[i] {
                keys.push(1);
            } else {
                keys.push(0);
            }
            i += 1;
        }
        let r = crate::index::index(&keys);
        r
    }

    /// Boolean cells carry no further constraints.
    pub fn lint(&self, linter: &mut Linter)
        ensures
            final(linter)@ == old(linter)@,
    {
    }
}

} // verus!
