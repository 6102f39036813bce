//! String data type column.

use vstd::prelude::*;
use crate::aperror;
use crate::basetype::BaseType;
use crate::lint::Linter;
use crate::table::{ColumnConfig, ColumnInfo};

verus! {

pub struct ColStr {
    pub info: ColumnInfo,
    pub values: Vec<String>,
}

impl ColStr {
    pub fn parse(config: ColumnConfig, values: &Vec<String>) -> (r: aperror::Result<ColStr>)
        ensures
            r is Ok,
            r matches Ok(c) ==> {
                &&& c.values@.len() == values@.len()
                &&& forall|i: int| 0 <= i < values@.len() ==> #[trigger] c.values@[i]@ == values@[i]@
                &&& c.info.config == config
                &&& c.info.len == values@.len()
                &&& c.info.interface_type is Str
                &&& c.info.table_type is Str
            },
    {
        let n = values.len();
        let mut copy: Vec<String> = Vec::new();
        let mut i: usize = 0;
        while i < n
            invariant
                i <= n,
                n == values@.len(),
                copy@.len() == i,
                forall|k: int| 0 <= k < i ==> #[trigger] copy@[k]@ == values@[k]@,
            decreases n - i,
        {
            copy.push(values[i].clone());
            i += 1;
        }
        Ok(
            ColStr {
                info: ColumnInfo {
                    config,
                    len: n,
                    interface_type: BaseType::Str,
                    table_type: BaseType::Str,
                },
                values: copy,
            },
        )
    }

    /// Stable index of the rows in character-wise string order.
    pub fn indexes(&self) -> (r: Vec<usize>)
        ensures
            crate::index::is_permutation(self.values@.len(), r@),
            crate::index::sorted_index_str(self.values@, r@),
    {
        crate::index::index_str(&self.values)
    }

    /// String cells carry no further constraints.
    pub fn lint(&self, linter: &mut Linter)
        ensures
            final(linter)@ == old(linter)@,
    {
    }
}

} // verus!
