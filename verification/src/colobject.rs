//! Object data type column: a cell holds an expression for an external
//! value, rendered through a one-placeholder template.

use vstd::prelude::*;
use crate::basetype::BaseType;
use crate::lint::{Linter, extends};
use crate::strutil::{seq_contains_str, contains_str};
use crate::table::{ColumnConfig, ColumnInfo};

verus! {

pub struct ColObject {
    pub info: ColumnInfo,
    pub values: Vec<String>,
    pub template: String,
    pub import: String,
}

/// The number of `{}` placeholders in `s`.
pub open spec fn placeholder_count(s: Seq<char>) -> nat
    decreases s.len(),
{
    if s.len() < 2 {
        0
    } else {
        placeholder_count(s.drop_last()) + (if s[s.len() - 2] == '{' && s.last() == '}' {
            1nat
        } else {
            0nat
        })
    }
}

fn count_placeholders(s: &str) -> (r: usize)
    ensures
        r == placeholder_count(s@),
{
    let n = s.unicode_len();
    if n < 2 {
        return 0;
    }
    let mut count: usize = 0;
    let mut i: usize = 1;
    while i < n
        invariant
            1 <= i <= n,
            n == s@.len(),
            count <= i,
            count == placeholder_count(s@.take(i as int)),
        decreases n - i,
    {
        proof {
            assert(s@.take(i + 1).drop_last() =~= s@.take(i as int));
            assert(s@.take(i + 1).last() == s@[i as int]);
            assert(s@.take(i + 1)[i - 1] == s@[i - 1]);
        }
        if s.get_char(i - 1) == '{' && s.get_char(i) == '}' {
            count += 1;
        }
        i += 1;
    }
    proof {
        assert(s@.take(n as int) =~= s@);
    }
    count
}

impl ColObject {
    pub fn new(
        config: ColumnConfig,
        values: Vec<String>,
        objtype: &str,
        template: &str,
        import: &str,
    ) -> (r: ColObject)
        ensures
            r.values == values,
            r.template@ == template@,
            r.import@ == import@,
            r.info.config == config,
            r.info.len == values@.len(),
            r.info.interface_type matches BaseType::Object { objtype: t } && t@ == objtype@,
            r.info.table_type matches BaseType::Object { objtype: t } && t@ == objtype@,
    {
        let len = values.len();
        ColObject {
            info: ColumnInfo {
                config,
                len,
                interface_type: BaseType::Object { objtype: objtype.to_owned() },
                table_type: BaseType::Object { objtype: objtype.to_owned() },
            },
            values,
            template: template.to_owned(),
            import: import.to_owned(),
        }
    }

    /// Record a failure unless the template holds exactly one `{}`.
    pub fn lint(&self, linter: &mut Linter)
        ensures
            extends(
                final(linter)@,
                old(linter)@,
                if placeholder_count(self.template@) == 1 {
                    0nat
                } else {
                    1nat
                },
            ),
    {
        let ghost l0 = linter@;
        let count = count_placeholders(self.template.as_str());
        linter.err(count == 1, "template must contain exactly one '{}' placeholder");
        proof {
            assert(linter@.failures.take(l0.failures.len() as int) =~= l0.failures);
        }
    }

    /// Add this column's import to `out` unless it is empty or already there.
    pub fn fill_import(&self, out: &mut Vec<String>)
        ensures
            self.import@.len() == 0 || seq_contains_str(old(out)@, self.import@) ==> final(out)@
                == old(out)@,
            self.import@.len() > 0 && !seq_contains_str(old(out)@, self.import@) ==> final(out)@
                =~= old(out)@.push(final(out)@.last()) && final(out)@.last()@ == self.import@,
    {
        if !self.import.as_str().is_empty() && !contains_str(out, self.import.as_str()) {
            out.push(self.import.clone());
        }
    }
}

} // verus!
