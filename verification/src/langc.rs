//! Naming rules of the C backend. The text emitter itself is an outside
//! collaborator; the core only fixes the identifiers it must use.

use vstd::prelude::*;
use crate::caseconv::{snake_of, shouty_snake_of, snake_case, shouty_snake_case};
use crate::table::{Column, Table, spec_info};

verus! {

/// The C struct name of a table.
pub fn struct_name(table_name: &str) -> (r: String)
    ensures
        r@ == snake_of(table_name@),
{
    snake_case(table_name)
}

/// The C constant name of a table's data array.
pub fn table_name(name: &str) -> (r: String)
    ensures
        r@ == shouty_snake_of(name@),
{
    shouty_snake_case(name)
}

/// The C enumerator name of a label.
pub fn enum_name(s: &str) -> (r: String)
    ensures
        r@ == shouty_snake_of(s@),
{
    shouty_snake_case(s)
}

/// The C type name of a variant column's tag.
pub fn variant_type_name(table: &Table, col: &Column) -> (r: String)
    ensures
        r@ == snake_of(table.name@) + "_"@ + snake_of(spec_info(col).config.name@) + "_type_t"@,
{
    let mut s = struct_name(table.name.as_str());
    s.append("_");
    let varname = struct_name(col.name().as_str());
    s.append(varname.as_str());
    s.append("_type_t");
    s
}

} // verus!
