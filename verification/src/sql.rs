//! The SQL lookup snippet built around an identifier's binary form.

use crate::codec::{Identifier, hex_chars};
use vstd::prelude::*;
use vstd::string::StringExecFns;

verus! {

/// The lookup statement written for `table`, `column` and the identifier
/// value `x`: the table and column names between backticks, the value as a
/// bare `0x` hexadecimal literal.
pub open spec fn spec_select(table: Seq<char>, column: Seq<char>, x: u128) -> Seq<char> {
    "SELECT * FROM `"@ + table + "` WHERE `"@ + column + "` = 0x"@ + hex_chars(x) + ";"@
}

/// Builds the lookup statement for `id` in `table`.`column`.
///
/// The table and column names are written verbatim, embedded backticks
/// included: the names are trusted operator input.
pub fn select_statement(table: &str, column: &str, id: &Identifier) -> (r: String)
    ensures
        r@ == spec_select(table@, column@, id.bits),
{
    let mut out = String::from_str("SELECT * FROM `");
    out.append(table);
    out.append("` WHERE `");
    out.append(column);
    out.append("` = 0x");
    let hex = id.to_hex();
    out.append(hex.as_str());
    out.append(";");
    proof {
        assert(out@ =~= spec_select(table@, column@, id.bits));
    }
    out
}

} // verus!
