//! The compute halves of the three commands.
//!
//! Each function takes a command's inputs as plain values and returns
//! everything the command is to print or send, so that the thin shell
//! around the library does nothing but I/O.

use crate::codec::{
    UlidError, canonical_chars, canonical_value, hex_body, hex_chars, hex_value, is_hex_format,
    parse_canonical, parse_hex, spec_is_hex_format, valid_canonical, valid_hex_input,
};
use crate::sql::{select_statement, spec_select};
use vstd::prelude::*;
use vstd::string::StringExecFns;

verus! {

/// What the `find` command prints.
pub struct FindOutput {
    /// The identifier, normalized to its canonical upper-case text.
    pub canonical: String,
    /// The identifier's 32 hexadecimal digits, lower case.
    pub hex: String,
    /// The lookup statement.
    pub sql: String,
}

/// What the `convert` command prints.
pub struct ConvertOutput {
    /// The identifier's canonical upper-case text.
    pub canonical: String,
    /// The identifier's 32 hexadecimal digits, lower case.
    pub hex: String,
}

/// What the `db` command prints and, when asked to, sends to the clipboard.
pub struct DbOutput {
    /// The lookup statement.
    pub sql: String,
    /// The clipboard payload; present exactly when the copy option was set.
    pub clipboard: Option<String>,
}

/// The compute half of `find`: parses the canonical text and returns the
/// normalized identifier, its hexadecimal form and the lookup statement.
pub fn find_command(ulid_str: &str, table: &str, column: &str) -> (r: Result<
    FindOutput,
    UlidError,
>)
    ensures
        r is Ok <==> valid_canonical(ulid_str@),
        r is Ok ==> ({
            let v = canonical_value(ulid_str@) as u128;
            &&& r->Ok_0.canonical@ == canonical_chars(v)
            &&& r->Ok_0.hex@ == hex_chars(v)
            &&& r->Ok_0.sql@ == spec_select(table@, column@, v)
        }),
        r is Err ==> r->Err_0 == UlidError::MalformedIdentifier,
{
    let id = match parse_canonical(ulid_str) {
        Ok(id) => id,
        Err(e) => {
            return Err(e);
        },
    };
    let canonical = id.to_canonical();
    let hex = id.to_hex();
    let sql = select_statement(table, column, &id);
    Ok(FindOutput { canonical, hex, sql })
}

/// The compute half of `convert`: sniffs the input's representation, parses
/// it accordingly, and returns both forms of the identifier.
pub fn convert_command(value: &str) -> (r: Result<ConvertOutput, UlidError>)
    ensures
        spec_is_hex_format(value@) ==> ({
            &&& (r is Ok <==> valid_hex_input(value@))
            &&& (r is Ok ==> ({
                let v = hex_value(hex_body(value@)) as u128;
                &&& r->Ok_0.canonical@ == canonical_chars(v)
                &&& r->Ok_0.hex@ == hex_chars(v)
            }))
            &&& (r is Err ==> r->Err_0 == UlidError::MalformedHex)
        }),
        !spec_is_hex_format(value@) ==> ({
            &&& (r is Ok <==> valid_canonical(value@))
            &&& (r is Ok ==> ({
                let v = canonical_value(value@) as u128;
                &&& r->Ok_0.canonical@ == canonical_chars(v)
                &&& r->Ok_0.hex@ == hex_chars(v)
            }))
            &&& (r is Err ==> r->Err_0 == UlidError::MalformedIdentifier)
        }),
{
    let id = if is_hex_format(value) {
        match parse_hex(value) {
            Ok(id) => id,
            Err(e) => {
                return Err(e);
            },
        }
    } else {
        match parse_canonical(value) {
            Ok(id) => id,
            Err(e) => {
                return Err(e);
            },
        }
    };
    let canonical = id.to_canonical();
    let hex = id.to_hex();
    Ok(ConvertOutput { canonical, hex })
}

/// The compute half of `db`: parses the canonical text and returns the
/// lookup statement.  The clipboard payload is present exactly when `copy`
/// is set; without the copy option no clipboard text exists for the shell
/// to send anywhere.
pub fn db_command(ulid_str: &str, table: &str, column: &str, copy: bool) -> (r: Result<
    DbOutput,
    UlidError,
>)
    ensures
        r is Ok <==> valid_canonical(ulid_str@),
        r is Ok ==> ({
            let v = canonical_value(ulid_str@) as u128;
            &&& r->Ok_0.sql@ == spec_select(table@, column@, v)
            &&& (copy ==> r->Ok_0.clipboard is Some && r->Ok_0.clipboard->Some_0@ == spec_select(
                table@,
                column@,
                v,
            ))
            &&& (!copy ==> r->Ok_0.clipboard is None)
        }),
        r is Err ==> r->Err_0 == UlidError::MalformedIdentifier,
{
    let id = match parse_canonical(ulid_str) {
        Ok(id) => id,
        Err(e) => {
            return Err(e);
        },
    };
    let sql = select_statement(table, column, &id);
    let clipboard = if copy {
        Some(sql.clone())
    } else {
        None
    };
    Ok(DbOutput { sql, clipboard })
}

/// The usage summary printed when no command is given.
pub open spec fn spec_help_text() -> Seq<char> {
    "ULID Tool - Work with ULIDs and BINARY(16) columns\n\nCommands:\n  ulid convert <ULID_OR_HEX>                - Convert between ULID and hex\n  ulid find <ULID> --table <TABLE> [--column <COL>]     - Generate SQL to find a record\n  ulid db <ULID> --table <TABLE> [--column <COL>] [--copy]  - Quick SQL command\n\nExamples:\n  ulid convert 01J5KERCT1VJCKV1VEVZZ3NFY4\n  ulid find 01J5KERCT1VJCKV1VEVZZ3NFY4 --table users\n  ulid db 01J5KERCT1VJCKV1VEVZZ3NFY4 --table products --column product_id --copy\n\nFor more details, run: ulid --help\n"@
}

/// Returns the usage summary shown when no command is given.
pub fn help_text() -> (r: String)
    ensures
        r@ == spec_help_text(),
{
    String::from_str(
        "ULID Tool - Work with ULIDs and BINARY(16) columns\n\nCommands:\n  ulid convert <ULID_OR_HEX>                - Convert between ULID and hex\n  ulid find <ULID> --table <TABLE> [--column <COL>]     - Generate SQL to find a record\n  ulid db <ULID> --table <TABLE> [--column <COL>] [--copy]  - Quick SQL command\n\nExamples:\n  ulid convert 01J5KERCT1VJCKV1VEVZZ3NFY4\n  ulid find 01J5KERCT1VJCKV1VEVZZ3NFY4 --table users\n  ulid db 01J5KERCT1VJCKV1VEVZZ3NFY4 --table products --column product_id --copy\n\nFor more details, run: ulid --help\n",
    )
}

} // verus!
