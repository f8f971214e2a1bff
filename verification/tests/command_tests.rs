use ulid_sql::codec::UlidError;
use ulid_sql::commands::{convert_command, db_command, find_command, help_text};

const SAMPLE_CANONICAL: &str = "01J5KERCT1VJCKV1VEVZZ3NFY4";
const SAMPLE_HEX: &str = "019166ec3341dc993d876edffe3abfc4";

#[test]
fn find_builds_the_documented_statement() {
    let out = find_command(SAMPLE_CANONICAL, "users", "identifier").unwrap();
    assert_eq!(out.canonical, SAMPLE_CANONICAL);
    assert_eq!(out.hex, SAMPLE_HEX);
    assert_eq!(
        out.sql,
        "SELECT * FROM `users` WHERE `identifier` = 0x019166ec3341dc993d876edffe3abfc4;"
    );
}

#[test]
fn find_normalizes_case() {
    let out = find_command("01j5kerct1vjckv1vevzz3nfy4", "users", "id").unwrap();
    assert_eq!(out.canonical, SAMPLE_CANONICAL);
    assert_eq!(
        out.sql,
        "SELECT * FROM `users` WHERE `id` = 0x019166ec3341dc993d876edffe3abfc4;"
    );
}

#[test]
fn find_rejects_bad_input() {
    assert!(matches!(
        find_command("not-a-ulid", "users", "identifier"),
        Err(UlidError::MalformedIdentifier)
    ));
}

#[test]
fn convert_takes_canonical_text() {
    let out = convert_command(SAMPLE_CANONICAL).unwrap();
    assert_eq!(out.canonical, SAMPLE_CANONICAL);
    assert_eq!(out.hex, SAMPLE_HEX);
}

#[test]
fn convert_takes_hex_with_marker() {
    let out = convert_command("0x019166ec3341dc993d876edffe3abfc4").unwrap();
    assert_eq!(out.canonical, SAMPLE_CANONICAL);
    assert_eq!(out.hex, SAMPLE_HEX);
}

#[test]
fn convert_takes_bare_hex() {
    let out = convert_command("019166EC3341DC993D876EDFFE3ABFC4").unwrap();
    assert_eq!(out.canonical, SAMPLE_CANONICAL);
    assert_eq!(out.hex, SAMPLE_HEX);
}

#[test]
fn convert_reports_the_matching_error() {
    // Sniffed as hexadecimal, then rejected for its length.
    assert!(matches!(
        convert_command("0x9166ec3341dc993d876edffe3abfc4"),
        Err(UlidError::MalformedHex)
    ));
    // Sniffed as canonical, then rejected.
    assert!(matches!(
        convert_command("hello"),
        Err(UlidError::MalformedIdentifier)
    ));
}

#[test]
fn db_builds_the_statement() {
    let out = db_command(SAMPLE_CANONICAL, "products", "product_id", false).unwrap();
    assert_eq!(
        out.sql,
        "SELECT * FROM `products` WHERE `product_id` = 0x019166ec3341dc993d876edffe3abfc4;"
    );
}

#[test]
fn db_without_copy_produces_no_clipboard_payload() {
    let out = db_command(SAMPLE_CANONICAL, "users", "identifier", false).unwrap();
    assert!(out.clipboard.is_none());
}

#[test]
fn db_with_copy_carries_the_statement() {
    let out = db_command(SAMPLE_CANONICAL, "users", "identifier", true).unwrap();
    assert_eq!(out.clipboard.as_deref(), Some(out.sql.as_str()));
}

#[test]
fn db_rejects_bad_input() {
    assert!(matches!(
        db_command("01J5KERCT1VJCKV1VEVZZ3NFY", "users", "identifier", true),
        Err(UlidError::MalformedIdentifier)
    ));
}

#[test]
fn help_text_names_the_commands() {
    let text = help_text();
    assert!(text.contains("Commands:"));
    assert!(text.contains("ulid convert"));
    assert!(text.contains("ulid find"));
    assert!(text.contains("ulid db"));
    assert!(text.ends_with('\n'));
}
