use kerai::hexcodec::{bytes_to_pg_hex, push_uuid_text, uuid_to_bytes};
use kerai::text::{chars_of, push_decimal, push_signed_decimal, sql_escape, str_is};

#[test]
fn sql_escape_doubles_quotes() {
    assert_eq!(sql_escape("it's"), "it''s");
    assert_eq!(sql_escape("''"), "''''");
    assert_eq!(sql_escape("plain"), "plain");
    assert_eq!(sql_escape(""), "");
}

#[test]
fn decimal_rendering() {
    let mut s = String::from("n=");
    push_decimal(&mut s, 0);
    assert_eq!(s, "n=0");
    let mut s = String::new();
    push_decimal(&mut s, 18446744073709551615);
    assert_eq!(s, "18446744073709551615");
    let mut s = String::new();
    push_signed_decimal(&mut s, -42);
    assert_eq!(s, "-42");
    let mut s = String::new();
    push_signed_decimal(&mut s, i64::MIN);
    assert_eq!(s, "-9223372036854775808");
}

#[test]
fn string_equality_and_chars() {
    assert!(str_is("abc", "abc"));
    assert!(!str_is("abc", "abd"));
    assert!(!str_is("abc", "ab"));
    assert_eq!(chars_of("héllo"), vec!['h', 'é', 'l', 'l', 'o']);
}

#[test]
fn pg_hex_literal() {
    assert_eq!(bytes_to_pg_hex(&[0xab, 0x01, 0xff]), "\\xab01ff");
    assert_eq!(bytes_to_pg_hex(&[]), "\\x");
}

#[test]
fn uuid_bytes_and_text() {
    let u: u128 = 0x0123_4567_89ab_cdef_0011_2233_4455_6677;
    assert_eq!(
        uuid_to_bytes(u),
        vec![0x01, 0x23, 0x45, 0x67, 0x89, 0xab, 0xcd, 0xef, 0x00, 0x11, 0x22, 0x33, 0x44, 0x55, 0x66, 0x77]
    );
    let mut s = String::new();
    push_uuid_text(&mut s, u);
    assert_eq!(s, "01234567-89ab-cdef-0011-223344556677");
    assert_eq!(s, uuid::Uuid::from_u128(u).to_string());
}

fn read_literal_body(t: &str) -> Option<String> {
    let cs: Vec<char> = t.chars().collect();
    let mut out = String::new();
    let mut i = 0;
    while i < cs.len() {
        if cs[i] == '\'' {
            if i + 1 < cs.len() && cs[i + 1] == '\'' {
                out.push('\'');
                i += 2;
            } else {
                return None;
            }
        } else {
            out.push(cs[i]);
            i += 1;
        }
    }
    Some(out)
}

#[test]
fn escaped_text_reads_back() {
    for s in ["", "plain", "it's", "''", "'; DROP TABLE x; --", "a'b'c'"] {
        assert_eq!(read_literal_body(&sql_escape(s)), Some(s.to_string()));
    }
    assert_eq!(read_literal_body("a'b"), None);
}
