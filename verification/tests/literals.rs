use kicad_sexp::{
    parse_escape, parse_float, parse_hexint64, parse_int, parse_string, parse_symbol, ParseError,
};

#[test]
fn escape() {
    assert_eq!(parse_escape("\\\\").unwrap(), '\\');
    assert_eq!(parse_escape("\\\"").unwrap(), '"');
    assert_eq!(parse_escape("\\n").unwrap(), '\n');
    assert_eq!(parse_escape("\\t").unwrap(), '\t');
}

#[test]
fn string() {
    assert_eq!(parse_string("\"\\\\\" ").unwrap(), "\\\\");
    assert_eq!(parse_string("\"\\\"\" ").unwrap(), "\\\"");
    assert_eq!(parse_string("\"\\n\" ").unwrap(), "\\n");
    assert_eq!(parse_string("\"\\t\" ").unwrap(), "\\t");
    assert_eq!(
        parse_string("\"this is a normal string\" ").unwrap(),
        "this is a normal string"
    );
}

#[test]
fn integer() {
    assert_eq!(parse_int("12345 ").unwrap(), "12345");
}

#[test]
fn hexint64() {
    assert_eq!(
        parse_hexint64("0xdeadbeef_beefdead_44552255_12345678 ").unwrap(),
        "0xdeadbeef_beefdead_44552255_12345678"
    );
}

#[test]
fn float() {
    assert_eq!(parse_float("-123.123456 ").unwrap(), "-123.123456");
    assert_eq!(parse_float("321.6543210 ").unwrap(), "321.6543210");
}

#[test]
fn symbol() {
    assert_eq!(
        parse_symbol("97-something-bla-9_the \n").unwrap(),
        "97-something-bla-9_the"
    );
}

fn stuck(start: usize, found: Option<char>) -> ParseError {
    let end = if found.is_some() { start + 1 } else { start };
    ParseError { start, end, found }
}

#[test]
fn escape_rejects_other_pairs() {
    assert_eq!(parse_escape(""), Err(stuck(0, None)));
    assert_eq!(parse_escape("n"), Err(stuck(0, Some('n'))));
    assert_eq!(parse_escape("\\"), Err(stuck(1, None)));
    assert_eq!(parse_escape("\\r"), Err(stuck(1, Some('r'))));
    assert_eq!(parse_escape("\\nn"), Err(stuck(2, Some('n'))));
}

#[test]
fn string_keeps_the_backslash() {
    let text = parse_string("\"\\n\" ").unwrap();
    assert_eq!(text.chars().count(), 2);
    assert_eq!(text.chars().next(), Some('\\'));
    assert_eq!(text.chars().nth(1), Some('n'));
}

#[test]
fn string_edge_cases() {
    assert_eq!(parse_string("\"\" "), Ok(""));
    assert_eq!(parse_string("  \"a b\" \n\t"), Ok("a b"));
    assert_eq!(parse_string("\"(x)\" "), Ok("(x)"));
    assert_eq!(parse_string("\"gr\u{fc}n\" "), Ok("gr\u{fc}n"));
    assert_eq!(parse_string("\"abc"), Err(stuck(4, None)));
    assert_eq!(parse_string("\"abc\""), Err(stuck(5, None)));
    assert_eq!(parse_string("\"abc\"x "), Err(stuck(5, Some('x'))));
    assert_eq!(parse_string("\"a\\qb\" "), Err(stuck(3, Some('q'))));
    assert_eq!(parse_string("\"a\\"), Err(stuck(3, None)));
    assert_eq!(parse_string("abc "), Err(stuck(0, Some('a'))));
    assert_eq!(parse_string("\"a\" \"b\" "), Err(stuck(4, Some('"'))));
}

#[test]
fn int_edge_cases() {
    assert_eq!(parse_int("-7 "), Ok("-7"));
    assert_eq!(parse_int("\n\t 0\t\n "), Ok("0"));
    assert_eq!(parse_int("12345"), Err(stuck(5, None)));
    assert_eq!(parse_int("123abc "), Err(stuck(3, Some('a'))));
    assert_eq!(parse_int("- "), Err(stuck(1, Some(' '))));
    assert_eq!(parse_int("--1 "), Err(stuck(1, Some('-'))));
    assert_eq!(parse_int("+1 "), Err(stuck(0, Some('+'))));
    assert_eq!(parse_int(""), Err(stuck(0, None)));
    assert_eq!(parse_int("1.5 "), Err(stuck(1, Some('.'))));
    assert_eq!(parse_int("12)"), Err(stuck(2, Some(')'))));
    assert_eq!(parse_int("12 13 "), Err(stuck(3, Some('1'))));
}

#[test]
fn hex_edge_cases() {
    assert_eq!(
        parse_hexint64("DEADBEEF_beefdead_44552255_12345678 "),
        Ok("DEADBEEF_beefdead_44552255_12345678")
    );
    assert_eq!(
        parse_hexint64("0xdeadbee_beefdead_44552255_12345678 "),
        Err(stuck(9, Some('_')))
    );
    assert_eq!(
        parse_hexint64("0xdeadbeeff_beefdead_44552255_12345678 "),
        Err(stuck(10, Some('f')))
    );
    assert_eq!(
        parse_hexint64("0xdeadbeef_beefdead_44552255_1234567 "),
        Err(stuck(36, Some(' ')))
    );
    assert_eq!(
        parse_hexint64("0xdeadbeef_beefdead_44552255_123456789 "),
        Err(stuck(37, Some('9')))
    );
    assert_eq!(
        parse_hexint64("0xdeadbeef_beefdead44552255_12345678 "),
        Err(stuck(19, Some('4')))
    );
    assert_eq!(
        parse_hexint64("0xdeadbeef-beefdead-44552255-12345678 "),
        Err(stuck(10, Some('-')))
    );
    assert_eq!(
        parse_hexint64("0xdeadbeef_beefdead_44552255 "),
        Err(stuck(28, Some(' ')))
    );
    assert_eq!(
        parse_hexint64("0xdeadbeeg_beefdead_44552255_12345678 "),
        Err(stuck(9, Some('g')))
    );
    assert_eq!(
        parse_hexint64("0Xdeadbeef_beefdead_44552255_12345678 "),
        Err(stuck(1, Some('X')))
    );
    assert_eq!(parse_hexint64("0x"), Err(stuck(2, None)));
}

#[test]
fn float_edge_cases() {
    assert_eq!(parse_float("0.0)"), Err(stuck(3, Some(')'))));
    assert_eq!(parse_float(" 1.6 "), Ok("1.6"));
    assert_eq!(parse_float("123 "), Err(stuck(3, Some(' '))));
    assert_eq!(parse_float("123. "), Err(stuck(4, Some(' '))));
    assert_eq!(parse_float(".5 "), Err(stuck(0, Some('.'))));
    assert_eq!(parse_float("-.5 "), Err(stuck(1, Some('.'))));
    assert_eq!(parse_float("1.5e3 "), Err(stuck(3, Some('e'))));
    assert_eq!(parse_float("1.2.3 "), Err(stuck(3, Some('.'))));
    assert_eq!(parse_float("1.5"), Err(stuck(3, None)));
}

#[test]
fn symbol_edge_cases() {
    assert_eq!(parse_symbol("F.Cu "), Ok("F.Cu"));
    assert_eq!(parse_symbol("123abc "), Ok("123abc"));
    assert_eq!(parse_symbol("a\rb "), Ok("a\rb"));
    assert_eq!(parse_symbol("\u{3a9}\u{3bc} "), Ok("\u{3a9}\u{3bc}"));
    assert_eq!(parse_symbol("abc"), Err(stuck(3, None)));
    assert_eq!(parse_symbol("ab\"c\" "), Err(stuck(2, Some('"'))));
    assert_eq!(parse_symbol("ab(c) "), Err(stuck(2, Some('('))));
    assert_eq!(parse_symbol(") "), Err(stuck(0, Some(')'))));
    assert_eq!(parse_symbol("   "), Err(stuck(3, None)));
    assert_eq!(parse_symbol("a b "), Err(stuck(2, Some('b'))));
}
