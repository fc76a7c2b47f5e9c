use kicad_sexp::{
    parse_float, parse_hexint64, parse_int, parse_string, parse_symbol, parser, pretty_print,
    ParseError, Sexp,
};

const BODIES: [&str; 9] = [
    "",
    "a ",
    " a b ",
    "(a)",
    "1 -2 3.5 \"s\" sym ",
    "(a (b (c))) (d) ",
    "\n\t(layers (0 \"F.Cu\" signal) (2 \"B.Cu\" signal))\n",
    "0xdeadbeef_beefdead_44552255_12345678 ()",
    "\"(\" \")\" ",
];

#[test]
fn items_in_parentheses_are_a_list() {
    for body in BODIES {
        let items = parser(body).unwrap();
        let text = format!("({})", body);
        assert_eq!(parser(&text), Ok(vec![Sexp::List(items)]), "on {:?}", body);
    }
}

#[test]
fn items_in_parentheses_keep_their_order() {
    let sexps = parser("(c a b a)").unwrap();
    assert_eq!(
        sexps,
        vec![Sexp::List(vec![
            Sexp::Symbol("c"),
            Sexp::Symbol("a"),
            Sexp::Symbol("b"),
            Sexp::Symbol("a"),
        ])]
    );
}

#[test]
fn a_region_given_up_inside_breaks_the_list_law() {
    let body = "(a \")\" (b \" (\" c)";
    assert_eq!(
        parser(body),
        Ok(vec![Sexp::Invalid, Sexp::StringLiteral(" (b "), Sexp::Invalid])
    );
    let text = format!("({})", body);
    assert_eq!(
        parser(&text),
        Err(vec![ParseError { start: 19, end: 19, found: None }])
    );
}

#[test]
fn integer_text_is_matched_as_it_stands() {
    for token in ["0", "7", "-7", "12345", "-000", "18446744073709551616000"] {
        for rest in [" ", "\n", "\t", " \n\t "] {
            let text = format!("{}{}", token, rest);
            assert_eq!(parse_int(&text), Ok(token), "on {:?}", text);
        }
        let closed = format!("({})", token);
        assert_eq!(parser(&closed), Ok(vec![Sexp::List(vec![Sexp::IntLiteral(token)])]));
    }
}

#[test]
fn hex_text_is_matched_as_it_stands() {
    for token in [
        "0xdeadbeef_beefdead_44552255_12345678",
        "deadbeef_beefdead_44552255_12345678",
        "0x00000000_00000000_00000000_00000000",
        "ABCDEFab_cdef0123_456789AB_CDEFabcd",
    ] {
        let text = format!("{} ", token);
        assert_eq!(parse_hexint64(&text), Ok(token));
        let closed = format!("({})", token);
        assert_eq!(parser(&closed), Ok(vec![Sexp::List(vec![Sexp::HexIntLiteral(token)])]));
    }
}

#[test]
fn hex_text_of_another_shape_is_not_matched() {
    for token in [
        "0xdeadbee_beefdead_44552255_12345678",
        "0xdeadbeef0_beefdead_44552255_12345678",
        "0xdeadbeef_beefdea_44552255_12345678",
        "0xdeadbeef_beefdead_4455225_12345678",
        "0xdeadbeef_beefdead_44552255_1234567",
        "0xdeadbeef_beefdead_44552255_123456789",
        "0xdeadbeefbeefdead_44552255_12345678",
        "0xdeadbeef_beefdead44552255_12345678",
        "0xdeadbeef_beefdead_4455225512345678",
        "0xdeadbeef_beefdead_44552255",
        "0xdeadbeef_beefdead_44552255_12345678_9abcdef0",
        "0xdeadbeef_beefdead_44552255_1234567g",
    ] {
        let text = format!("{} ", token);
        assert!(parse_hexint64(&text).is_err(), "on {:?}", text);
        let closed = format!("({})", token);
        assert_eq!(parser(&closed), Ok(vec![Sexp::List(vec![Sexp::Symbol(token)])]));
    }
}

#[test]
fn float_text_is_matched_as_it_stands() {
    for token in ["-123.123456", "321.6543210", "0.0", "1.6", "-0.5"] {
        let text = format!("{} ", token);
        assert_eq!(parse_float(&text), Ok(token));
        assert!(parse_int(&text).is_err());
    }
    for token in ["123", "-123", "123.", ".5", "1.2.3", "1e5"] {
        let text = format!("{} ", token);
        assert!(parse_float(&text).is_err(), "on {:?}", text);
    }
}

#[test]
fn string_and_symbol_text_is_matched_as_it_stands() {
    for body in ["", "a", "a b", "\\n", "\\\\", "\\\"", "(x) y", "tab\\tbed"] {
        let text = format!("\"{}\")", body);
        assert_eq!(
            parser(&format!("({}", text)),
            Ok(vec![Sexp::List(vec![Sexp::StringLiteral(body)])])
        );
        assert_eq!(parse_string(&format!("\"{}\" ", body)), Ok(body));
    }
    for token in ["a", "F.Cu", "97-something-bla-9_the", "\\", "a\\b", "-", "."] {
        assert_eq!(parse_symbol(&format!("{}\n", token)), Ok(token));
    }
}

#[test]
fn equal_trees_have_equal_traces() {
    let one = String::from("(a \"b\" (c 1.5) (d \"e) f)");
    let other = one.clone();
    let first = parser(&one).unwrap();
    let second = parser(&other).unwrap();
    assert_eq!(first, second);
    assert_eq!(pretty_print(&first), pretty_print(&second));
    assert_eq!(pretty_print(&first), pretty_print(&first.clone()));
    assert_eq!(pretty_print(&first), "(\u{286}a \"b\" (\u{286}c \u{14b}1.5 ) Inv \u{286}f ) ");
}

#[test]
fn trace_of_a_sequence_is_the_traces_in_order() {
    let front = parser("(a) b ").unwrap();
    let back = parser("\"c\" (1 2)").unwrap();
    let mut both = front.clone();
    both.extend(back.clone());
    assert_eq!(
        pretty_print(&both),
        format!("{}{}", pretty_print(&front), pretty_print(&back))
    );
}
