use kicad_sexp::{parser, pretty_print, ParseError, Sexp};

const EMPTY_SCHEMATIC: &str = "(kicad_sch
\t(version 20250114)
\t(generator \"eeschema\")
\t(generator_version \"9.0\")
\t(uuid \"5b6ad8f0-6bd9-4b49-8f0c-0d6a3c8f4c11\")
\t(paper \"A4\")
\t(lib_symbols)
\t(sheet_instances
\t\t(path \"/\"
\t\t\t(page \"1\")
\t\t)
\t)
\t(embedded_fonts no)
)
";

const EMPTY_BOARD: &str = "(kicad_pcb
\t(version 20241229)
\t(generator \"pcbnew\")
\t(generator_version \"9.0\")
\t(general
\t\t(thickness 1.6)
\t\t(legacy_teardrops no)
\t)
\t(paper \"A4\")
\t(layers
\t\t(0 \"F.Cu\" signal)
\t\t(2 \"B.Cu\" signal)
\t\t(9 \"F.Adhes\" user \"F.Adhesive\")
\t\t(11 \"B.Adhes\" user \"B.Adhesive\")
\t\t(25 \"Edge.Cuts\" user)
\t)
\t(setup
\t\t(pad_to_mask_clearance 0)
\t\t(allow_soldermask_bridges_in_footprints no)
\t\t(tenting front back)
\t\t(pcbplotparams
\t\t\t(layerselection 0x00000000_00000000_55555555_5755f5ff)
\t\t\t(plot_on_all_layers_selection 0x00000000_00000000_00000000_00000000)
\t\t\t(disableapertmacros no)
\t\t\t(dashed_line_dash_ratio 12.000000)
\t\t\t(hpglpendiameter 15.000000)
\t\t\t(drillshape 1)
\t\t\t(scaleselection 1)
\t\t\t(outputdirectory \"\")
\t\t)
\t)
\t(net 0 \"\")
\t(embedded_fonts no)
)
";

fn sym(text: &str) -> Sexp<'_> {
    Sexp::Symbol(text)
}

fn list(children: Vec<Sexp<'_>>) -> Sexp<'_> {
    Sexp::List(children)
}

fn stuck(start: usize, found: Option<char>) -> Vec<ParseError> {
    let end = if found.is_some() { start + 1 } else { start };
    vec![ParseError { start, end, found }]
}

fn holds_invalid(sexps: &Vec<Sexp>) -> bool {
    sexps.iter().any(|sexp| match sexp {
        Sexp::Invalid => true,
        Sexp::List(children) => holds_invalid(children),
        _ => false,
    })
}

#[test]
fn kicad_sexp() {
    let result = parser(EMPTY_SCHEMATIC);
    assert_eq!(result.is_err(), false);
    assert_eq!(result.as_ref().map(|sexps| !sexps.is_empty()), Ok(true));
    assert!(!holds_invalid(&result.unwrap()));

    let result = parser(EMPTY_BOARD);
    assert_eq!(result.is_err(), false);
    assert_eq!(result.as_ref().map(|sexps| !sexps.is_empty()), Ok(true));
    assert!(!holds_invalid(&result.unwrap()));
}

#[test]
fn board_keeps_every_form() {
    let sexps = parser(EMPTY_BOARD.trim()).unwrap();
    assert_eq!(sexps.len(), 1);
    let Sexp::List(top) = &sexps[0] else {
        panic!("the board is one list");
    };
    assert_eq!(top[0], sym("kicad_pcb"));
    assert_eq!(top[1], list(vec![sym("version"), Sexp::IntLiteral("20241229")]));
    assert_eq!(top[2], list(vec![sym("generator"), Sexp::StringLiteral("pcbnew")]));
    assert_eq!(
        top[4],
        list(vec![
            sym("general"),
            list(vec![sym("thickness"), Sexp::FloatLiteral("1.6")]),
            list(vec![sym("legacy_teardrops"), sym("no")]),
        ])
    );
    let Sexp::List(setup) = &top[7] else {
        panic!("setup is a list");
    };
    let Sexp::List(plot) = &setup[4] else {
        panic!("plot parameters are a list");
    };
    assert_eq!(
        plot[1],
        list(vec![
            sym("layerselection"),
            Sexp::HexIntLiteral("0x00000000_00000000_55555555_5755f5ff"),
        ])
    );
    assert_eq!(plot[8], list(vec![sym("outputdirectory"), Sexp::StringLiteral("")]));
    assert_eq!(
        top[8],
        list(vec![sym("net"), Sexp::IntLiteral("0"), Sexp::StringLiteral("")])
    );
}

#[test]
fn list_of_items() {
    assert_eq!(
        parser("(a 1 -2.5 \"s\" (b) ())"),
        Ok(vec![list(vec![
            sym("a"),
            Sexp::IntLiteral("1"),
            Sexp::FloatLiteral("-2.5"),
            Sexp::StringLiteral("s"),
            list(vec![sym("b")]),
            list(vec![]),
        ])])
    );
}

#[test]
fn several_top_level_forms() {
    assert_eq!(
        parser("a (b) \"c\" 4 "),
        Ok(vec![
            sym("a"),
            list(vec![sym("b")]),
            Sexp::StringLiteral("c"),
            Sexp::IntLiteral("4"),
        ])
    );
    assert_eq!(parser(""), Ok(vec![]));
    assert_eq!(parser("()"), Ok(vec![list(vec![])]));
    assert_eq!(parser(" \n( a )\t\n"), Ok(vec![list(vec![sym("a")])]));
}

#[test]
fn numbers_that_are_not_numbers_are_symbols() {
    assert_eq!(
        parser("(123abc 1.2.3 0x00010fc_ffffffff - -a 1e5)"),
        Ok(vec![list(vec![
            sym("123abc"),
            sym("1.2.3"),
            sym("0x00010fc_ffffffff"),
            sym("-"),
            sym("-a"),
            sym("1e5"),
        ])])
    );
}

#[test]
fn recovery_keeps_the_siblings() {
    assert_eq!(
        parser("(a (b \"c) d) (e f)"),
        Ok(vec![
            list(vec![sym("a"), Sexp::Invalid, sym("d")]),
            list(vec![sym("e"), sym("f")]),
        ])
    );
}

#[test]
fn recovery_counts_parentheses_only() {
    assert_eq!(
        parser("(a (b (c) \"d) e)"),
        Ok(vec![list(vec![sym("a"), Sexp::Invalid, sym("e")])])
    );
    assert_eq!(
        parser("(a \")\" (b \" (\" c)"),
        Ok(vec![Sexp::Invalid, Sexp::StringLiteral(" (b "), Sexp::Invalid])
    );
    assert_eq!(parser("( )"), Ok(vec![Sexp::Invalid]));
    assert_eq!(parser("(a\"b\")"), Ok(vec![Sexp::Invalid]));
}

#[test]
fn recovery_starts_at_the_parenthesis() {
    assert_eq!(parser("( (a \"b) )"), Ok(vec![Sexp::Invalid]));
    assert_eq!(parser("((a \"b) )"), Ok(vec![Sexp::Invalid]));
    assert_eq!(parser("((a \"b))"), Ok(vec![list(vec![Sexp::Invalid])]));
    assert_eq!(
        parser("((a \"b)b )"),
        Ok(vec![list(vec![Sexp::Invalid, sym("b")])])
    );
}

#[test]
fn fatal_errors() {
    assert_eq!(parser("abc"), Err(stuck(3, None)));
    assert_eq!(parser("(a b"), Err(stuck(4, None)));
    assert_eq!(parser("(a b) )"), Err(stuck(6, Some(')'))));
    assert_eq!(parser("a ))) b "), Err(stuck(2, Some(')'))));
    assert_eq!(parser("\"abc"), Err(stuck(4, None)));
    assert_eq!(parser("(a (b \"c"), Err(stuck(8, None)));
    assert_eq!(parser(" "), Err(stuck(1, None)));
    assert_eq!(parser("(a \"b) "), Err(stuck(7, None)));
    assert_eq!(parser("a\"b\" "), Err(stuck(1, Some('"'))));
    assert_eq!(parser("(a) b\\(c"), Err(stuck(6, Some('('))));
}

#[test]
fn trace_of_every_kind() {
    let sexps = parser("(sym \"str\" 12 0x00000000_00000000_55555555_5755f5ff -1.5 (x \"y) ())")
        .unwrap();
    assert_eq!(
        pretty_print(&sexps),
        "(\u{286}sym \"str\" \u{14b}12 \u{14b}0x00000000_00000000_55555555_5755f5ff \u{14b}-1.5 Inv () ) "
    );
    assert_eq!(pretty_print(&vec![]), "");
    assert_eq!(pretty_print(&vec![sym("a"), sym("b")]), "\u{286}a \u{286}b ");
}

#[test]
fn trace_is_repeatable() {
    let sexps = parser(EMPTY_BOARD).unwrap();
    let again = parser(EMPTY_BOARD).unwrap();
    assert_eq!(sexps, again);
    assert_eq!(pretty_print(&sexps), pretty_print(&sexps));
    assert_eq!(pretty_print(&sexps), pretty_print(&again));
}

#[test]
fn trace_keeps_escapes_as_written() {
    let sexps = parser("(\"a\\n\\\"b\\\"\")").unwrap();
    assert_eq!(sexps, vec![list(vec![Sexp::StringLiteral("a\\n\\\"b\\\"")])]);
    assert_eq!(pretty_print(&sexps), "(\"a\\n\\\"b\\\"\" ) ");
}

#[test]
fn a_long_document_is_read() {
    let mut text = String::from("(kicad_pcb\n");
    for n in 0..40000 {
        text.push_str("\t(segment (start 1.5 -2.25) (end 3 4) (width 0.2) (layer \"F.Cu\") (net ");
        text.push_str(&n.to_string());
        text.push_str(") (uuid \"0b1e\u{fc}\"))\n");
    }
    text.push_str(")\n");
    let sexps = parser(&text).unwrap();
    assert_eq!(sexps.len(), 1);
    let Sexp::List(top) = &sexps[0] else {
        panic!("the board is one list");
    };
    assert_eq!(top.len(), 40001);
    let Sexp::List(last) = &top[40000] else {
        panic!("a segment is a list");
    };
    assert_eq!(last[5], list(vec![sym("net"), Sexp::IntLiteral("39999")]));
    assert_eq!(last[6], list(vec![sym("uuid"), Sexp::StringLiteral("0b1e\u{fc}")]));
    assert_eq!(pretty_print(&sexps).chars().filter(|c| *c == '(').count(), 7 * 40000 + 1);
}

#[test]
fn deep_nesting_is_read() {
    let depth = 300;
    let mut text = String::new();
    for _ in 0..depth {
        text.push_str("(a ");
    }
    for _ in 0..depth {
        text.push(')');
    }
    let mut sexps = parser(&text).unwrap();
    for _ in 0..depth {
        assert_eq!(sexps.len(), 1);
        let Sexp::List(children) = sexps.remove(0) else {
            panic!("each level is a list");
        };
        assert_eq!(children[0], sym("a"));
        sexps = children.into_iter().skip(1).collect();
    }
    assert!(sexps.is_empty());
}

#[test]
fn positions_count_characters() {
    assert_eq!(
        parser("(\u{e9}\u{1f600} \"\u{3a9}\" z\u{df})"),
        Ok(vec![list(vec![
            sym("\u{e9}\u{1f600}"),
            Sexp::StringLiteral("\u{3a9}"),
            sym("z\u{df}"),
        ])])
    );
    assert_eq!(parser("\u{e9}\u{1f600} \"\u{3a9}"), Err(stuck(5, None)));
    assert_eq!(parser("(\u{1f600}) \u{e9})"), Err(stuck(5, Some(')'))));
    assert_eq!(parser("\u{1f600}\u{1f600}(a)"), Err(stuck(2, Some('('))));
}
