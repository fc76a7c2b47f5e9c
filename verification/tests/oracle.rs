use chumsky::prelude::{
    choice, end, extra, just, none_of, one_of, recursive, via_parser, IterParser, Parser, Simple,
};
use chumsky::recovery::nested_delimiters;
use chumsky::text;
use kicad_sexp::{parse_float, parse_hexint64, parse_int, parse_string, parse_symbol, parser, Sexp};

type Fault<'s> = extra::Err<Simple<'s, char>>;

fn quoted<'s>() -> impl Parser<'s, &'s str, &'s str, Fault<'s>> + Copy {
    let pair = just('\\').ignore_then(choice((
        just('\\'),
        just('"'),
        just('n').to('\n'),
        just('t').to('\t'),
    )));
    none_of("\\\"")
        .or(pair)
        .repeated()
        .to_slice()
        .delimited_by(just('"'), just('"'))
        .then_ignore(one_of(" \n\t)").repeated().at_least(1).rewind())
        .padded()
}

fn integer<'s>() -> impl Parser<'s, &'s str, &'s str, Fault<'s>> + Copy {
    just('-')
        .or_not()
        .then(text::digits(10))
        .to_slice()
        .then_ignore(one_of(" \n\t)").repeated().at_least(1).rewind())
        .padded()
}

fn blob<'s>() -> impl Parser<'s, &'s str, &'s str, Fault<'s>> + Copy {
    just("0x")
        .or_not()
        .then(text::digits(16).exactly(8))
        .then(just('_'))
        .then(text::digits(16).exactly(8))
        .then(just('_'))
        .then(text::digits(16).exactly(8))
        .then(just('_'))
        .then(text::digits(16).exactly(8))
        .to_slice()
        .then_ignore(one_of(" \n\t)").repeated().at_least(1).rewind())
        .padded()
}

fn fraction<'s>() -> impl Parser<'s, &'s str, &'s str, Fault<'s>> + Copy {
    just('-')
        .or_not()
        .then(text::digits(10))
        .then(just('.'))
        .then(text::digits(10))
        .to_slice()
        .then_ignore(one_of(" \n\t)").repeated().at_least(1).rewind())
        .padded()
}

fn bare<'s>() -> impl Parser<'s, &'s str, &'s str, Fault<'s>> + Copy {
    none_of(" \"()\n\t")
        .repeated()
        .at_least(1)
        .to_slice()
        .then_ignore(one_of(" \n\t)").repeated().at_least(1).rewind())
        .padded()
}

fn combinators<'s>() -> impl Parser<'s, &'s str, Vec<Sexp<'s>>, Fault<'s>> {
    recursive(|items| {
        choice((
            quoted().map(Sexp::StringLiteral),
            integer().map(Sexp::IntLiteral),
            blob().map(Sexp::HexIntLiteral),
            fraction().map(Sexp::FloatLiteral),
            bare().map(Sexp::Symbol),
        ))
        .or(items
            .delimited_by(just('('), just(')'))
            .padded()
            .map(Sexp::List))
        .recover_with(via_parser(nested_delimiters('(', ')', [], |_| {
            Sexp::Invalid
        })))
        .repeated()
        .collect()
    })
}

struct Dice(u64);

impl Dice {
    fn roll(&mut self, sides: usize) -> usize {
        self.0 ^= self.0 << 13;
        self.0 ^= self.0 >> 7;
        self.0 ^= self.0 << 17;
        (self.0 % sides as u64) as usize
    }
}

const PIECES: [&str; 40] = [
    "(", "(", "(", ")", ")", ")", " ", " ", " ", "\n", "\t", "\"", "\"", "\\", "\\n", "\\\"",
    "\\q", "a", "bc", "n", "t", "x", "-", ".", "_", "0", "7", "12", "-3", "1.5", "-0.25", "0x",
    "deadbeef", "DEADBEEF_", "0xdeadbeef_beefdead_44552255_12345678",
    "00000000_00000000_55555555_5755f5ff", "\"str\"", "\"a b\"", "gr\u{fc}n", "\u{3a9}",
];

fn text_of(dice: &mut Dice, most: usize) -> String {
    let mut text = String::new();
    for _ in 0..dice.roll(most + 1) {
        text.push_str(PIECES[dice.roll(PIECES.len())]);
    }
    text
}

const ATOMS: [&str; 16] = [
    "a", "kicad_pcb", "F.Cu", "12", "-3", "0", "1.5", "-0.25", "\"str\"", "\"\"", "\"a (b\"",
    "\"c) d\"", "\"e\\n\\\"f\"", "0xdeadbeef_beefdead_44552255_12345678",
    "00000000_00000000_55555555_5755f5ff", "gr\u{fc}n",
];

const GAPS: [&str; 5] = [" ", " ", "\n", "\t", "  "];

fn form(dice: &mut Dice, depth: usize, text: &mut String) {
    if depth == 0 || dice.roll(3) > 0 {
        text.push_str(ATOMS[dice.roll(ATOMS.len())]);
        text.push_str(GAPS[dice.roll(GAPS.len())]);
    } else {
        text.push('(');
        for _ in 0..dice.roll(4) {
            form(dice, depth - 1, text);
        }
        text.push(')');
        if dice.roll(2) == 0 {
            text.push_str(GAPS[dice.roll(GAPS.len())]);
        }
    }
}

fn document(dice: &mut Dice) -> String {
    let mut text = String::new();
    for _ in 0..1 + dice.roll(3) {
        text.push('(');
        for _ in 0..dice.roll(5) {
            form(dice, 3, &mut text);
        }
        text.push(')');
        text.push_str(GAPS[dice.roll(GAPS.len())]);
    }
    text
}

fn damaged(dice: &mut Dice, text: &str) -> String {
    let chars: Vec<char> = text.chars().collect();
    let at = dice.roll(chars.len() + 1);
    let mut out: String = chars[..at].iter().collect();
    let skip = match dice.roll(3) {
        0 => 0,
        _ => 1,
    };
    if dice.roll(2) == 0 {
        out.push_str(PIECES[dice.roll(PIECES.len())]);
    }
    out.extend(chars[at..].iter().skip(skip));
    out
}

#[test]
fn trees_agree_with_combinators() {
    let mut dice = Dice(0x9e37_79b9_7f4a_7c15);
    let mut read = 0;
    let mut recovered = 0;
    for round in 0..12000 {
        let text = match round % 4 {
            0 => text_of(&mut dice, 14),
            1 => document(&mut dice),
            2 => {
                let whole = document(&mut dice);
                damaged(&mut dice, &whole)
            },
            _ => {
                let whole = document(&mut dice);
                let once = damaged(&mut dice, &whole);
                damaged(&mut dice, &once)
            },
        };
        let expected = combinators().parse(text.as_str()).into_output();
        let ours = parser(text.as_str()).ok();
        assert_eq!(ours, expected, "on {:?}", text);
        if let Some(sexps) = &ours {
            read += 1;
            if format!("{:?}", sexps).contains("Invalid") {
                recovered += 1;
            }
        }
    }
    assert!(read > 6000 && recovered > 300, "read {} recovered {}", read, recovered);
}

#[test]
fn literals_agree_with_combinators() {
    let mut dice = Dice(0x2545_f491_4f6c_dd1d);
    let mut read = 0;
    for round in 0..12000 {
        let mut text = if round % 2 == 0 {
            text_of(&mut dice, 4)
        } else {
            let atom = String::from(ATOMS[dice.roll(ATOMS.len())]);
            damaged(&mut dice, &atom)
        };
        text.push_str(GAPS[dice.roll(GAPS.len())]);
        let text = text.as_str();
        let pairs = [
            (parse_string(text).ok(), quoted().then_ignore(end()).parse(text).into_output()),
            (parse_int(text).ok(), integer().then_ignore(end()).parse(text).into_output()),
            (parse_hexint64(text).ok(), blob().then_ignore(end()).parse(text).into_output()),
            (parse_float(text).ok(), fraction().then_ignore(end()).parse(text).into_output()),
            (parse_symbol(text).ok(), bare().then_ignore(end()).parse(text).into_output()),
        ];
        for (ours, expected) in pairs {
            assert_eq!(ours, expected, "on {:?}", text);
            if ours.is_some() {
                read += 1;
            }
        }
    }
    assert!(read > 7000, "read {}", read);
}

#[test]
fn nested_regions_agree_with_combinators() {
    let mut dice = Dice(0x1234_5678_9abc_def1);
    for _ in 0..1500 {
        let mut text = String::from("(top ");
        text.push_str(&text_of(&mut dice, 10));
        text.push_str(") (next \"s\" 1)");
        let expected = combinators().parse(text.as_str()).into_output();
        assert_eq!(parser(text.as_str()).ok(), expected, "on {:?}", text);
    }
}
