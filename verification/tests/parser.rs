use sdn::data::Data::{self, Float, Int, Keyword, List, Str, Symbol};
use sdn::model::Expected;
use sdn::parser::{parse, BuildError, GrammarError, ParserResult};

fn ok(vals: Vec<Data>) -> ParserResult {
    ParserResult::Success(vals)
}

#[test]
fn simple() {
    assert_eq!(
        parse("10 20 foo"),
        ParserResult::Success(vec![Int(10), Int(20), Symbol("foo".to_string())])
    );
}

#[test]
fn keyword_list() {
    let map = vec![
        ("hello".to_string(), Int(30)),
        ("asd".to_string(), Int(40)),
    ];

    assert_eq!(
        parse("(10 20 :hello 30 :asd 40 nope)"),
        ParserResult::Success(vec![List {
            args: vec![Int(10), Int(20), Symbol("nope".to_string())],
            kwargs: map,
        }])
    );
}

#[test]
fn empty_input_is_empty_sequence() {
    assert_eq!(parse(""), ok(vec![]));
    assert_eq!(parse("   \t\n  "), ok(vec![]));
}

#[test]
fn dangling_keyword() {
    assert_eq!(
        parse("(:a)"),
        ParserResult::BuildError(BuildError::DanglingKeyword("a".to_string()))
    );
    assert_eq!(
        parse("(:a :b 1)"),
        ParserResult::BuildError(BuildError::DanglingKeyword("a".to_string()))
    );
}

#[test]
fn duplicate_keyword() {
    assert_eq!(
        parse("(:a 1 :a 2)"),
        ParserResult::BuildError(BuildError::DuplicateKeyword("a".to_string()))
    );
}

#[test]
fn string_escapes_decoded() {
    assert_eq!(parse("\"a\\nb\""), ok(vec![Str("a\nb".to_string())]));
    assert_eq!(
        parse("\"a\\tb \\\"quoted\\\" c:\\\\\""),
        ok(vec![Str("a\tb \"quoted\" c:\\".to_string())])
    );
}

#[test]
fn string_escapes_reencoded() {
    assert_eq!(Str("a\nb".to_string()).repr(), "\"a\\nb\"");
    assert_eq!(Str("a\tb\"c\\d".to_string()).repr(), "\"a\\tb\\\"c\\\\d\"");
}

#[test]
fn unterminated_list_is_grammar_error() {
    assert_eq!(
        parse("(1 2"),
        ParserResult::GrammarError(GrammarError {
            pos: 4,
            expected: Expected::CloseParen
        })
    );
}

#[test]
fn stray_close_paren_is_grammar_error() {
    assert_eq!(
        parse("1 ) 2"),
        ParserResult::GrammarError(GrammarError {
            pos: 2,
            expected: Expected::Expression
        })
    );
}

#[test]
fn unterminated_string_is_grammar_error() {
    assert_eq!(
        parse("\"abc"),
        ParserResult::GrammarError(GrammarError {
            pos: 4,
            expected: Expected::CloseQuote
        })
    );
}

#[test]
fn unknown_escape_is_grammar_error() {
    assert_eq!(
        parse("\"a\\x\""),
        ParserResult::GrammarError(GrammarError {
            pos: 3,
            expected: Expected::EscapeChar
        })
    );
}

#[test]
fn malformed_number_is_grammar_error() {
    assert_eq!(
        parse("1a"),
        ParserResult::GrammarError(GrammarError {
            pos: 0,
            expected: Expected::Digit
        })
    );
    assert_eq!(
        parse("-1a"),
        ParserResult::GrammarError(GrammarError {
            pos: 0,
            expected: Expected::Digit
        })
    );
}

#[test]
fn numbers_and_sign_disambiguation() {
    assert_eq!(
        parse("-5 - -a 1.5 -2.25"),
        ok(vec![
            Int(-5),
            Symbol("-".to_string()),
            Symbol("-a".to_string()),
            Float("1.5".to_string()),
            Float("-2.25".to_string()),
        ])
    );
}

#[test]
fn int_limits() {
    assert_eq!(
        parse("9223372036854775807 -9223372036854775808"),
        ok(vec![Int(i64::MAX), Int(i64::MIN)])
    );
    assert_eq!(
        parse("9223372036854775808"),
        ParserResult::BuildError(BuildError::IntOutOfRange(
            "9223372036854775808".to_string()
        ))
    );
    assert_eq!(
        parse("99999999999999999999999"),
        ParserResult::BuildError(BuildError::IntOutOfRange(
            "99999999999999999999999".to_string()
        ))
    );
}

#[test]
fn int_repr() {
    assert_eq!(Int(0).repr(), "0");
    assert_eq!(Int(-7).repr(), "-7");
    assert_eq!(Int(i64::MIN).repr(), "-9223372036854775808");
    assert_eq!(Int(i64::MAX).repr(), "9223372036854775807");
}

#[test]
fn keywords_and_symbols() {
    assert_eq!(
        parse(": :a a:b"),
        ok(vec![
            Keyword("".to_string()),
            Keyword("a".to_string()),
            Symbol("a:b".to_string()),
        ])
    );
}

#[test]
fn top_level_keywords_stay_keywords() {
    assert_eq!(
        parse("10 :a 1"),
        ok(vec![Int(10), Keyword("a".to_string()), Int(1)])
    );
}

#[test]
fn nested_lists() {
    assert_eq!(
        parse("(1 (2 (3)) :k (4))"),
        ok(vec![List {
            args: vec![
                Int(1),
                List {
                    args: vec![
                        Int(2),
                        List {
                            args: vec![Int(3)],
                            kwargs: vec![],
                        },
                    ],
                    kwargs: vec![],
                },
            ],
            kwargs: vec![(
                "k".to_string(),
                List {
                    args: vec![Int(4)],
                    kwargs: vec![],
                }
            )],
        }])
    );
}

#[test]
fn round_trip_reparses_equal() {
    let inputs = [
        "10 20 foo",
        "(10 20 :hello 30 :asd 40 nope)",
        "\"a\\nb\" \"t\\tq\\\"u\\\\v\"",
        "(1 (2 (3)) :k (4)) sym :kw 1.5 -2.5 ()",
        "",
        ": :a a:b - -a",
    ];
    for text in inputs {
        let first = parse(text);
        let vals = match first {
            ParserResult::Success(ref v) => v,
            _ => panic!("input should parse"),
        };
        let mut rendered = String::new();
        for (i, v) in vals.iter().enumerate() {
            if i > 0 {
                rendered.push('\n');
            }
            rendered.push_str(&v.repr());
        }
        assert_eq!(parse(&rendered), first);
    }
}

#[test]
fn parse_string_decodes_escapes() {
    assert_eq!(Data::parse_string("a\\nb\\tc"), "a\nb\tc");
    assert_eq!(Data::parse_string("\\\"\\\\"), "\"\\");
    assert_eq!(Data::parse_string("plain"), "plain");
    assert_eq!(Data::parse_string(""), "");
}

#[test]
fn parse_list_reduces_children() {
    let out = Data::parse_list(vec![
        Int(1),
        Keyword("a".to_string()),
        Int(2),
        Symbol("s".to_string()),
    ]);
    assert_eq!(
        out,
        Ok((
            vec![Int(1), Symbol("s".to_string())],
            vec![("a".to_string(), Int(2))]
        ))
    );
    assert_eq!(
        Data::parse_list(vec![Keyword("a".to_string())]),
        Err(BuildError::DanglingKeyword("a".to_string()))
    );
    assert_eq!(
        Data::parse_list(vec![
            Keyword("a".to_string()),
            Int(1),
            Keyword("a".to_string()),
            Int(2)
        ]),
        Err(BuildError::DuplicateKeyword("a".to_string()))
    );
}
