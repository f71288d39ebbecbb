use sdn::data::Data::{Int, List, Str, Symbol};
use sdn::data_vec_for_file;
use sdn::parser::{parse, ParserResult};

#[test]
fn unnamed() {
    assert_eq!(
        data_vec_for_file(vec![
            List {
                args: vec![Int(10), Int(20)],
                kwargs: vec![],
            },
            Symbol("hello".to_string()),
            List {
                args: vec![Str("hmm".into()), Str("this is great".into())],
                kwargs: vec![],
            },
        ])
        .as_str(),
        vec!["(10 20)", "hello", r#"("hmm" "this is great")"#].join("\n"),
    );
}

#[test]
fn rendered_file_reparses() {
    let text = "(10 20)\nhello\n(\"hmm\" \"this is great\")";
    let vals = match parse(text) {
        ParserResult::Success(v) => v,
        _ => panic!("input should parse"),
    };
    let rendered = data_vec_for_file(vals);
    assert_eq!(rendered, text);
}
