use rumblebars::{eval, parse, EvalContext, HBData};

fn data(json: &str) -> HBData {
    match json {
        "{}" => HBData::Object(Vec::new()),
        "1" => HBData::Int(1),
        _ => panic!("unexpected data"),
    }
}

fn test_eq_expected(template: &str, json: &str, expected: &str) {
    let tmpl = parse(template).ok().unwrap();
    assert_eq!(eval(&tmpl, &data(json), &EvalContext::new()).unwrap(), expected);
}

#[test]
fn simple_empty() {
    test_eq_expected("", "{}", "");
}

#[test]
fn simple_none() {
    test_eq_expected("{{none}}", "{}", "");
}

#[test]
fn simple_none_both() {
    test_eq_expected(" {{none}} ", "{}", "  ");
}

#[test]
fn simple_simple_left() {
    test_eq_expected(" {{none}}|", "{}", " |");
}

#[test]
fn simple_simple_right() {
    test_eq_expected("|{{none}} ", "{}", "| ");
}

#[test]
fn simple_trim_right() {
    test_eq_expected("|{{none~}} ", "{}", "|");
}

#[test]
fn simple_trim_left() {
    test_eq_expected(" {{~none}}|", "{}", "|");
}

#[test]
fn simple_trim_both() {
    test_eq_expected(" {{~none~}} ", "{}", "");
}

#[test]
fn simple_trim_left_with_raw() {
    test_eq_expected(" t {{~.}} t ", "1", " t1 t ");
}

#[test]
fn simple_trim_right_with_raw() {
    test_eq_expected(" t {{.~}} t ", "1", " t 1t ");
}

#[test]
fn simple_trim_both_with_raw() {
    test_eq_expected(" t {{~none~}} t ", "{}", " tt ");
}

#[test]
fn simple_trim_new_lines() {
    test_eq_expected("\n {{none}} \n", "{}", "\n  \n");
}

#[test]
fn simple_no_trim_seq() {
    test_eq_expected(" |{{none}} {{none}}| ", "{}", " | | ");
}

#[test]
fn simple_trim_seq_first() {
    test_eq_expected(" |{{none~}} {{none}}| ", "{}", " || ");
}

#[test]
fn simple_trim_seq_sec() {
    test_eq_expected(" |{{none}} {{~none}}| ", "{}", " || ");
}

#[test]
fn blocks_none() {
    test_eq_expected("{{#none}}{{/none}}", "{}", "");
}

#[test]
fn blocks_none_both() {
    test_eq_expected(" {{#none}}{{/none}} ", "{}", "  ");
}

#[test]
fn blocks_simple_left() {
    test_eq_expected(" {{#none}}{{/none}}|", "{}", " |");
}

#[test]
fn blocks_simple_right() {
    test_eq_expected("|{{#none}}{{/none}} ", "{}", "| ");
}

#[test]
fn blocks_trim_right() {
    test_eq_expected("|{{#none}}{{/none~}} ", "{}", "|");
}

#[test]
fn blocks_trim_left() {
    test_eq_expected(" {{~#none}}{{/none}}|", "{}", "|");
}

#[test]
fn blocks_trim_both() {
    test_eq_expected(" {{~#none}}{{/none~}} ", "{}", "");
}

#[test]
fn blocks_trim_left_with_raw() {
    test_eq_expected(" t {{~#.}}{{.}}{{/.}} t ", "1", " t1 t ");
}

#[test]
fn blocks_trim_right_with_raw() {
    test_eq_expected(" t {{#.}}{{.}}{{/.~}} t ", "1", " t 1t ");
}

#[test]
fn blocks_trim_both_with_raw() {
    test_eq_expected(" t {{~#none}}{{/none~}} t ", "{}", " tt ");
}

#[test]
fn blocks_trim_new_lines() {
    test_eq_expected("\n {{#none}}{{/none}} \n", "{}", "\n  \n");
}

#[test]
fn blocks_no_trim_seq() {
    test_eq_expected(" |{{#none}}{{/none}} {{#none}}{{/none}}| ", "{}", " | | ");
}

#[test]
fn blocks_trim_seq_first() {
    test_eq_expected(" |{{#none}}{{/none~}} {{#none}}{{/none}}| ", "{}", " || ");
}

#[test]
fn blocks_trim_seq_sec() {
    test_eq_expected(" |{{#none}}{{/none}} {{~#none}}{{/none}}| ", "{}", " || ");
}
