use rumblebars::{eval, parse, EvalContext, EvalError, HBData, HTMLSafeWriter, SafeWriting};
use rustc_serialize::json::Json;

fn to_data(j: &Json) -> HBData {
    match j {
        Json::I64(i) => HBData::Int(*i),
        Json::U64(u) => {
            if *u <= i64::MAX as u64 {
                HBData::Int(*u as i64)
            } else {
                HBData::Scalar(u.to_string(), true)
            }
        }
        Json::F64(f) => HBData::Scalar(f.to_string(), *f != 0.0 && !f.is_nan()),
        Json::String(s) => HBData::Str(s.clone()),
        Json::Boolean(b) => HBData::Bool(*b),
        Json::Array(a) => HBData::Array(a.iter().map(to_data).collect()),
        Json::Object(o) => HBData::Object(o.iter().map(|(k, v)| (k.clone(), to_data(v))).collect()),
        Json::Null => HBData::Null,
    }
}

fn render_with(template: &str, json: &str, ctx: &EvalContext) -> String {
    let data = to_data(&Json::from_str(json).ok().unwrap());
    let tmpl = parse(template).ok().unwrap();
    eval(&tmpl, &data, ctx).ok().unwrap()
}

fn render(template: &str, json: &str) -> String {
    render_with(template, json, &EvalContext::new())
}

fn test_eq_expected(template: &str, json: &str, expected: &str) {
    assert_eq!(render(template, json), expected);
}

#[test]
fn simple_render() {
    test_eq_expected("{{p}}", r##"{"p": "that poney has something sad in its eye"}"##, "that poney has something sad in its eye");
}

#[test]
fn simple_render_with_raw() {
    test_eq_expected(
        "prelude {{p}} post",
        r##"{"p": "that poney has something sad in its eye"}"##,
        "prelude that poney has something sad in its eye post",
    );
}

#[test]
fn simple_render_with_block() {
    test_eq_expected(
        "prelude {{#p}}{{k}}{{/p}} post",
        r##"{"p": { "k": "that poney has something sad in its eye"}}"##,
        "prelude that poney has something sad in its eye post",
    );
}

#[test]
fn from_str() {
    test_eq_expected("{{p}}", r##"{"p": "hello"}"##, "hello");
}

#[test]
fn iteration_with_block() {
    test_eq_expected("{{#p}}{{.}}{{/p}}", r##"{"p": [ 1, 2, 3, 4]}"##, "1234");
}

#[test]
fn iteration_with_rich_block() {
    test_eq_expected(
        "{{#p}}{{i}}({{j}}){{/p}}",
        r##"{"p": [ {"i": 1, "j": "a"}, {"i": 2, "j": "b"}, {"i": 3, "j": "c"}, {"i": 4, "j": "d"}]}"##,
        "1(a)2(b)3(c)4(d)",
    );
}

#[test]
fn parent_key() {
    test_eq_expected("{{#a}}{{b}}{{../c}}{{/a}}", r##"{"a": {"b": "bb"}, "c": "ccc"}"##, "bbccc");
}

#[test]
fn iteration_with_block_and_parent_key() {
    test_eq_expected("{{#p}}{{.}}{{../b}}{{/p}}", r##"{"p": [ 1,  2,  3,  4], "b": "-"}"##, "1-2-3-4-");
}

#[test]
fn partial() {
    let mut ctx = EvalContext::new();
    ctx.register_partial("test".to_string(), parse("found this {{a}}").ok().unwrap());
    assert_eq!(render_with("{{>test}}", r##"{"a": "data"}"##, &ctx), "found this data");
}

#[test]
fn partial_block() {
    let mut ctx = EvalContext::new();
    ctx.register_partial("test".to_string(), parse("found this {{a}}").ok().unwrap());
    ctx.register_partial("check".to_string(), parse("yep, was found {{.}} ").ok().unwrap());
    assert_eq!(
        render_with("{{>test}} and {{#b}}{{>check}}{{/b}}", r##"{"a": "data", "b": ["i", "j", "k"]}"##, &ctx),
        "found this data and yep, was found i yep, was found j yep, was found k "
    );
}

#[test]
fn leading_whitespace() {
    test_eq_expected("{{#p~}}\n\n        Pouet\n\n        {{/p}}", r##"{"p": {}}"##, "Pouet\n\n");
}

#[test]
fn both_whitespace() {
    test_eq_expected("{{#p~}}\n\n        Pouet pouet\n\n        {{~/p}}", r##"{"p": {}}"##, "Pouet pouet");
}

#[test]
fn nested_whitespace() {
    test_eq_expected(
        "{{~#p~}}\n\n        {{#u~}} Uuuuu {{/u~}}\n        ooOOOO\n        {{/p}}",
        r##"{"p": {"u": {}}}"##,
        "Uuuuu ooOOOO\n",
    );
}

#[test]
fn autotrim_first() {
    test_eq_expected("{{#p}}\nv{{/p}}", r##"{"p": true}"##, "v");
}

#[test]
fn autotrim_last() {
    test_eq_expected("{{#p}}v\n{{/p}}", r##"{"p": true}"##, "v\n");
}

#[test]
fn autotrim_mid() {
    test_eq_expected("o\n{{#p}}\nv\n{{/p}}\nu", r##"{"p": true}"##, "o\nv\nu");
}

#[test]
fn autotrim_mid_exp() {
    test_eq_expected("o\n{{#p}}\n{{.}}\n{{/p}}\nu", r##"{"p": " "}"##, "o\n \nu");
}

#[test]
fn autotrim_pass2() {
    test_eq_expected(
        "\n        2)\n        {{#p}}\n          o\n          {{#u}}{{/u}}\n\n          {{#u}}\n          uU\n          {{/u}}\n\n        {{else}}\n        {{/p}}\n      ",
        r##"{"p": {"u": {}}}"##,
        "\n        2)\n          o\n          \n\n          uU\n\n      ",
    );
}

#[test]
fn autotrim_pass3() {
    test_eq_expected(
        "\n        3)\n        {{#p}}i\n          o\n\n\n        {{else}}o\n        {{/p}}\n      ",
        r##"{"p": {}}"##,
        "\n        3)\n        i\n          o\n\n\n              ",
    );
}

#[test]
fn html_escape() {
    test_eq_expected(
        "{{unsafe}}",
        r##"{"unsafe": "<script lang=\"text/javascript\">pawned()</script>"}"##,
        "&lt;script lang=&quot;text/javascript&quot;&gt;pawned()&lt;/script&gt;",
    );
}

#[test]
fn html_noescape() {
    test_eq_expected(
        "{{{unsafe}}}",
        r##"{"unsafe": "<script lang=\"text/javascript\">pawned()</script>"}"##,
        "<script lang=\"text/javascript\">pawned()</script>",
    );
}

#[test]
fn escaping_and_triple_stache() {
    let data = r##"{"u":"<script>pwn()</script>"}"##;
    test_eq_expected("{{u}}", data, "&lt;script&gt;pwn()&lt;/script&gt;");
    test_eq_expected("{{{u}}}", data, "<script>pwn()</script>");
    test_eq_expected("{{&u}}", data, "<script>pwn()</script>");
}

#[test]
fn escapes_quotes_and_backticks() {
    test_eq_expected("{{s}}", r##"{"s": "a'b`c&d"}"##, "a&#x27;b&#x60;c&amp;d");
}

#[test]
fn context_stack_parent_lookup() {
    test_eq_expected("{{#a}}{{b}}{{../c}}{{/a}}", r##"{"a":{"b":"bb"},"c":"ccc"}"##, "bbccc");
}

#[test]
fn parent_beyond_the_stack_stays_outermost() {
    test_eq_expected("{{#a}}{{../../../c}}{{/a}}", r##"{"a":{"b":"bb"},"c":"ccc"}"##, "ccc");
}

#[test]
fn array_iteration_with_globals() {
    test_eq_expected(
        "{{#each this}}{{@index}}:{{.}} {{/each}}",
        r##"["zero","one","two","three"]"##,
        "0:zero 1:one 2:two 3:three ",
    );
}

#[test]
fn standalone_block_tags() {
    test_eq_expected("{{#p}}\nv{{/p}}", r##"{"p":true}"##, "v");
    test_eq_expected("{{#p}}v\n{{/p}}", r##"{"p":true}"##, "v\n");
}

#[test]
fn standalone_partial_indents_every_line() {
    let mut ctx = EvalContext::new();
    ctx.register_partial("outer".to_string(), parse("a\n  {{>inner}}\nb\n").ok().unwrap());
    ctx.register_partial("inner".to_string(), parse("x\ny\n").ok().unwrap());
    assert_eq!(render_with("  {{>outer}}\nend", "{}", &ctx), "  a\n    x\n    y\n  b\nend");
}

#[test]
fn partial_options_fall_back() {
    let mut ctx = EvalContext::new();
    ctx.register_partial("p".to_string(), parse("{{a}}-{{b}}-{{c}}").ok().unwrap());
    assert_eq!(render_with(r##"{{>p b="lit" c=d}}"##, r##"{"a": "A", "b": "B", "d": "D"}"##, &ctx), "A-B-D");
}

#[test]
fn partial_context_parameter() {
    let mut ctx = EvalContext::new();
    ctx.register_partial("p".to_string(), parse("{{x}}").ok().unwrap());
    assert_eq!(render_with("{{>p inner}}", r##"{"inner": {"x": "in"}, "x": "out"}"##, &ctx), "in");
}

#[test]
fn missing_partial_is_an_error() {
    let data = HBData::Null;
    let tmpl = parse("a{{>nowhere}}b").ok().unwrap();
    match eval(&tmpl, &data, &EvalContext::new()) {
        Err(EvalError::MissingPartial(name)) => assert_eq!(name, "nowhere"),
        _ => panic!("missing partial expected"),
    }
}

#[test]
fn recursive_partial_stops_when_too_deep() {
    let mut ctx = EvalContext::new();
    ctx.register_partial("r".to_string(), parse("{{>r}}").ok().unwrap());
    let tmpl = parse("{{>r}}").ok().unwrap();
    assert!(matches!(eval(&tmpl, &HBData::Null, &ctx), Err(EvalError::TooDeep)));
}

#[test]
fn recursive_partial_over_data_terminates() {
    let mut ctx = EvalContext::new();
    ctx.register_partial("node".to_string(), parse("{{name}}({{#kids}}{{>node}}{{/kids}})").ok().unwrap());
    assert_eq!(
        render_with("{{>node}}", r##"{"name": "a", "kids": [{"name": "b", "kids": []}, {"name": "c"}]}"##, &ctx),
        "a(b()c())"
    );
}

#[test]
fn missing_value_renders_nothing() {
    test_eq_expected("[{{nope}}][{{a.b.c}}]", r##"{"a": 1}"##, "[][]");
}

#[test]
fn raw_text_renders_verbatim() {
    for text in ["", "plain", "multi\nline\r\n text } ~ ]", "tabs\tand } braces"] {
        test_eq_expected(text, "{}", text);
    }
}

#[test]
fn inverted_sections() {
    test_eq_expected("{{^a}}none{{/a}}", r##"{"a": []}"##, "none");
    test_eq_expected("{{^a}}none{{/a}}", r##"{"a": [1]}"##, "");
    test_eq_expected("{{^a}}none{{/a}}", r##"{"a": false}"##, "none");
    test_eq_expected("{{^a}}none{{else}}some{{/a}}", r##"{"a": true}"##, "some");
}

#[test]
fn section_else_branch() {
    test_eq_expected("{{#a}}yes{{else}}no{{/a}}", r##"{"a": 0}"##, "no");
    test_eq_expected("{{#a}}yes{{^}}no{{/a}}", r##"{"a": []}"##, "no");
}

#[test]
fn comments_render_nothing() {
    test_eq_expected("a{{! a comment }}b\n  {{! alone }}\nc", "{}", "ab\nc");
}

#[test]
fn arrays_write_comma_separated() {
    test_eq_expected("{{a}}", r##"{"a": [1, "x", true, -3]}"##, "1,x,true,-3");
}

#[test]
fn index_keys_in_arrays() {
    test_eq_expected("{{a.1}} {{a.[0]}} {{a.9}}", r##"{"a": ["x", "y"]}"##, "y x ");
}

#[test]
fn compat_mode_searches_ancestors_for_first_segment() {
    let mut ctx = EvalContext::new();
    ctx.compat = true;
    assert_eq!(render_with("{{#a}}{{c}}{{/a}}", r##"{"a": {"b": 1}, "c": "up"}"##, &ctx), "up");
    assert_eq!(render_with("{{#a}}{{b.c}}{{/a}}", r##"{"a": {"x": 1}, "b": {"c": "deep"}}"##, &ctx), "deep");
    assert_eq!(render("{{#a}}{{c}}{{/a}}", r##"{"a": {"b": 1}, "c": "up"}"##), "");
}

#[test]
fn if_true() {
    for json in ["true", "{}", "\"any\"", "[1]", "1"] {
        test_eq_expected("{{#if .}}ok{{else}}ko{{/if}}", json, "ok");
    }
    test_eq_expected("{{#if p}}ok{{else}}ko{{/if}}", r##"{"p": true}"##, "ok");
    test_eq_expected("{{#if p.q}}ok{{else}}ko{{/if}}", r##"{"p": {"q": true}}"##, "ok");
}

#[test]
fn if_false() {
    for json in ["false", "\"\"", "[]", "0"] {
        test_eq_expected("{{#if .}}ok{{else}}ko{{/if}}", json, "ko");
    }
    test_eq_expected("{{#if k}}ok{{else}}ko{{/if}}", "{}", "ko");
    test_eq_expected("{{#if p}}ok{{else}}ko{{/if}}", r##"{"p": false}"##, "ko");
    test_eq_expected("{{#if p.q}}ok{{else}}ko{{/if}}", r##"{"p": {"q": false}}"##, "ko");
}

#[test]
fn unless_helper() {
    test_eq_expected("{{#unless p}}ok{{else}}ko{{/unless}}", r##"{"p": false}"##, "ok");
    test_eq_expected("{{#unless p}}ok{{else}}ko{{/unless}}", r##"{"p": 1}"##, "ko");
}

#[test]
fn each_index() {
    test_eq_expected("{{#each this}}{{@index}}:{{.}} {{/each}}", r##"["zero", "one", "two", "three"]"##, "0:zero 1:one 2:two 3:three ");
}

#[test]
fn each_first() {
    test_eq_expected("{{#each this}}{{#if @first}}{{.}}{{/if}}{{/each}}", r##"["zero", "one", "two", "three"]"##, "zero");
}

#[test]
fn each_last() {
    test_eq_expected("{{#each this}}{{#if @last}}{{.}}{{/if}}{{/each}}", r##"["zero", "one", "two", "three"]"##, "three");
}

#[test]
fn each_keys() {
    test_eq_expected(
        "{{#this}}{{#each this}}{{@key}}:{{.}} {{/each}}{{/this}}",
        r##"[{"one": 1}, {"two": 2}, {"three": 3}]"##,
        "one:1 two:2 three:3 ",
    );
}

#[test]
fn each_empty_uses_else() {
    test_eq_expected("{{#each a}}x{{else}}empty{{/each}}", r##"{"a": []}"##, "empty");
}

#[test]
fn lookup() {
    test_eq_expected("{{#t}}{{lookup j}}{{/t}}", r##"{"t": {"j": "../u"}, "u": "u content"}"##, "u content");
}

#[test]
fn lookup_with_context() {
    test_eq_expected(
        "{{#t}}path is {{j}} : {{lookup @root j}}{{/t}}",
        r##"{"t": {"j": "u.v"}, "u": {"v": "v content"}}"##,
        "path is u.v : v content",
    );
}

#[test]
fn with() {
    test_eq_expected("{{#with t}}{{j}}{{/with}}", r##"{"t": {"j": "result"}}"##, "result");
    test_eq_expected("{{#with t}}{{j}}{{else}}none{{/with}}", r##"{"t": false}"##, "none");
}

#[test]
fn helper_cond() {
    test_eq_expected(
        "value : {{#if p}}p true{{else}}p false{{/if}} {{#if z}}z true{{else}}z false{{/if}}",
        r##"{"p": true, "z": false, "r": "rumble"}"##,
        "value : p true z false",
    );
}

#[test]
fn root_global() {
    test_eq_expected("{{@root.i}} {{#c}}{{@root.i}}{{/c}}", r##"{"i": "i_root", "c": {"b": "pouet"}}"##, "i_root i_root");
}

#[test]
fn registered_helper_alias() {
    let mut ctx = EvalContext::new();
    ctx.register_helper("when".to_string(), rumblebars::Helper::If);
    assert_eq!(render_with("{{#when a}}yes{{/when}}", r##"{"a": 1}"##, &ctx), "yes");
}

#[test]
fn compile_call() {
    let data = to_data(&Json::from_str(r##"{"a": 1}"##).unwrap());
    let templ = Vec::new();
    assert_eq!(eval(&templ, &data, &EvalContext::new()).unwrap(), "");
}

#[test]
fn safe_writer_escapes_unless_opted_out() {
    let mut w = HTMLSafeWriter::new();
    w.write(SafeWriting::Safe, "<>");
    w.write(SafeWriting::Safe.into_unsafe(), "<>");
    assert_eq!(w.into_string(), "&lt;&gt;<>");
    assert_eq!(SafeWriting::with_html_safe_writer("a&b"), "a&amp;b");
}

#[test]
fn trailing_whitespace() {
    test_eq_expected("{{#p~}}\n\n        Pouet\n\n        {{/p}}", r##"{"p": {}}"##, "Pouet\n\n");
}

#[test]
fn each_over_keyed_collection_exposes_key() {
    test_eq_expected("{{#each o}}{{@key}}={{.}};{{/each}}", r##"{"o": {"a": 1, "b": 2}}"##, "a=1;b=2;");
}

#[test]
fn index_global_outside_each_keeps_context() {
    test_eq_expected("{{#a}}[{{@index}}]{{/a}}", r##"{"a": "x"}"##, "[x]");
}

#[test]
fn compat_first_key_after_this_or_global() {
    let mut ctx = EvalContext::new();
    ctx.compat = true;
    assert_eq!(render_with("{{#a}}{{./c}}{{/a}}", r##"{"a": {"b": 1}, "c": "up"}"##, &ctx), "up");
    assert_eq!(render_with("{{#a}}{{#each this}}{{@key}}{{/each}}{{/a}}", r##"{"a": {"b": 1}}"##, &ctx), "b");
    assert_eq!(render_with("{{#a}}{{b.c}}{{/a}}", r##"{"a": {"b": {}}, "c": "up"}"##, &ctx), "");
}

#[test]
fn lookup_reads_the_plain_key_text() {
    test_eq_expected("{{lookup k}}", r##"{"k": "[a&b]", "a&b": "amp"}"##, "amp");
}

#[test]
fn empty_standalone_partial_leaves_no_line() {
    let mut ctx = EvalContext::new();
    ctx.register_partial("p".to_string(), parse("").ok().unwrap());
    assert_eq!(render_with("a\n  {{>p}}\nb", "{}", &ctx), "a\nb");
}

#[test]
fn new_context_has_the_five_helpers() {
    let ctx = EvalContext::new();
    for h in ["if", "unless", "each", "with", "lookup"] {
        assert!(ctx.has_helper_with_name(&h.to_string()));
    }
    assert!(!ctx.has_helper_with_name(&"p".to_string()));
    assert!(ctx.partials().is_empty());
    assert!(!ctx.compat);
}

#[test]
fn registering_keeps_other_entries() {
    let mut ctx = EvalContext::new();
    ctx.register_partial("a".to_string(), parse("A").ok().unwrap());
    ctx.register_partial("b".to_string(), parse("B").ok().unwrap());
    ctx.register_partial("a".to_string(), parse("A2").ok().unwrap());
    assert_eq!(render_with("{{>a}}{{>b}}", "{}", &ctx), "A2B");
}
