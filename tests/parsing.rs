use rumblebars::{parse, parse_hb_expression, HBEntry, HBExpression, HBValHolder, ParseError};

const BIG: &str = r##"
    conten content
    {{pouet.so1}}
    {{#pouet2}} do do do {{/pouet2}}
    {{#pouet3}} do do do {{/pouet3 }}
    {{#deep}}
      zero
      {{#deep1}}
        one
        {{#deep2}}
          two
          {{#deep3}}
            bottom 3
            {{at.level.3}}
          {{/deep3}}
        {{/deep2}}
        {{level1}}
      {{/deep1}}
    {{/deep}}
    {{{toto }}}
    {{{toto2 coyote=speed.runner hello=how tip="top"}}}
    {{{toto3.[3].[#jojo] titi="grominet"}}}
    {{t "… param1" well.[that my baby].[1] ~}}
  "##;

const MEDIUM: &str = r##"<h1>RumbleBars commits</h1>

<ul>
{{#each}}
  <li>
    <div class="head">
      {{#if commit}}<div>{{commit.message}}</div>{{/if}}
      {{#if commit.author}}
        <div>{{commit.author.name}} — <span>{{sha}}</span></div>
        <div>{{commit.author.date}}</div>
      {{else}}
        -- no author --
      {{/if}}
    </div>
  </li>
{{/each}}
</ul>
"##;

fn expression(text: &str) -> HBExpression {
    match parse_hb_expression(text) {
        Ok((_, e, _)) => e,
        Err(_) => panic!("expression should parse"),
    }
}

fn path_param(e: &HBExpression, i: usize) -> Vec<String> {
    match e.params.get(i).unwrap() {
        HBValHolder::Path(p) => p.clone(),
        _ => vec![],
    }
}

fn string_param(e: &HBExpression, i: usize) -> String {
    match e.params.get(i).unwrap() {
        HBValHolder::String(s) => s.clone(),
        _ => "".to_string(),
    }
}

#[test]
fn parse_hb_simple() {
    assert!(match parse_hb_expression("{{i}}") {
        Ok(_) => true,
        Err(_) => false,
    })
}

#[test]
fn parse_hb_simple_base() {
    match parse_hb_expression("{{i}}") {
        Ok((_, ok, _)) => assert_eq!(ok.base, vec!["i"]),
        Err(_) => (),
    }
}

#[test]
fn parse_hb_simple_base_path() {
    match parse_hb_expression("{{i.j}}") {
        Ok((_, ok, _)) => assert_eq!(ok.base, vec!["i", "j"]),
        Err(_) => (),
    }
}

#[test]
fn parse_hb_simple_base_esc_path() {
    match parse_hb_expression("{{[i]}}") {
        Ok((_, ok, _)) => assert_eq!(ok.base, vec!["i"]),
        Err(_) => (),
    }
}

#[test]
fn hb_simple_this_path() {
    assert_eq!(expression("{{.}}").base, vec!["."]);
}

#[test]
fn hb_this_path() {
    assert_eq!(expression("{{./p}}").base, vec![".", "p"]);
}

#[test]
fn hb_string_param() {
    let e = expression(r##"{{p "string"}}"##);
    assert_eq!(e.base, vec!["p"]);
    assert_eq!(string_param(&e, 0), "string".to_string());
}

#[test]
fn hb_prop_path_param() {
    let e = expression(r##"{{p some.path}}"##);
    assert_eq!(e.base, vec!["p"]);
    assert_eq!(path_param(&e, 0), vec!["some", "path"]);
}

#[test]
fn hb_2_params() {
    let e = expression(r##"{{p some path}}"##);
    assert_eq!(e.base, vec!["p"]);
    assert_eq!(path_param(&e, 0), vec!["some"]);
    assert_eq!(path_param(&e, 1), vec!["path"]);
}

#[test]
fn hb_3_params() {
    let e = expression(r##"{{p some.path "with_string" yep}}"##);
    assert_eq!(e.base, vec!["p"]);
    assert_eq!(path_param(&e, 0), vec!["some", "path"]);
    assert_eq!(string_param(&e, 1), "with_string".to_string());
    assert_eq!(path_param(&e, 2), vec!["yep"]);
}

#[test]
fn hb_full_feat_param() {
    let e = expression(r##"{{t "… param1" well.[that my baby].[1] ~}}"##);
    assert_eq!(e.base, vec!["t"]);
    assert_eq!(string_param(&e, 0), "… param1".to_string());
    assert_eq!(path_param(&e, 1), vec!["well", "that my baby", "1"]);
    assert!(e.render_options.no_trailing_whitespace);
}

#[test]
fn hb_option() {
    let e = expression(r##"{{t opt=u ~}}"##);
    assert_eq!(e.base, vec!["t"]);
    assert_eq!(
        ("opt".to_string(), vec!["u".to_string()]),
        match e.options.get(0).unwrap() {
            (o, HBValHolder::Path(p)) => (o.clone(), p.clone()),
            _ => ("".to_string(), vec![]),
        }
    );
    assert!(e.render_options.no_trailing_whitespace);
}

#[test]
fn hb_mutli_options() {
    let e = expression(r##"{{t opt=u opt2="v" ~}}"##);
    assert_eq!(e.base, vec!["t"]);
    assert_eq!(
        ("opt".to_string(), vec!["u".to_string()]),
        match e.options.get(0).unwrap() {
            (o, HBValHolder::Path(p)) => (o.clone(), p.clone()),
            _ => ("".to_string(), vec![]),
        }
    );
    assert_eq!(
        ("opt2".to_string(), "v".to_string()),
        match e.options.get(1).unwrap() {
            (o, HBValHolder::String(s)) => (o.clone(), s.clone()),
            _ => ("".to_string(), "".to_string()),
        }
    );
    assert!(e.render_options.no_trailing_whitespace);
}

#[test]
fn hb_param_options() {
    let e = expression(r##"{{t o.[t}+=] opt="v" ~}}"##);
    assert_eq!(e.base, vec!["t"]);
    assert_eq!(vec!["o", "t}+="], path_param(&e, 0));
    assert_eq!(
        ("opt".to_string(), "v".to_string()),
        match e.options.get(0).unwrap() {
            (o, HBValHolder::String(s)) => (o.clone(), s.clone()),
            _ => ("".to_string(), "".to_string()),
        }
    );
    assert!(e.render_options.no_trailing_whitespace);
}

#[test]
fn it_works() {
    let t = parse(BIG);
    assert!(match t {
        Ok(_) => true,
        Err(_) => false,
    })
}

#[test]
fn test_hb_simple() {
    assert!(match parse_hb_expression("{{i}}") {
        Ok(_) => true,
        Err(_) => false,
    })
}

#[test]
fn test_hb_simple_base() {
    match parse_hb_expression("{{i}}") {
        Ok((_, ok, _)) => assert_eq!(ok.base, vec!["i"]),
        Err(_) => (),
    }
}

#[test]
fn test_hb_simple_base_path() {
    match parse_hb_expression("{{i.j}}") {
        Ok((_, ok, _)) => assert_eq!(ok.base, vec!["i", "j"]),
        Err(_) => (),
    }
}

#[test]
fn test_hb_simple_base_esc_path() {
    match parse_hb_expression("{{[i]}}") {
        Ok((_, ok, _)) => assert_eq!(ok.base, vec!["i"]),
        Err(_) => (),
    }
}

#[test]
fn test_fail_block() {
    assert!(match parse("{{#o}}{{/t}}") {
        Err((ParseError::UnmatchedBlock, _)) => true,
        Err(_) => false,
        Ok(_) => false,
    })
}

#[test]
fn test_fail_nested_block() {
    assert!(match parse("{{#o}}{{/i}}{{/o}}") {
        Err((ParseError::UnmatchedBlock, _)) => true,
        Err(_) => false,
        Ok(_) => false,
    })
}

#[test]
fn test_parse_raw() {
    let p = parse("tada").unwrap();
    assert_eq!(
        "tada",
        match p.get(0) {
            Some(HBEntry::Raw(s)) => s.as_str(),
            _ => "",
        }
    );
}

#[test]
fn mod_big_no_err() {
    let t = parse(BIG);
    assert!(match t {
        Ok(_) => true,
        Err((_, mesg)) => {
            println!("{}", mesg.unwrap_or("".to_string()));
            false
        }
    })
}

#[test]
fn medium() {
    let t = parse(MEDIUM);
    assert!(match t {
        Ok(_) => true,
        Err((_, mesg)) => {
            println!("{}", mesg.unwrap_or("".to_string()));
            false
        }
    })
}

#[test]
fn mod_fail_block() {
    assert!(match parse("{{#o}}{{/t}}") {
        Err((ParseError::UnmatchedBlock, _)) => true,
        Err(_) => false,
        Ok(_) => false,
    })
}

#[test]
fn mod_fail_nested_block() {
    assert!(match parse("{{#o}}{{/i}}{{/o}}") {
        Err((ParseError::UnmatchedBlock, _)) => true,
        Err(_) => false,
        Ok(_) => false,
    })
}

#[test]
fn test_parse_big_no_err() {
    let t = parse(BIG);
    assert!(match t {
        Ok(_) => true,
        Err((_, mesg)) => {
            println!("{}", mesg.unwrap_or("".to_string()));
            false
        }
    })
}

#[test]
fn test_parse_fail_block() {
    assert!(match parse("{{#o}}{{/t}}") {
        Err((ParseError::UnmatchedBlock, _)) => true,
        Err(_) => false,
        Ok(_) => false,
    })
}

#[test]
fn test_parse_fail_nested_block() {
    assert!(match parse("{{#o}}{{/i}}{{/o}}") {
        Err((ParseError::UnmatchedBlock, _)) => true,
        Err(_) => false,
        Ok(_) => false,
    })
}

#[test]
fn parse_raw() {
    let p = parse("tada").unwrap();
    assert_eq!(
        "tada",
        match p.get(0) {
            Some(HBEntry::Raw(s)) => s.as_str(),
            _ => "",
        }
    );
}

#[test]
fn parse_exp() {
    let p = parse("{{tada}}").unwrap();
    assert_eq!(
        "tada",
        match p.get(0) {
            Some(HBEntry::Eval(HBExpression { base, .. })) => base[0].as_str(),
            _ => "",
        }
    );
}

#[test]
fn parse_else_block() {
    let p = parse("{{#tada}}i{{else}}o{{/tada}}").unwrap();
    assert_eq!(
        true,
        match p.get(0) {
            Some(HBEntry::Eval(HBExpression { block, else_block, .. })) => match (block, else_block) {
                (Some(_), Some(_)) => true,
                _ => false,
            },
            _ => false,
        }
    );
}

#[test]
fn parse_exp_entangled() {
    let p = parse("tidi {{tada}} todo {{tudu}} bar").unwrap();
    let raw = |i: usize| match p.get(i) {
        Some(HBEntry::Raw(s)) => s.clone(),
        _ => "".to_string(),
    };
    let base = |i: usize| match p.get(i) {
        Some(HBEntry::Eval(HBExpression { base, .. })) => base[0].clone(),
        _ => "".to_string(),
    };
    assert_eq!("tidi ", raw(0));
    assert_eq!("tada", base(1));
    assert_eq!(" todo ", raw(2));
    assert_eq!("tudu", base(3));
    assert_eq!(" bar", raw(4));
}

#[test]
fn unexpected_block_close() {
    assert!(matches!(parse("a{{/o}}"), Err((ParseError::UnexpectedBlockClose, _))));
}

#[test]
fn unclosed_block_is_unmatched() {
    assert!(matches!(parse("{{#o}}a"), Err((ParseError::UnmatchedBlock, _))));
}

#[test]
fn distinct_paths_do_not_match() {
    for (a, b) in [("o", "t"), ("a.b", "a.c"), ("x", "x.y"), ("[q r]", "q")] {
        let text = format!("{{{{#{}}}}}{{{{/{}}}}}", a, b);
        assert!(matches!(parse(&text), Err((ParseError::UnmatchedBlock, _))), "{}", text);
    }
}

#[test]
fn compiling_twice_gives_equal_entries() {
    for text in [BIG, MEDIUM, "a {{#b}}c{{else}}d{{/b}} {{>p x k=v}}"] {
        let a = format!("{:?}", parse(text).unwrap());
        let b = format!("{:?}", parse(text).unwrap());
        assert_eq!(a, b);
    }
}

#[test]
fn escaped_braces_stay_raw() {
    let p = parse("\\{{x}} \\\\").unwrap();
    assert_eq!(p.len(), 1);
    match &p[0] {
        HBEntry::Raw(s) => assert_eq!(s, "{{x}} \\"),
        _ => panic!("raw expected"),
    }
}

#[test]
fn unclosed_tag_is_raw() {
    let p = parse("a {{b").unwrap();
    match &p[0] {
        HBEntry::Raw(s) => assert_eq!(s, "a {{b"),
        _ => panic!("raw expected"),
    }
}

#[test]
fn standalone_partial_keeps_indent() {
    let p = parse("a\n  {{>part}}\nb").unwrap();
    assert_eq!(p.len(), 3);
    match &p[0] {
        HBEntry::Raw(s) => assert_eq!(s, "a\n"),
        _ => panic!("raw expected"),
    }
    match &p[1] {
        HBEntry::Partial(e) => assert_eq!(e.render_options.indent, Some("  ".to_string())),
        _ => panic!("partial expected"),
    }
    match &p[2] {
        HBEntry::Raw(s) => assert_eq!(s, "b"),
        _ => panic!("raw expected"),
    }
}

#[test]
fn expression_reports_surrounding_whitespace() {
    match parse_hb_expression("  {{x}} \n") {
        Ok((before, e, after)) => {
            assert_eq!(before, Some("  ".to_string()));
            assert_eq!(e.base, vec!["x"]);
            assert_eq!(after, Some(" \n".to_string()));
        }
        Err(_) => panic!("expression expected"),
    }
}

#[test]
fn lone_brace_is_plain_text() {
    let p = parse("a { b } c").unwrap();
    assert_eq!(p.len(), 1);
    match &p[0] {
        HBEntry::Raw(s) => assert_eq!(s, "a { b } c"),
        _ => panic!("raw expected"),
    }
}
