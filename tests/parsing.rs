use envset::{parse, parse_line, EnvLine, Node};

fn kv(key: &str, value: &str, comment: Option<&str>) -> Node {
    Node::KeyValue {
        key: key.to_string(),
        value: value.to_string(),
        trailing_comment: comment.map(|c| c.to_string()),
    }
}

#[test]
fn test_parse() {
    let input = r#"
# This is a comment
KEY1=value1
KEY2="value2" # This is a trailing comment
KEY3=value3#not a comment
KEY4="value4#still not a comment"
# Another comment
KEY5=value5

KEY6="value6"
"#;
    let ast = parse(input);
    assert_eq!(
        ast.nodes,
        vec![
            Node::EmptyLine,
            Node::Comment(" This is a comment".to_string()),
            kv("KEY1", "value1", None),
            kv("KEY2", "value2", Some("# This is a trailing comment")),
            kv("KEY3", "value3", Some("#not a comment")),
            kv("KEY4", "value4#still not a comment", None),
            Node::Comment(" Another comment".to_string()),
            kv("KEY5", "value5", None),
            Node::EmptyLine,
            kv("KEY6", "value6", None),
        ]
    );
}

#[test]
fn test_parse_line_env() {
    let input = r#"
KEY=1
KEY2="2"
KEY3='3'
KEY4='fo ur'
KEY5="fi ve"
KEY6=s\ ix
KEY7=
KEY8=
KEY9=   # foo
KEY10  ="whitespace before ="
KEY11=    "whitespace after ="
export="export as key"
export   SHELL_LOVER=1
"#;
    let ast = parse(input);
    let expected = vec![
        Node::EmptyLine,
        kv("KEY", "1", None),
        kv("KEY2", "2", None),
        kv("KEY3", "3", None),
        kv("KEY4", "fo ur", None),
        kv("KEY5", "fi ve", None),
        kv("KEY6", "s ix", None),
        kv("KEY7", "", None),
        kv("KEY8", "", None),
        kv("KEY9", "", Some("# foo")),
        kv("KEY10", "whitespace before =", None),
        kv("KEY11", "whitespace after =", None),
        kv("export", "export as key", None),
        kv("SHELL_LOVER", "1", None),
    ];
    assert_eq!(ast.nodes, expected);
}

#[test]
fn test_parse_value_escapes() {
    let input = r#"
KEY=my\ cool\ value
KEY2=\$sweet
KEY3="awesome stuff \"mang\""
KEY4='sweet $\fgs'\''fds'
KEY5="'\"yay\\"\ "stuff"
KEY6="lol" #well you see when I say lol wh
KEY7="line 1\nline 2"
"#;
    let ast = parse(input);
    let expected = vec![
        Node::EmptyLine,
        kv("KEY", "my cool value", None),
        kv("KEY2", "$sweet", None),
        kv("KEY3", r#"awesome stuff "mang""#, None),
        kv("KEY4", "sweet $\\fgs'fds", None),
        kv("KEY5", r#"'"yay\ stuff"#, None),
        kv("KEY6", "lol", Some("#well you see when I say lol wh")),
        kv("KEY7", "line 1\nline 2", None),
    ];
    assert_eq!(ast.nodes, expected);
}

#[test]
fn test_key_value() {
    assert_eq!(parse_line("FOO=bar"), kv("FOO", "bar", None));
}

#[test]
fn test_quoted_values() {
    assert_eq!(parse_line(r#"A='foo'"#), kv("A", "foo", None));
    assert_eq!(parse_line(r#"B="foo""#), kv("B", "foo", None));
    assert_eq!(parse_line(r#"C='foo"bar'"#), kv("C", r#"foo"bar"#, None));
    assert_eq!(parse_line(r#"D="foo\"bar""#), kv("D", r#"foo"bar"#, None));
    // Inside single quotes a backslash is literal, so the last quote is left
    // open and the line cannot be read.
    assert_eq!(parse_line(r#"E='foo\'bar'"#), kv("", r#"E='foo\'bar'"#, None));
}

#[test]
fn test_comment() {
    assert_eq!(
        parse_line("# This is a comment"),
        EnvLine::Comment(" This is a comment".to_string())
    );
}

#[test]
fn pegger_test_key_value_with_trailing_comment() {
    assert_eq!(
        parse_line("FOO=bar # This is a comment"),
        kv("FOO", "bar", Some("# This is a comment"))
    );
}

#[test]
fn test_empty_line() {
    assert_eq!(parse_line(""), EnvLine::EmptyLine);
    assert_eq!(parse_line("  \t  "), EnvLine::EmptyLine);
}

#[test]
fn test_multiple_lines() {
    let input = r#"
FOO=bar
# This is a comment
KEY=value with spaces
EMPTY=
QUOTED='single quoted'
This line has no equals sign
"#;
    let lines = parse(input).nodes;
    assert_eq!(lines.len(), 7, "Expected 7 lines, got {}", lines.len());
    assert_eq!(lines[0], EnvLine::EmptyLine, "First line should be empty");
    assert_eq!(lines[1], kv("FOO", "bar", None), "Second line should be FOO=bar");
    assert_eq!(
        lines[2],
        EnvLine::Comment(" This is a comment".to_string()),
        "Third line should be a comment"
    );
    assert_eq!(
        lines[3],
        kv("KEY", "value with spaces", None),
        "Fourth line should be KEY=value with spaces"
    );
    assert_eq!(lines[4], kv("EMPTY", "", None), "Fifth line should be EMPTY=");
    assert_eq!(
        lines[5],
        kv("QUOTED", "single quoted", None),
        "Sixth line should be QUOTED='single quoted'"
    );
    assert_eq!(
        lines[6],
        kv("", "This line has no equals sign", None),
        "Seventh line should be 'This line has no equals sign'"
    );
}

#[test]
fn test_parse_single_key() {
    let result = parse("KEY=value\n").nodes;
    assert_eq!(result, vec![kv("KEY", "value", None)]);
}

#[test]
fn test_parse_multiple_keys() {
    let result = parse("KEY1=value1\nKEY2=value2\nKEY3=value3\n").nodes;
    assert_eq!(
        result,
        vec![
            kv("KEY1", "value1", None),
            kv("KEY2", "value2", None),
            kv("KEY3", "value3", None),
        ]
    );
}

#[test]
fn test_simple_key_value_pair() {
    let result = parse("KEY=value\n").nodes;
    assert_eq!(result.len(), 1);
    match &result[0] {
        Node::KeyValue { key, value, trailing_comment } => {
            assert_eq!(key, "KEY");
            assert_eq!(value, "value");
            assert_eq!(trailing_comment, &None);
        }
        _ => panic!("Expected KeyValue, got {:?}", result[0]),
    }
}

#[test]
fn test_multiple_key_value_pairs() {
    let result = parse("KEY1=value1\nKEY2=value2\nKEY3=value3\n").nodes;
    assert_eq!(result.len(), 3);
    let expected = vec![("KEY1", "value1"), ("KEY2", "value2"), ("KEY3", "value3")];
    for (i, (expected_key, expected_value)) in expected.iter().enumerate() {
        match &result[i] {
            Node::KeyValue { key, value, trailing_comment } => {
                assert_eq!(key, expected_key);
                assert_eq!(value, expected_value);
                assert_eq!(trailing_comment, &None);
            }
            _ => panic!("Expected KeyValue, got {:?}", result[i]),
        }
    }
}

#[test]
fn test_whole_line_comment() {
    let result = parse("# This is a comment\n").nodes;
    assert_eq!(result.len(), 1);
    match &result[0] {
        Node::Comment(comment) => assert_eq!(comment, " This is a comment"),
        _ => panic!("Expected Comment, got {:?}", result[0]),
    }
}

#[test]
fn parser_test_key_value_with_trailing_comment() {
    let result = parse("KEY=value # This is a trailing comment\n").nodes;
    assert_eq!(result.len(), 1);
    match &result[0] {
        Node::KeyValue { key, value, trailing_comment } => {
            assert_eq!(key, "KEY");
            assert_eq!(value, "value");
            assert_eq!(trailing_comment, &Some("# This is a trailing comment".to_string()));
        }
        _ => panic!("Expected KeyValue, got {:?}", result[0]),
    }
}

#[test]
fn test_env_var_with_mixed_comments() {
    let input = "# Comment before\nKEY1=value1\n# Comment in between\nKEY2=value2\n# Comment after\n";
    let result = parse(input).nodes;
    assert_eq!(
        result,
        vec![
            Node::Comment(" Comment before".to_string()),
            kv("KEY1", "value1", None),
            Node::Comment(" Comment in between".to_string()),
            kv("KEY2", "value2", None),
            Node::Comment(" Comment after".to_string()),
        ]
    );
}

#[test]
fn test_value_with_trailing_whitespace() {
    let result = parse("KEY=value with space   \n").nodes;
    assert_eq!(result, vec![kv("KEY", "value with space", None)]);
}

#[test]
fn test_multiline_quoted_value() {
    let input = r#"MULTILINE="
  a multiline comment
  spanning several
  lines
  # not a comment
""#;
    let result = parse(input).nodes;
    // Quoted text keeps its blanks and line breaks, the last one included.
    assert_eq!(
        result,
        vec![kv(
            "MULTILINE",
            "\n  a multiline comment\n  spanning several\n  lines\n  # not a comment\n",
            None
        )]
    );
}

#[test]
fn test_multiline_json_value() {
    let input = r#"JSON_CONFIG='{
  "key1": "value1",
  "key2": {
    "nested_key": "nested_value"
  },
  "key3": [1, 2, 3]
}'"#;
    let result = parse(input).nodes;
    assert_eq!(
        result,
        vec![kv(
            "JSON_CONFIG",
            r#"{
  "key1": "value1",
  "key2": {
    "nested_key": "nested_value"
  },
  "key3": [1, 2, 3]
}"#,
            None
        )]
    );
}

#[test]
fn comment_hash_inside_quotes_is_value() {
    assert_eq!(parse_line(r#"KEY="value#notcomment""#), kv("KEY", "value#notcomment", None));
    assert_eq!(parse_line("KEY=value #real comment"), kv("KEY", "value", Some("#real comment")));
}

#[test]
fn double_quote_escape_is_unescaped() {
    assert_eq!(parse_line(r#"KEY="a\"b""#), kv("KEY", "a\"b", None));
    assert_eq!(parse_line(r#"KEY="t\tr\rq\q""#), kv("KEY", "t\tr\rq\\q", None));
    assert_eq!(parse_line(r#"KEY=a\nb"#), kv("KEY", "a\nb", None));
}

#[test]
fn crlf_line_breaks() {
    let nodes = parse("A=1\r\n# c\r\n\r\nB=2 #x\r\n").nodes;
    assert_eq!(
        nodes,
        vec![
            kv("A", "1", None),
            Node::Comment(" c".to_string()),
            Node::EmptyLine,
            kv("B", "2", Some("#x")),
        ]
    );
}

#[test]
fn malformed_lines_are_kept_as_text() {
    let nodes = parse("1KEY=x\nA=\"open\nB=ok\nC=end\\").nodes;
    // A quote left open to the end of the text makes only its own line
    // unreadable; the lines after it are read as usual.
    assert_eq!(
        nodes,
        vec![
            kv("", "1KEY=x", None),
            kv("", "A=\"open", None),
            kv("B", "ok", None),
            kv("", "C=end\\", None),
        ]
    );
    let nodes = parse("K='a\nB=2\n").nodes;
    assert_eq!(nodes, vec![kv("", "K='a", None), kv("B", "2", None)]);
    let nodes = parse("A=x\\\nB=y\n").nodes;
    assert_eq!(nodes, vec![kv("", "A=x\\", None), kv("B", "y", None)]);
}

#[test]
fn unicode_blanks_are_whitespace() {
    let nodes = parse("\u{a0}\n\u{2003}# note\nK=\u{3000}v\u{a0}\n").nodes;
    assert_eq!(
        nodes,
        vec![Node::EmptyLine, Node::Comment(" note".to_string()), kv("K", "v", None)]
    );
}

#[test]
fn crlf_and_lf_read_alike() {
    let lf = "# c\nbad line\nA=\"x\ny\"\n\nB=1 #t\n";
    let crlf = lf.replace('\n', "\r\n");
    assert_eq!(parse(&crlf), parse(lf));
    assert_eq!(parse("bad\r\n").nodes, vec![kv("", "bad", None)]);
}

#[test]
fn quoted_value_spans_lines() {
    let nodes = parse("A=\"x\ny\" # c\nB=2\n").nodes;
    assert_eq!(nodes, vec![kv("A", "x\ny", Some("# c")), kv("B", "2", None)]);
}

#[test]
fn unreadable_lines_survive_a_round_trip() {
    for text in [
        "1KEY=x\r\nA=ok\nbroken line\n",
        "A=x\\\nB=\"y z\"\n",
        "A=1\nB=\"never closed\nC=3\n",
        "A='open",
        "X=\\",
    ] {
        let d = parse(text);
        let written = envset::print_lines(&d.nodes);
        assert_eq!(parse(&written), d, "text {:?}", text);
    }
}

#[test]
fn open_quote_can_close_on_rewritten_lines() {
    let d = parse("K=\"a\nB='x #y'\n");
    assert_eq!(d.nodes, vec![kv("", "K=\"a", None), kv("B", "x #y", None)]);
    let written = envset::print_lines(&d.nodes);
    assert_eq!(written, "K=\"a\nB=\"x #y\"\n");
    assert_eq!(parse(&written).nodes, vec![kv("K", "a\nB=x", Some("#y\""))]);
}
