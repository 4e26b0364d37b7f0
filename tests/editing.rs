use envset::{
    add_env_vars, delete_env_vars, format_env_file, needs_quoting, parse, parse_args,
    parse_env_content, print_env_file_contents, print_lines, quote_value, valid_key, Ast, Node,
};

fn get<'a>(m: &'a [(String, String)], k: &str) -> Option<&'a str> {
    m.iter().find(|(key, _)| key == k).map(|(_, v)| v.as_str())
}

fn pair(k: &str, v: &str) -> (String, String) {
    (k.to_string(), v.to_string())
}

#[test]
fn test_delete_env_vars() {
    let content = "# header\nA=a\nFOO=bar\n\nB=b # note\nFOO=again\n";
    let lines = delete_env_vars(content, &["FOO".to_string()]);
    assert_eq!(print_env_file_contents(&lines), "# header\nA=a\n\nB=b # note\n");
    let lines = delete_env_vars("A=a\nFOO=bar\nB=b\n", &["FOO".to_string()]);
    assert_eq!(print_lines(&lines), "A=a\nB=b\n");
    let lines = delete_env_vars("A=a\n", &["MISSING".to_string()]);
    assert_eq!(print_lines(&lines), "A=a\n");
}

#[test]
fn test_preserve_comments_when_setting_new_var() {
    let initial_content = "# This is a comment\nEXISTING=value\n\n# Another comment\n";
    let new_vars = vec![pair("NEW_VAR", "new_value"), pair("EXISTING", "value")];
    let lines = add_env_vars(initial_content, &new_vars);
    let final_content = print_env_file_contents(&lines);
    assert!(final_content.contains("# This is a comment\n"), "First comment should be preserved");
    assert!(final_content.contains("EXISTING=value\n"), "Existing variable should be preserved");
    assert!(final_content.contains("\n# Another comment\n"), "Second comment should be preserved");
    assert!(final_content.contains("\nNEW_VAR=new_value\n"), "New variable should be added on a new line");
    let env_vars = parse_env_content(&final_content);
    assert_eq!(get(&env_vars, "EXISTING"), Some("value"));
    assert_eq!(get(&env_vars, "NEW_VAR"), Some("new_value"));
}

#[test]
fn test_write_env_file() {
    let env_vars = vec![pair("KEY1", "value1"), pair("KEY2", "value2")];
    let text = print_env_file_contents(&add_env_vars("", &env_vars));
    let result = parse_env_content(&text);
    assert_eq!(get(&result, "KEY1"), Some("value1"));
    assert_eq!(get(&result, "KEY2"), Some("value2"));
}

#[test]
fn test_parse_stdin_with_pipe() {
    let result = parse_env_content("KEY1=value1\nKEY2=value2\n");
    assert_eq!(get(&result, "KEY1"), Some("value1"));
    assert_eq!(get(&result, "KEY2"), Some("value2"));
    assert_eq!(result.len(), 2);
}

#[test]
fn test_write_vars_with_quotes() {
    let env_vars = vec![
        pair("KEY1", r#"value with "quotes""#),
        pair("KEY2", r#"value with 'quotes'"#),
        pair("KEY3", r#"value with both 'single' and "double" quotes"#),
    ];
    let contents = print_env_file_contents(&add_env_vars("", &env_vars));
    let result = parse_env_content(&contents);
    assert_eq!(get(&result, "KEY1"), Some(r#"value with "quotes""#));
    assert_eq!(get(&result, "KEY2"), Some(r#"value with 'quotes'"#));
    assert_eq!(get(&result, "KEY3"), Some(r#"value with both 'single' and "double" quotes"#));
    assert!(contents.contains(r#"KEY1="value with \"quotes\"""#));
    assert!(contents.contains(r#"KEY2="value with 'quotes'""#));
    assert!(contents.contains(r#"KEY3="value with both 'single' and \"double\" quotes""#));
}

#[test]
fn test_last_occurence_of_duplicate_keys_updated() {
    let initial_content = "A=a\nFOO=1\nB=b\nFOO=2\n";
    let before = parse_env_content(initial_content);
    assert_eq!(get(&before, "FOO"), Some("2"));
    let lines = add_env_vars(initial_content, &[pair("FOO", "3")]);
    let final_content = print_env_file_contents(&lines);
    assert_eq!(final_content, "A=a\nFOO=1\nB=b\nFOO=3\n", "The last occurrence of FOO should be updated to 3");
    let result = parse_env_content(&final_content);
    assert_eq!(get(&result, "FOO"), Some("3"));
    assert_eq!(result.len(), 3);
    assert_eq!(final_content.matches("FOO=").count(), 2, "There should be two occurrences of FOO");
}

#[test]
fn test_multiple_var_sets() {
    let first = print_env_file_contents(&add_env_vars("", &[pair("ABCD", "123")]));
    let second = print_env_file_contents(&add_env_vars(&first, &[pair("ABCD", "123"), pair("AB", "12")]));
    assert_eq!(second, "ABCD=123\nAB=12\n");
    let result = parse_env_content(&second);
    assert_eq!(get(&result, "ABCD"), Some("123"));
    assert_eq!(get(&result, "AB"), Some("12"));
    assert_eq!(result.len(), 2);
}

#[test]
fn quote_only_when_needed() {
    assert_eq!(quote_value("simple"), "simple");
    assert_eq!(quote_value("has space"), "\"has space\"");
    assert_eq!(quote_value(""), "\"\"");
    assert_eq!(quote_value(r#"a"b\c"#), r#""a\"b\\c""#);
    assert_eq!(quote_value("x\ny"), "\"x\\ny\"");
    assert_eq!(quote_value("a\r\tb"), "\"a\\r\\tb\"");
    assert_eq!(quote_value("$HOME"), "\"$HOME\"");
    assert_eq!(quote_value("caf\u{e9}"), "\"caf\u{e9}\"");
    assert!(!needs_quoting("a.b_c-1/2:3"));
    assert!(needs_quoting("#"));
    assert!(needs_quoting("\u{7f}"));
}

#[test]
fn upsert_appends_a_new_key_at_the_end() {
    let content = "# c\nA=1 # keep\n\n";
    let mut ast = parse(content);
    let before = print_lines(&ast.nodes);
    ast.upsert("NEW", "v w", false);
    let after = print_lines(&ast.nodes);
    assert_eq!(after, format!("{}NEW=\"v w\"\n", before));
    assert!(after.starts_with("# c\nA=1 # keep\n\n"));
}

#[test]
fn upsert_keeps_or_drops_the_comment() {
    let mut ast = parse("A=1 # note\n");
    ast.upsert("A", "2", true);
    assert_eq!(print_lines(&ast.nodes), "A=2 # note\n");
    ast.upsert("A", "3", false);
    assert_eq!(print_lines(&ast.nodes), "A=3\n");
}

#[test]
fn lookup_and_map_use_the_last_entry() {
    let ast = parse("A=a\nFOO=1\nB=b\nFOO=2\nbroken line\n");
    assert_eq!(ast.lookup("FOO"), Some("2".to_string()));
    assert_eq!(ast.lookup("NOPE"), None);
    assert_eq!(ast.lookup(""), None);
    let m = ast.to_map();
    assert_eq!(m.len(), 3);
    assert_eq!(get(&m, "FOO"), Some("2"));
    assert_eq!(get(&m, "A"), Some("a"));
    assert_eq!(ast.last_index("FOO"), Some(3));
    assert_eq!(ast.first(), Some(&Node::KeyValue {
        key: "A".to_string(),
        value: "a".to_string(),
        trailing_comment: None,
    }));
    assert_eq!(ast.iter().count(), 5);
}

#[test]
fn new_and_add_node() {
    let mut ast = Ast::new();
    assert_eq!(ast.first(), None);
    ast.add_node(Node::Comment(" hi".to_string()));
    ast.add_node(Node::EmptyLine);
    assert_eq!(print_lines(&ast.nodes), "# hi\n\n");
}

#[test]
fn format_sorts_and_prunes() {
    let content = "# top\nZ=1\nEMPTY=\n\nA=2 # two\nbad line\nM=3\n";
    let kept = format_env_file(content, false);
    assert_eq!(print_lines(&kept), "# top\nA=2 # two\n\nM=3\nbad line\nZ=1\n");
    let pruned = format_env_file(content, true);
    assert_eq!(print_lines(&pruned), "A=2 # two\n\nM=3\nbad line\nZ=1\n");
}

#[test]
fn format_is_idempotent() {
    let content = "B=2\n# x\nA=1\nC=\nA=0\n";
    for prune in [false, true] {
        let once = print_lines(&format_env_file(content, prune));
        let twice = print_lines(&format_env_file(&once, prune));
        assert_eq!(once, twice);
    }
    let once = print_lines(&format_env_file(content, false));
    assert_eq!(once, "A=1\n# x\nA=0\nB=2\n");
}

#[test]
fn round_trip_keeps_values_and_layout() {
    let content = "# head\n\nexport A='x y' # c\nB=\"q\\\"r\"\nC=plain\nD=\"multi\nline\"\nE=\n";
    let d = parse(content);
    let text = print_lines(&d.nodes);
    assert_eq!(parse(&text), d);
    assert_eq!(text, "# head\n\nA=\"x y\" # c\nB=\"q\\\"r\"\nC=plain\nD=\"multi\\nline\"\nE=\"\"\n");
}

#[test]
fn parse_args_splits_at_the_first_equals() {
    let args = vec!["A=1".to_string(), "B=x=y".to_string(), "A=2".to_string()];
    let m = parse_args(&args).unwrap();
    assert_eq!(m.len(), 2);
    assert_eq!(get(&m, "A"), Some("2"));
    assert_eq!(get(&m, "B"), Some("x=y"));
    let bad = vec!["A=1".to_string(), "oops".to_string(), "also".to_string()];
    assert_eq!(
        parse_args(&bad),
        Err("Invalid argument format oops. Expected format is KEY=value".to_string())
    );
}

#[test]
fn delete_keeps_duplicates_not_named() {
    let mut ast = parse("A=1\nB=2\nA=3\n");
    ast.delete(&["B".to_string()]);
    assert_eq!(print_lines(&ast.nodes), "A=1\nA=3\n");
}

#[test]
fn keys_follow_the_grammar() {
    assert!(valid_key("A_1.b"));
    assert!(valid_key("_x"));
    assert!(!valid_key(""));
    assert!(!valid_key("1A"));
    assert!(!valid_key("A B"));
    assert!(!valid_key("K#"));
}
