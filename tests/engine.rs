use yuna::commands::{choose_command, join_words, list_files, list_values, Command};
use yuna::flatten::{decimal_text, flatten_mapping, join_path};
use yuna::merge::{merge_all, merge_mappings};
use yuna::mutate::{split_name, write_value};
use yuna::template::{
    contains_open, contains_partial, data_of, get_value, next_step, read_value, render_template, resolve_value, Step,
    TemplateFailure,
};
use yuna::value::{Mapping, Value};

fn text(s: &str) -> Value {
    Value::Text(s.to_string())
}

fn num(s: &str) -> Value {
    Value::Number(s.to_string())
}

fn map(pairs: Vec<(&str, Value)>) -> Mapping {
    let mut m = Mapping::new();
    for (k, v) in pairs {
        m.insert(k.to_string(), v);
    }
    m
}

fn show(v: &Value) -> String {
    match v {
        Value::Null => "~".to_string(),
        Value::Bool(b) => b.to_string(),
        Value::Number(n) => n.clone(),
        Value::Text(s) => format!("\"{}\"", s),
        Value::Sequence(items) => {
            let parts: Vec<String> = items.iter().map(show).collect();
            format!("[{}]", parts.join(","))
        }
        Value::Mapping(m) => show_map(m),
    }
}

fn show_map(m: &Mapping) -> String {
    let parts: Vec<String> = m.entries.iter().map(|(k, v)| format!("{}:{}", k, show(v))).collect();
    format!("{{{}}}", parts.join(","))
}

#[test]
fn merge_scalar_replaced_by_structure() {
    let mut dst = map(vec![("a", num("1"))]);
    let src = map(vec![("a", Value::Mapping(map(vec![("b", num("2"))])))]);
    merge_mappings(&mut dst, &src);
    assert_eq!(show_map(&dst), "{a:{b:2}}");
}

#[test]
fn merge_structure_replaced_by_scalar() {
    let mut dst = map(vec![("a", Value::Mapping(map(vec![("b", num("2"))])))]);
    let src = map(vec![("a", num("1"))]);
    merge_mappings(&mut dst, &src);
    assert_eq!(show_map(&dst), "{a:1}");
}

#[test]
fn merge_keeps_destination_only_keys() {
    let mut dst = map(vec![("a", num("1")), ("b", num("2"))]);
    let src = map(vec![("b", num("3")), ("c", num("4"))]);
    merge_mappings(&mut dst, &src);
    assert_eq!(show_map(&dst), "{a:1,b:3,c:4}");
}

#[test]
fn merge_nested_mappings_recursively() {
    let mut dst = map(vec![("a", Value::Mapping(map(vec![("x", num("1")), ("y", num("2"))])))]);
    let src = map(vec![("a", Value::Mapping(map(vec![("y", num("3")), ("z", num("4"))])))]);
    merge_mappings(&mut dst, &src);
    assert_eq!(show_map(&dst), "{a:{x:1,y:3,z:4}}");
}

#[test]
fn merge_all_nearest_file_wins() {
    let outer = map(vec![("a", num("1")), ("n", Value::Mapping(map(vec![("p", text("o"))])))]);
    let inner = map(vec![("a", num("2")), ("n", Value::Mapping(map(vec![("q", text("i"))])))]);
    let all = merge_all(&vec![outer, inner]);
    assert_eq!(show_map(&all), "{a:2,n:{p:\"o\",q:\"i\"}}");
    assert_eq!(show_map(&merge_all(&vec![])), "{}");
}

#[test]
fn flatten_in_order() {
    let tree = map(vec![(
        "a",
        Value::Mapping(map(vec![
            ("b", Value::Bool(true)),
            ("c", Value::Sequence(vec![num("1"), num("2")])),
        ])),
    )]);
    let pairs = flatten_mapping(&tree);
    let expected: Vec<(String, String)> = vec![
        ("a.b".to_string(), "true".to_string()),
        ("a.c.0".to_string(), "1".to_string()),
        ("a.c.1".to_string(), "2".to_string()),
    ];
    assert_eq!(pairs, expected);
}

#[test]
fn flatten_null_and_text_leaves() {
    let tree = map(vec![("n", Value::Null), ("s", text("hi")), ("f", Value::Bool(false))]);
    let pairs = flatten_mapping(&tree);
    let expected: Vec<(String, String)> = vec![
        ("n".to_string(), "null".to_string()),
        ("s".to_string(), "hi".to_string()),
        ("f".to_string(), "false".to_string()),
    ];
    assert_eq!(pairs, expected);
    assert!(flatten_mapping(&Mapping::new()).is_empty());
}

#[test]
fn flatten_long_sequence_indices() {
    let items: Vec<Value> = (0..12).map(|i| num(&i.to_string())).collect();
    let tree = map(vec![("s", Value::Sequence(items))]);
    let pairs = flatten_mapping(&tree);
    assert_eq!(pairs.len(), 12);
    assert_eq!(pairs[11], ("s.11".to_string(), "11".to_string()));
}

#[test]
fn decimal_text_values() {
    assert_eq!(decimal_text(0), "0");
    assert_eq!(decimal_text(7), "7");
    assert_eq!(decimal_text(10), "10");
    assert_eq!(decimal_text(4096), "4096");
}

#[test]
fn join_path_with_dots() {
    assert_eq!(join_path(&vec![]), "");
    assert_eq!(join_path(&vec!["a".to_string()]), "a");
    assert_eq!(join_path(&vec!["a".to_string(), "".to_string(), "c".to_string()]), "a..c");
}

#[test]
fn resolve_second_pass_indirection() {
    let tree = map(vec![
        ("a", Value::Mapping(map(vec![("b", text("{{c}}"))]))),
        ("c", text("x")),
    ]);
    assert_eq!(read_value(&tree, "a.b", false), Ok(Some("x".to_string())));
    assert_eq!(get_value(&tree, "a.b", false), Ok("x".to_string()));
}

#[test]
fn resolve_inline_template() {
    let tree = map(vec![("name", text("World"))]);
    assert_eq!(read_value(&tree, "Hello {{name}}", false), Ok(Some("Hello World".to_string())));
}

#[test]
fn resolve_raw_skips_second_pass() {
    let tree = map(vec![
        ("a", Value::Mapping(map(vec![("b", text("{{c}}"))]))),
        ("c", text("x")),
    ]);
    assert_eq!(read_value(&tree, "a.b", true), Ok(Some("{{c}}".to_string())));
}

#[test]
fn resolve_depth_capped_at_two() {
    let tree = map(vec![("a", text("{{b}}")), ("b", text("{{c}}")), ("c", text("x"))]);
    assert_eq!(read_value(&tree, "a", false), Ok(Some("{{c}}".to_string())));
    let looped = map(vec![("s", text("{{s}}"))]);
    assert_eq!(read_value(&looped, "s", false), Ok(Some("{{s}}".to_string())));
}

#[test]
fn resolve_absent_is_none() {
    let tree = map(vec![("e", text(""))]);
    assert_eq!(read_value(&tree, "missing", false), Ok(None));
    assert_eq!(read_value(&tree, "e", false), Ok(None));
    assert_eq!(get_value(&tree, "missing", false), Ok(String::new()));
}

#[test]
fn resolve_failures_name_the_pass() {
    let tree = map(vec![("a", text("{{#if x}}"))]);
    assert_eq!(resolve_value("{{{a}}}", &tree, false, 0), Err(TemplateFailure::SecondPass));
    assert_eq!(read_value(&tree, "a", false), Err(TemplateFailure::SecondPass));
    assert_eq!(read_value(&tree, "a", true), Ok(Some("{{#if x}}".to_string())));
    assert_eq!(read_value(&tree, "{{#if x}}", false), Err(TemplateFailure::FirstPass));
    assert_eq!(resolve_value("{{#if x}}", &tree, false, 1), Err(TemplateFailure::SecondPass));
}

#[test]
fn render_escapes_double_braces_only() {
    let tree = map(vec![("h", text("<a href=\"x\">&'`"))]);
    assert_eq!(
        render_template("{{h}}", &tree),
        Some("&lt;a href&#x3D;&quot;x&quot;&gt;&amp;&#x27;&#x60;".to_string())
    );
    assert_eq!(render_template("{{{h}}}", &tree), Some("<a href=\"x\">&'`".to_string()));
    assert_eq!(render_template("plain } text", &tree), Some("plain } text".to_string()));
    assert_eq!(render_template("{{#each h}}", &tree), None);
}

#[test]
fn render_sequence_index_and_leaf_kinds() {
    let tree = map(vec![
        ("s", Value::Sequence(vec![text("zero"), Value::Bool(false)])),
        ("n", Value::Null),
        ("m", Value::Mapping(map(vec![("k", num("3"))]))),
    ]);
    assert_eq!(render_template("{{s.0}}/{{s.1}}/{{s.2}}", &tree), Some("zero/false/".to_string()));
    assert_eq!(render_template("{{n}} {{m.k}}", &tree), Some("null 3".to_string()));
    assert_eq!(render_template("{{#if s.1}}t{{else}}f{{/if}}", &tree), Some("f".to_string()));
}

#[test]
fn contains_open_detects_double_brace() {
    assert!(contains_open("a{{b"));
    assert!(!contains_open("a{b}}"));
    assert!(!contains_open(""));
}

#[test]
fn write_creates_then_overwrites_leaf() {
    let mut tree = Mapping::new();
    write_value(&mut tree, "a.b.c", "5", false);
    assert_eq!(show_map(&tree), "{a:{b:{c:\"5\"}}}");
    write_value(&mut tree, "a.b.c", "6", false);
    assert_eq!(show_map(&tree), "{a:{b:{c:\"6\"}}}");
}

#[test]
fn write_stores_text_and_replaces_scalar_on_the_way() {
    let mut tree = map(vec![("a", num("1")), ("z", Value::Bool(true))]);
    write_value(&mut tree, "a.b", "true", false);
    assert_eq!(show_map(&tree), "{a:{b:\"true\"},z:true}");
}

#[test]
fn delete_absent_path_is_noop() {
    let mut tree = map(vec![("a", Value::Mapping(map(vec![("b", num("1"))])))]);
    let before = show_map(&tree);
    write_value(&mut tree, "a.c", "ignored", true);
    assert_eq!(show_map(&tree), before);
    write_value(&mut tree, "q", "", true);
    assert_eq!(show_map(&tree), before);
}

#[test]
fn delete_keeps_order_of_the_rest() {
    let mut tree = map(vec![("a", num("1")), ("b", num("2")), ("c", num("3"))]);
    write_value(&mut tree, "a", "", true);
    assert_eq!(show_map(&tree), "{b:2,c:3}");
}

#[test]
fn raw_round_trip_keeps_reference_text() {
    let mut tree = map(vec![("x", text("resolved"))]);
    write_value(&mut tree, "k.v", "keep {{x}} as is", false);
    assert_eq!(read_value(&tree, "k.v", true), Ok(Some("keep {{x}} as is".to_string())));
    assert_eq!(read_value(&tree, "k.v", false), Ok(Some("keep resolved as is".to_string())));
}

#[test]
fn split_name_on_dots() {
    assert_eq!(split_name("a.b.c"), vec!["a".to_string(), "b".to_string(), "c".to_string()]);
    assert_eq!(split_name(""), vec!["".to_string()]);
    assert_eq!(split_name("a..b"), vec!["a".to_string(), "".to_string(), "b".to_string()]);
}

#[test]
fn list_files_keeps_existing_in_order() {
    let c = vec!["/.y".to_string(), "/h/.y".to_string(), "/h/p/.y".to_string()];
    let kept = list_files(&c, &vec![true, false, true]);
    assert_eq!(kept, vec!["/.y".to_string(), "/h/p/.y".to_string()]);
    assert!(list_files(&vec![], &vec![]).is_empty());
}

#[test]
fn list_values_rows() {
    let tree = map(vec![("a", text("{{b}}")), ("b", num("2"))]);
    let rows = list_values(&tree, false).unwrap();
    assert_eq!(
        rows,
        vec![
            ("a".to_string(), "2".to_string(), "{{b}}".to_string()),
            ("b".to_string(), "2".to_string(), "2".to_string()),
        ]
    );
    let raw = list_values(&tree, true).unwrap();
    assert_eq!(raw[0], ("a".to_string(), String::new(), "{{b}}".to_string()));
    let bad = map(vec![("a", text("{{b"))]);
    assert_eq!(list_values(&bad, false), Err(TemplateFailure::SecondPass));
}

#[test]
fn choose_command_cases() {
    let words = Some(vec!["hello".to_string(), "big".to_string(), "world".to_string()]);
    assert_eq!(
        choose_command("a.b", &words, false),
        Command::Write { name: "a.b".to_string(), value: "hello big world".to_string() }
    );
    assert_eq!(choose_command("a.b", &words, true), Command::Delete("a.b".to_string()));
    assert_eq!(choose_command("a.b", &None, false), Command::Read("a.b".to_string()));
    assert_eq!(choose_command("", &None, true), Command::List);
    assert_eq!(join_words(&vec![]), "");
}

#[test]
fn reference_names_may_hold_blanks() {
    let tree = map(vec![("name", text("World")), ("a", Value::Mapping(map(vec![("b", text("<x>"))])))]);
    assert_eq!(render_template("Hi {{ name }}!", &tree), Some("Hi World!".to_string()));
    assert_eq!(render_template("{{a.b}}|{{{ a.b }}}", &tree), Some("&lt;x&gt;|<x>".to_string()));
}

#[test]
fn data_document_is_json() {
    let tree = map(vec![
        ("n", Value::Null),
        ("b", Value::Bool(true)),
        ("x", num("1.5")),
        ("s", Value::Sequence(vec![text("q\"\\\n\u{1}")])),
        ("m", Value::Mapping(Mapping::new())),
    ]);
    assert_eq!(
        data_of(&tree),
        "{\"n\":\"null\",\"b\":true,\"x\":\"1.5\",\"s\":[\"q\\\"\\\\\\n\\u0001\"],\"m\":{}}"
    );
    assert_eq!(data_of(&Mapping::new()), "{}");
}

#[test]
fn next_step_decisions() {
    assert_eq!(next_step(None, false, 0), Step::Fail(TemplateFailure::FirstPass));
    assert_eq!(next_step(None, true, 1), Step::Fail(TemplateFailure::SecondPass));
    assert_eq!(next_step(Some("a{{b}}".to_string()), false, 0), Step::Again("a{{b}}".to_string()));
    assert_eq!(next_step(Some("a{{b}}".to_string()), true, 0), Step::Done(Some("a{{b}}".to_string())));
    assert_eq!(next_step(Some("a{{b}}".to_string()), false, 1), Step::Done(Some("a{{b}}".to_string())));
    assert_eq!(next_step(Some(String::new()), false, 0), Step::Done(None));
}

#[test]
fn partial_calls_are_refused() {
    let looping = "{{#*inline \"a\"}}{{> a}}{{/inline}}{{> a}}";
    let tree = map(vec![("p", text(looping)), ("q", text("x"))]);
    assert_eq!(read_value(&tree, looping, false), Err(TemplateFailure::FirstPass));
    assert_eq!(read_value(&tree, "p", false), Err(TemplateFailure::SecondPass));
    assert_eq!(read_value(&tree, "p", true), Ok(Some(looping.to_string())));
    assert_eq!(render_template("{{ ~ # > a}}", &tree), None);
    assert!(contains_partial("{{>a}}"));
    assert!(contains_partial("x{{~>a}}"));
    assert!(contains_partial("{{#> a}}b{{/a}}"));
    assert!(contains_partial("{{~#>a}}"));
    assert!(contains_partial("{{ > a}}"));
    assert!(!contains_partial("a > b {{q}} {{#if q}}>{{/if}}"));
    assert!(!contains_partial("{{"));
}

#[test]
fn list_values_stops_at_first_failure() {
    let tree = map(vec![("a", text("ok")), ("b", text("{{#if x}}")), ("c", text("{{> p}}"))]);
    assert_eq!(list_values(&tree, false), Err(TemplateFailure::SecondPass));
}
