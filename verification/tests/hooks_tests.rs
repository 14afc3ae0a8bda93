use omp_hooks::hooks::{
    additional_context_response, deny_response, lazy_rules, lazy_rules_post, lazy_rules_request,
    read_discipline, read_discipline_request, read_threshold, str_field,
};
use omp_hooks::json::{JsonNumber, JsonValue};
use omp_hooks::rules::Rule;
use omp_hooks::state::State;

fn s(x: &str) -> JsonValue {
    JsonValue::Str(x.to_string())
}

fn obj(entries: Vec<(&str, JsonValue)>) -> JsonValue {
    JsonValue::Object(entries.into_iter().map(|(k, v)| (k.to_string(), v)).collect())
}

fn number(n: u64) -> JsonValue {
    JsonValue::Number(JsonNumber { text: n.to_string(), nonzero: n != 0, as_u64: Some(n) })
}

fn rule(name: &str, condition: &str, interrupt: bool) -> Rule {
    Rule {
        name: name.into(),
        description: String::new(),
        condition: condition.into(),
        flags: String::new(),
        scope: Vec::new(),
        repeat: "once".into(),
        interrupt,
        body: "body".into(),
    }
}

fn edit_payload(new_string: &str) -> JsonValue {
    obj(vec![
        ("tool_name", s("Edit")),
        ("tool_input", obj(vec![("file_path", s("/a.rs")), ("new_string", s(new_string))])),
        ("session_id", s("s1")),
        ("cwd", s("/proj")),
    ])
}

#[test]
fn deny_response_is_byte_exact() {
    assert_eq!(
        deny_response("no"),
        "{\"hookSpecificOutput\":{\"hookEventName\":\"PreToolUse\",\"permissionDecision\":\"deny\",\"permissionDecisionReason\":\"no\"}}"
    );
}

#[test]
fn deny_response_escapes_like_serde_json() {
    let out = deny_response("a\"b\\c\nd\te\u{1}f\u{7f}é");
    assert!(out.ends_with(
        "\"permissionDecisionReason\":\"a\\\"b\\\\c\\nd\\te\\u0001f\u{7f}é\"}}"
    ));
}

#[test]
fn additional_context_response_is_byte_exact() {
    assert_eq!(
        additional_context_response("x\n\ny"),
        "{\"hookSpecificOutput\":{\"hookEventName\":\"PostToolUse\",\"additionalContext\":\"x\\n\\ny\"}}"
    );
}

#[test]
fn str_field_reads_only_strings() {
    let p = obj(vec![("a", s("x")), ("b", number(3))]);
    assert_eq!(str_field(&p, "a"), Some("x".to_string()));
    assert_eq!(str_field(&p, "b"), None);
    assert_eq!(str_field(&p, "c"), None);
    assert_eq!(str_field(&s("x"), "a"), None);
}

#[test]
fn lazy_request_needs_tool_name_and_object_input() {
    let p = edit_payload("x");
    let q = lazy_rules_request(&p).unwrap();
    assert_eq!(q.tool_name, "Edit");
    assert_eq!(q.session_id, "s1");
    assert_eq!(q.cwd.as_deref(), Some("/proj"));
    let p = obj(vec![("tool_name", s("Edit")), ("tool_input", s("x"))]);
    assert!(lazy_rules_request(&p).is_none());
    let p = obj(vec![("tool_input", obj(vec![]))]);
    assert!(lazy_rules_request(&p).is_none());
    let p = obj(vec![("tool_name", s("Bash")), ("tool_input", obj(vec![]))]);
    let q = lazy_rules_request(&p).unwrap();
    assert_eq!(q.session_id, "");
    assert!(q.cwd.is_none());
}

#[test]
fn lazy_rules_without_rules_does_nothing() {
    let p = edit_payload("// TODO");
    let q = lazy_rules_request(&p).unwrap();
    assert!(lazy_rules(&q, &[], State::default()).is_none());
}

#[test]
fn lazy_rules_interrupt_denies_and_records() {
    let p = edit_payload("// TODO fix");
    let q = lazy_rules_request(&p).unwrap();
    let rules = vec![rule("nope", "nope", true), rule("todo", "TODO", true)];
    let (st, out) = lazy_rules(&q, &rules, State::default()).unwrap();
    assert_eq!(st.calls, 1);
    assert_eq!(st.fired.get("todo"), Some(&1));
    assert!(st.pending.is_empty());
    assert_eq!(
        out.unwrap(),
        "{\"hookSpecificOutput\":{\"hookEventName\":\"PreToolUse\",\"permissionDecision\":\"deny\",\"permissionDecisionReason\":\"<system-interrupt reason=\\\"rule_violation\\\" rule=\\\"todo\\\" path=\\\"/a.rs\\\">\\nbody\\n</system-interrupt>\"}}"
    );
    // Fired once: the same call again only counts.
    let (st, out) = lazy_rules(&q, &rules, st).unwrap();
    assert_eq!(st.calls, 2);
    assert_eq!(st.fired.get("todo"), Some(&1));
    assert!(out.is_none());
}

#[test]
fn lazy_rules_soft_mode_queues_the_reminder() {
    let p = edit_payload("// TODO fix");
    let q = lazy_rules_request(&p).unwrap();
    let rules = vec![rule("todo", "TODO", false)];
    let mut st = State::default();
    st.calls = 41;
    let (st, out) = lazy_rules(&q, &rules, st).unwrap();
    assert!(out.is_none());
    assert_eq!(st.calls, 42);
    assert_eq!(st.fired.get("todo"), Some(&42));
    assert_eq!(
        st.pending,
        vec!["<system-interrupt reason=\"rule_violation\" rule=\"todo\" path=\"/a.rs\">\nbody\n</system-interrupt>".to_string()]
    );
}

#[test]
fn lazy_rules_no_match_only_counts() {
    let p = edit_payload("clean code");
    let q = lazy_rules_request(&p).unwrap();
    let rules = vec![rule("todo", "TODO", true)];
    let (st, out) = lazy_rules(&q, &rules, State::default()).unwrap();
    assert!(out.is_none());
    assert_eq!(st.calls, 1);
    assert!(st.fired.is_empty());
}

#[test]
fn lazy_rules_post_delivers_and_clears() {
    let mut st = State::default();
    assert!(lazy_rules_post(State::default()).is_none());
    st.pending = vec!["one".to_string(), "two".to_string()];
    st.calls = 5;
    let (st2, out) = lazy_rules_post(st).unwrap();
    assert!(st2.pending.is_empty());
    assert_eq!(st2.calls, 5);
    assert_eq!(
        out,
        "{\"hookSpecificOutput\":{\"hookEventName\":\"PostToolUse\",\"additionalContext\":\"one\\n\\ntwo\"}}"
    );
    assert!(lazy_rules_post(st2).is_none());
}

fn read_payload(input: JsonValue) -> JsonValue {
    obj(vec![("tool_name", s("Read")), ("tool_input", input), ("session_id", s("sess"))])
}

#[test]
fn read_request_accepts_unbounded_source_reads() {
    let p = read_payload(obj(vec![("file_path", s("/x/m.py"))]));
    assert_eq!(read_discipline_request(&p), Some(("/x/m.py".to_string(), "sess".to_string())));
    let p = read_payload(obj(vec![("file_path", s("/x/m.py")), ("offset", JsonValue::Null)]));
    assert!(read_discipline_request(&p).is_some());
}

#[test]
fn read_request_rejects_bounded_or_other_reads() {
    let p = read_payload(obj(vec![("file_path", s("/x/m.py")), ("offset", number(0))]));
    assert!(read_discipline_request(&p).is_none());
    let p = read_payload(obj(vec![("file_path", s("/x/m.py")), ("limit", number(10))]));
    assert!(read_discipline_request(&p).is_none());
    let p = read_payload(obj(vec![("file_path", s("/x/notes.txt"))]));
    assert!(read_discipline_request(&p).is_none());
    let p = read_payload(obj(vec![("file_path", number(1))]));
    assert!(read_discipline_request(&p).is_none());
    let p = obj(vec![("tool_name", s("Edit")), ("tool_input", obj(vec![("file_path", s("/m.py"))]))]);
    assert!(read_discipline_request(&p).is_none());
}

fn long_python(functions: usize) -> String {
    let mut text = String::new();
    for i in 0..functions {
        text.push_str(&format!("def f{}():\n    pass\n", i));
    }
    text
}

#[test]
fn read_discipline_denies_once_per_path() {
    let text = long_python(250);
    let (st, out) = read_discipline(State::default(), "/x/m.py", &text, 400).unwrap();
    assert_eq!(st.reads.get("/x/m.py"), Some(&1));
    assert!(out.starts_with(
        "{\"hookSpecificOutput\":{\"hookEventName\":\"PreToolUse\",\"permissionDecision\":\"deny\",\"permissionDecisionReason\":\"[/x/m.py] 501 lines"
    ));
    assert!(read_discipline(st, "/x/m.py", &text, 400).is_none());
}

#[test]
fn read_discipline_skips_short_or_sparse_files() {
    let text = long_python(100);
    assert!(read_discipline(State::default(), "/x/m.py", &text, 400).is_none());
    // 201 lines: denied only over the threshold, not at it.
    assert!(read_discipline(State::default(), "/x/m.py", &text, 201).is_none());
    assert!(read_discipline(State::default(), "/x/m.py", &text, 200).is_some());
    let mut sparse = String::from("def only():\n");
    sparse.push_str(&"x = 1\n".repeat(800));
    assert!(read_discipline(State::default(), "/x/m.py", &sparse, 400).is_none());
}

#[test]
fn read_threshold_parses_like_usize_from_str() {
    assert_eq!(read_threshold(None), 400);
    assert_eq!(read_threshold(Some("250")), 250);
    assert_eq!(read_threshold(Some("  120\n")), 120);
    assert_eq!(read_threshold(Some("+7")), 7);
    assert_eq!(read_threshold(Some("\u{3000}9\u{85}")), 9);
    assert_eq!(read_threshold(Some("0")), 0);
    assert_eq!(read_threshold(Some("")), 400);
    assert_eq!(read_threshold(Some("+")), 400);
    assert_eq!(read_threshold(Some("-5")), 400);
    assert_eq!(read_threshold(Some("12a")), 400);
    assert_eq!(read_threshold(Some("1 2")), 400);
    assert_eq!(read_threshold(Some("\u{feff}5")), 400);
    assert_eq!(read_threshold(Some("99999999999999999999999")), 400);
}

#[test]
fn read_discipline_needs_more_than_the_threshold() {
    // 199 functions and one more line: 399 newlines, so exactly 400 lines.
    let exactly_400 = format!("{}x = 1\n", long_python(199));
    assert!(read_discipline(State::default(), "/x/m.py", &exactly_400, 400).is_none());
    // 200 functions: 400 newlines, so 401 lines.
    let lines_401 = long_python(200);
    assert!(read_discipline(State::default(), "/x/m.py", &lines_401, 400).is_some());
}
