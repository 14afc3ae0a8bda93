use omp_hooks::json::{JsonNumber, JsonValue};
use omp_hooks::order::sort_utf16;
use omp_hooks::rules::{
    basename, evaluate, glob_matches, glob_regex_source, is_armed, load_rules, matcher_digest,
    parse_frontmatter, parse_scope, render_interrupt, rule_dirs, scope_allows, target_path, Rule,
};
use omp_hooks::state::State;

fn s(x: &str) -> JsonValue {
    JsonValue::Str(x.to_string())
}

fn obj(entries: Vec<(&str, JsonValue)>) -> JsonValue {
    JsonValue::Object(entries.into_iter().map(|(k, v)| (k.to_string(), v)).collect())
}

fn num(text: &str, nonzero: bool, as_u64: Option<u64>) -> JsonValue {
    JsonValue::Number(JsonNumber { text: text.to_string(), nonzero, as_u64 })
}

fn rule(name: &str, repeat: &str) -> Rule {
    Rule {
        name: name.into(),
        description: String::new(),
        condition: "x".into(),
        flags: String::new(),
        scope: Vec::new(),
        repeat: repeat.into(),
        interrupt: true,
        body: "body".into(),
    }
}

#[test]
fn frontmatter_basic() {
    let fm = parse_frontmatter("---\ncondition: \\bTODO\\b\nflags: i\n---\nBody text\n").unwrap();
    assert_eq!(fm.meta.get("condition").unwrap(), "\\bTODO\\b");
    assert_eq!(fm.meta.get("flags").unwrap(), "i");
    assert_eq!(fm.body, "Body text");
}

#[test]
fn frontmatter_strips_one_quote_layer_only() {
    let fm = parse_frontmatter("---\na: \"x\"\nb: '\"y\"'\nc: \"\nd: \n---\nz").unwrap();
    assert_eq!(fm.meta.get("a").unwrap(), "x");
    assert_eq!(fm.meta.get("b").unwrap(), "\"y\"");
    assert_eq!(fm.meta.get("c").unwrap(), "\"");
    assert_eq!(fm.meta.get("d").unwrap(), "");
}

#[test]
fn frontmatter_rejects_and_quirks() {
    assert!(parse_frontmatter("no marker").is_none());
    assert!(parse_frontmatter("---\ncondition: x\n").is_none());
    // Empty frontmatter block.
    let fm = parse_frontmatter("---\n---\nbody").unwrap();
    assert!(fm.meta.is_empty());
    assert_eq!(fm.body, "body");
    // No newline after the closing --- : JS slice(0) makes the whole doc the body.
    let fm = parse_frontmatter("---\ncondition: x\n---").unwrap();
    assert_eq!(fm.meta.get("condition").unwrap(), "x");
    assert_eq!(fm.body, "---\ncondition: x\n---");
    // Non key: value lines are ignored, not fatal.
    let fm = parse_frontmatter("---\njust text\n9bad: v\nok_key: v\n---\nb").unwrap();
    assert_eq!(fm.meta.len(), 1);
    assert_eq!(fm.meta.get("ok_key").unwrap(), "v");
}

#[test]
fn scope_parsing() {
    let s = parse_scope("tool:Bash, tool:Write(*.sh)");
    assert_eq!(s.len(), 2);
    assert_eq!(s[0].tool, "Bash");
    assert!(s[0].glob.is_none());
    assert_eq!(s[1].tool, "Write");
    assert_eq!(s[1].glob.as_deref(), Some("*.sh"));

    assert!(parse_scope("").is_empty());
    assert!(parse_scope("Bash").is_empty());
    assert!(parse_scope("tool:9x").is_empty());
    // Junk parts are dropped, valid ones survive.
    let s = parse_scope("garbage, tool:Edit ( src/*.rs )");
    assert_eq!(s.len(), 1);
    assert_eq!(s[0].glob.as_deref(), Some("src/*.rs"));
    // Empty parens -> null glob, matching the JS truthiness check.
    assert!(parse_scope("tool:Edit()")[0].glob.is_none());
}

#[test]
fn globs() {
    assert!(glob_matches("", Some("/a/b.rs")));
    assert!(glob_matches("", None));
    assert!(!glob_matches("*.rs", None));
    // basename fallback
    assert!(glob_matches("*.rs", Some("/a/b/c.rs")));
    assert!(!glob_matches("*.rs", Some("/a/b/c.py")));
    // * does not cross a separator, ** does
    assert!(!glob_matches("src/*.rs", Some("src/a/b.rs")));
    assert!(glob_matches("src/**.rs", Some("src/a/b.rs")));
    assert!(glob_matches("src/*.rs", Some("src/a.rs")));
    // ? is a single non-separator char
    assert!(glob_matches("a?c.txt", Some("abc.txt")));
    assert!(!glob_matches("a?c.txt", Some("a/c.txt")));
    // regex metacharacters in the glob are literal
    assert!(glob_matches("a+b.txt", Some("a+b.txt")));
    assert!(!glob_matches("a+b.txt", Some("aab.txt")));
    assert!(glob_matches("(x).md", Some("(x).md")));
    // full-path match without a basename match
    assert!(glob_matches("/etc/**", Some("/etc/passwd")));
}

#[test]
fn digests() {
    assert_eq!(matcher_digest("Edit", &obj(vec![("new_string", s("abc"))])), "abc");
    assert_eq!(matcher_digest("Edit", &obj(vec![("old_string", s("abc"))])), "");
    assert_eq!(matcher_digest("Write", &obj(vec![("content", s("hi"))])), "hi");
    assert_eq!(matcher_digest("Bash", &obj(vec![("command", s("rm -rf /"))])), "rm -rf /");
    assert_eq!(matcher_digest("NotebookEdit", &obj(vec![("new_source", s("src"))])), "src");
    assert_eq!(matcher_digest("Read", &obj(vec![("content", s("hi"))])), "");
    assert_eq!(matcher_digest("Edit", &s("not an object")), "");
    assert_eq!(matcher_digest("Edit", &JsonValue::Null), "");
    // MultiEdit joins with \n, missing/empty new_string contributes "".
    assert_eq!(
        matcher_digest(
            "MultiEdit",
            &obj(vec![(
                "edits",
                JsonValue::Array(vec![
                    obj(vec![("new_string", s("a"))]),
                    obj(vec![("old_string", s("z"))]),
                    obj(vec![("new_string", s("b"))]),
                ])
            )])
        ),
        "a\n\nb"
    );
    assert_eq!(matcher_digest("MultiEdit", &obj(vec![("edits", s("nope"))])), "");
    assert_eq!(matcher_digest("MultiEdit", &obj(vec![])), "");
}

#[test]
fn paths() {
    assert_eq!(
        target_path("Edit", &obj(vec![("file_path", s("/a.rs"))])).as_deref(),
        Some("/a.rs")
    );
    assert_eq!(
        target_path(
            "NotebookEdit",
            &obj(vec![("notebook_path", s("/n.ipynb")), ("file_path", s("/x"))])
        )
        .as_deref(),
        Some("/n.ipynb")
    );
    assert_eq!(target_path("Edit", &obj(vec![("file_path", s(""))])), None);
    assert_eq!(target_path("Bash", &obj(vec![("command", s("ls"))])), None);
    assert_eq!(target_path("Edit", &JsonValue::Null), None);
}

#[test]
fn basename_matches_node() {
    assert_eq!(basename("/a/b/c.rs"), "c.rs");
    assert_eq!(basename("c.rs"), "c.rs");
    assert_eq!(basename("/a/b/"), "b");
    assert_eq!(basename("/"), "");
    assert_eq!(basename(""), "");
    assert_eq!(basename(".."), "..");
}

#[test]
fn armed_when_never_fired() {
    let st = State::default();
    assert!(is_armed(&rule("r", "once"), &st));
    assert!(is_armed(&rule("r", "after-gap 5"), &st));
}

#[test]
fn once_never_rearms() {
    let mut st = State::default();
    st.calls = 9999;
    st.fired.insert("r".into(), 1);
    assert!(!is_armed(&rule("r", "once"), &st));
    // An unparseable repeat behaves like "once".
    assert!(!is_armed(&rule("r", "after-gap"), &st));
    assert!(!is_armed(&rule("r", "after-gap x"), &st));
    assert!(!is_armed(&rule("r", "AFTER-GAP 1"), &st));
}

#[test]
fn after_gap_boundary() {
    let mut st = State::default();
    st.fired.insert("r".into(), 10);
    let r = rule("r", "after-gap 3");
    st.calls = 12;
    assert!(!is_armed(&r, &st));
    st.calls = 13;
    assert!(is_armed(&r, &st));
    st.calls = 100;
    assert!(is_armed(&r, &st));
    // after-gap 0 is always armed.
    st.calls = 10;
    assert!(is_armed(&rule("r", "after-gap 0"), &st));
}

#[test]
fn after_gap_survives_calls_below_fired_at() {
    // A truncated or shared state file can leave calls < fired_at; the gap
    // goes negative rather than wrapping.
    let mut st = State::default();
    st.calls = 2;
    st.fired.insert("r".into(), 500);
    assert!(!is_armed(&rule("r", "after-gap 3"), &st));
    assert!(!is_armed(&rule("r", "after-gap 0"), &st));
    st.calls = 0;
    st.fired.insert("r".into(), u64::MAX);
    assert!(!is_armed(&rule("r", "after-gap 1"), &st));
}

#[test]
fn scope_allows_rules() {
    let mut r = rule("r", "once");
    assert!(scope_allows(&r, "Anything", None));
    r.scope = parse_scope("tool:Write(*.sh), tool:Bash");
    assert!(scope_allows(&r, "Bash", None));
    assert!(scope_allows(&r, "Write", Some("/x/y.sh")));
    assert!(!scope_allows(&r, "Write", Some("/x/y.rs")));
    assert!(!scope_allows(&r, "Write", None));
    assert!(!scope_allows(&r, "Edit", Some("/x/y.sh")));
}

#[test]
fn evaluate_picks_first_match() {
    let mut a = rule("a", "once");
    a.condition = "nope".into();
    let mut b = rule("b", "once");
    b.condition = "TODO".into();
    let mut c = rule("c", "once");
    c.condition = "TO.O".into();
    let rules = vec![a, b, c];
    let st = State::default();
    let input = obj(vec![("new_string", s("// TODO fix")), ("file_path", s("/a.rs"))]);
    let (hit, p) = evaluate(&rules, "Edit", &input, &st).unwrap();
    assert_eq!(hit.name, "b");
    assert_eq!(p.as_deref(), Some("/a.rs"));

    // Empty digest short-circuits.
    assert!(evaluate(&rules, "Edit", &obj(vec![("new_string", s(""))]), &st).is_none());
    assert!(evaluate(&rules, "Read", &obj(vec![("file_path", s("/a.rs"))]), &st).is_none());
    // Disarmed rules are skipped, so the next match wins.
    let mut st2 = State::default();
    st2.fired.insert("b".into(), 1);
    st2.calls = 1;
    assert_eq!(evaluate(&rules, "Edit", &input, &st2).unwrap().0.name, "c");
}

#[test]
fn evaluate_honours_flags() {
    let mut r = rule("r", "once");
    r.condition = "todo".into();
    r.flags = "i".into();
    let rules = vec![r];
    let st = State::default();
    assert!(evaluate(&rules, "Bash", &obj(vec![("command", s("TODO"))]), &st).is_some());
}

#[test]
fn render_with_and_without_path() {
    let r = rule("no-secrets", "once");
    assert_eq!(
        render_interrupt(&r, Some("/etc/x.env")),
        "<system-interrupt reason=\"rule_violation\" rule=\"no-secrets\" path=\"/etc/x.env\">\nbody\n</system-interrupt>"
    );
    assert_eq!(
        render_interrupt(&r, None),
        "<system-interrupt reason=\"rule_violation\" rule=\"no-secrets\">\nbody\n</system-interrupt>"
    );
}

/// A rule directory's files, handed over in the order a directory listing
/// sorted by UTF-16 gives.
#[test]
fn load_rules_is_sorted_and_filters() {
    let listing = vec![
        ("b.md".to_string(), "---\ncondition: b\n---\nB".to_string()),
        ("a.md".to_string(), "---\ncondition: a\nrepeat: after-gap 2\n---\nA".to_string()),
        ("c.md".to_string(), "---\ndescription: no condition\n---\nC".to_string()),
        ("d.md".to_string(), "---\ncondition: (unclosed\n---\nD".to_string()),
        ("e.txt".to_string(), "---\ncondition: e\n---\nE".to_string()),
    ];
    let names = sort_utf16(listing.iter().map(|(n, _)| n.clone()).collect());
    let files: Vec<(String, String)> = names
        .iter()
        .map(|n| listing.iter().find(|(m, _)| m == n).unwrap().clone())
        .collect();
    let loaded = load_rules(&files);
    let names: Vec<&str> = loaded.iter().map(|r| r.name.as_str()).collect();
    assert_eq!(names, vec!["a", "b"]);
    assert_eq!(loaded[0].repeat, "after-gap 2");
    assert_eq!(loaded[1].repeat, "once");
    assert!(loaded[0].interrupt);
    assert_eq!(loaded[0].body, "A");
}

#[test]
fn load_rules_missing_dir_is_silent() {
    assert!(load_rules(&Vec::new()).is_empty());
}

// ---------------------------------------------------------------- own tests

#[test]
fn frontmatter_crlf_value_line_is_ignored() {
    // `.` does not match '\r', so a CRLF `key: value` line does not match.
    let fm = parse_frontmatter("---\na: x\r\nb:\r\nc: y\n---\nbody").unwrap();
    assert!(fm.meta.get("a").is_none());
    assert_eq!(fm.meta.get("b").unwrap(), "");
    assert_eq!(fm.meta.get("c").unwrap(), "y");
}

#[test]
fn frontmatter_later_key_overrides() {
    let fm = parse_frontmatter("---\nk: 1\nk : 2\n---\n  body  \n").unwrap();
    assert_eq!(fm.meta.len(), 1);
    assert_eq!(fm.meta.get("k").unwrap(), "2");
    assert_eq!(fm.body, "body");
}

#[test]
fn scope_glob_of_spaces_is_empty_glob() {
    let s = parse_scope("tool:Edit( )");
    assert_eq!(s.len(), 1);
    assert_eq!(s[0].glob.as_deref(), Some(""));
    assert!(parse_scope("tool:Edit(a)b").is_empty());
    assert!(parse_scope("tool:Edit(a)b)").is_empty());
}

#[test]
fn glob_regex_text() {
    assert_eq!(glob_regex_source("src/**.rs"), "^src/.*\\.rs$");
    assert_eq!(glob_regex_source("a?*"), "^a[^/][^/]*$");
    assert_eq!(glob_regex_source(""), "^$");
}

#[test]
fn digest_renders_json_values_like_javascript() {
    assert_eq!(matcher_digest("Bash", &obj(vec![("command", num("42", true, Some(42)))])), "42");
    assert_eq!(matcher_digest("Bash", &obj(vec![("command", JsonValue::Bool(false))])), "false");
    assert_eq!(matcher_digest("Bash", &obj(vec![("command", JsonValue::Null)])), "");
    assert_eq!(
        matcher_digest(
            "Bash",
            &obj(vec![(
                "command",
                JsonValue::Array(vec![s("a"), JsonValue::Null, JsonValue::Array(vec![s("b"), s("c")])])
            )])
        ),
        "a,,b,c"
    );
    assert_eq!(matcher_digest("Bash", &obj(vec![("command", obj(vec![]))])), "[object Object]");
    assert_eq!(matcher_digest("Bash", &JsonValue::Array(vec![])), "");
}

#[test]
fn after_gap_huge_and_spaced() {
    let mut st = State::default();
    st.calls = u64::MAX;
    st.fired.insert("r".into(), 0);
    assert!(is_armed(&rule("r", "after-gap 18446744073709551615"), &st));
    assert!(!is_armed(&rule("r", "after-gap 18446744073709551616"), &st));
    assert!(is_armed(&rule("r", "after-gap \t 007"), &st));
    assert!(!is_armed(&rule("r", "after-gap7"), &st));
    assert!(!is_armed(&rule("r", "after-gap 7 "), &st));
}

#[test]
fn evaluate_skips_rule_whose_condition_does_not_compile() {
    let mut a = rule("a", "once");
    a.condition = "(".into();
    let mut b = rule("b", "once");
    b.condition = "x".into();
    let rules = vec![a, b];
    let st = State::default();
    let hit = evaluate(&rules, "Bash", &obj(vec![("command", s("x"))]), &st).unwrap();
    assert_eq!(hit.0.name, "b");
    assert!(hit.1.is_none());
}

#[test]
fn later_directory_shadows_in_place() {
    let files = vec![
        ("a.md".to_string(), "---\ncondition: user-a\n---\nUA".to_string()),
        ("b.md".to_string(), "---\ncondition: user-b\n---\nUB".to_string()),
        ("a.md".to_string(), "---\ncondition: proj-a\ninterrupt: false\n---\nPA".to_string()),
    ];
    let loaded = load_rules(&files);
    assert_eq!(loaded.len(), 2);
    assert_eq!(loaded[0].name, "a");
    assert_eq!(loaded[0].condition, "proj-a");
    assert!(!loaded[0].interrupt);
    assert_eq!(loaded[1].name, "b");
}

#[test]
fn rule_fields_and_defaults() {
    let files = vec![(
        "r.md".to_string(),
        "---\ndescription: \"d\"\ncondition: c\nscope: tool:Bash\nrepeat: \"\"\n---\nbody".to_string(),
    )];
    let loaded = load_rules(&files);
    assert_eq!(loaded.len(), 1);
    assert_eq!(loaded[0].description, "d");
    assert_eq!(loaded[0].repeat, "once");
    assert_eq!(loaded[0].scope.len(), 1);
    assert_eq!(loaded[0].scope[0].tool, "Bash");
    assert!(loaded[0].interrupt);
}

#[test]
fn rule_dirs_user_then_project() {
    assert_eq!(rule_dirs("/h/\x2eclaude", Some("/p"), "/cwd"), vec!["/h/\x2eclaude/rules", "/p/\x2eclaude/rules"]);
    assert_eq!(rule_dirs("/h/\x2eclaude/", Some(""), "/cwd"), vec!["/h/\x2eclaude/rules", "/cwd/\x2eclaude/rules"]);
    assert_eq!(rule_dirs("", None, "."), vec!["rules", "./\x2eclaude/rules"]);
}

#[test]
fn sort_by_utf16_code_units() {
    // U+FF5E (a high BMP char) sorts after an astral char in UTF-16 order,
    // though its code point is smaller.
    let sorted = sort_utf16(vec![
        "\u{FF5E}.md".to_string(),
        "\u{1F600}.md".to_string(),
        "b.md".to_string(),
        "B.md".to_string(),
        "a.md".to_string(),
    ]);
    assert_eq!(sorted, vec!["B.md", "a.md", "b.md", "\u{1F600}.md", "\u{FF5E}.md"]);
}

#[test]
fn user_names_then_new_project_names() {
    let files = vec![
        ("b.md".to_string(), "---\ncondition: user-b\n---\nUB".to_string()),
        ("c.md".to_string(), "---\ncondition: user-c\n---\nUC".to_string()),
        ("a.md".to_string(), "---\ncondition: proj-a\n---\nPA".to_string()),
        ("c.md".to_string(), "---\ncondition: proj-c\n---\nPC".to_string()),
    ];
    let loaded = load_rules(&files);
    let names: Vec<&str> = loaded.iter().map(|r| r.name.as_str()).collect();
    assert_eq!(names, vec!["b", "c", "a"]);
    assert_eq!(loaded[1].condition, "proj-c");
    assert_eq!(loaded[0].condition, "user-b");
}
