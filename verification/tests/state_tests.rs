use omp_hooks::json::{JsonNumber, JsonValue};
use omp_hooks::keyed::KeyedList;
use omp_hooks::state::{
    config_dir, sanitize, state_dir, state_from_json, state_path, state_to_json, State,
    SETTINGS_DIR,
};

fn s(x: &str) -> JsonValue {
    JsonValue::Str(x.to_string())
}

fn obj(entries: Vec<(&str, JsonValue)>) -> JsonValue {
    JsonValue::Object(entries.into_iter().map(|(k, v)| (k.to_string(), v)).collect())
}

fn num(text: &str, nonzero: bool, as_u64: Option<u64>) -> JsonValue {
    JsonValue::Number(JsonNumber { text: text.to_string(), nonzero, as_u64 })
}

fn number(n: u64) -> JsonValue {
    num(&n.to_string(), n != 0, Some(n))
}

#[test]
fn sanitize_keeps_safe_characters() {
    assert_eq!(sanitize("abc-DEF_123.x"), "abc-DEF_123.x");
}

#[test]
fn sanitize_replaces_every_other_character() {
    assert_eq!(sanitize("a/b c:d"), "a_b_c_d");
    assert_eq!(sanitize("é€😀"), "___");
    assert_eq!(sanitize("../etc/passwd"), ".._etc_passwd");
}

#[test]
fn sanitize_empty_is_nosession() {
    assert_eq!(sanitize(""), "nosession");
}

#[test]
fn sanitize_truncates_to_128_characters() {
    let long = "x".repeat(200);
    assert_eq!(sanitize(&long), "x".repeat(128));
    let exact = "y".repeat(128);
    assert_eq!(sanitize(&exact), exact);
    let wide = "😀".repeat(130);
    assert_eq!(sanitize(&wide), "_".repeat(128));
}

#[test]
fn sanitize_is_idempotent_on_examples() {
    for id in ["", "a b", "😀x", "ok.id"] {
        let once = sanitize(id);
        assert_eq!(sanitize(&once), once);
    }
}

#[test]
fn state_paths_join_like_pathbuf() {
    let settings = format!("/home/me/{}", SETTINGS_DIR);
    assert_eq!(state_dir(&settings), format!("{}/state/omp-claudecode-port-project", settings));
    assert_eq!(state_dir("/cfg/"), "/cfg/state/omp-claudecode-port-project");
    assert_eq!(state_dir(""), "state/omp-claudecode-port-project");
    assert_eq!(
        state_path("/cfg", "sess 1"),
        "/cfg/state/omp-claudecode-port-project/sess_1.json"
    );
    assert_eq!(state_path("/cfg", ""), "/cfg/state/omp-claudecode-port-project/nosession.json");
}

#[test]
fn config_dir_prefers_the_environment() {
    assert_eq!(config_dir(Some("/custom"), Some("/home/me")), "/custom");
    assert_eq!(config_dir(Some(""), Some("/home/me")), format!("/home/me/{}", SETTINGS_DIR));
    assert_eq!(config_dir(None, Some("/home/me/")), format!("/home/me/{}", SETTINGS_DIR));
    assert_eq!(config_dir(None, None), SETTINGS_DIR);
}

#[test]
fn default_state_is_empty() {
    let st = State::default();
    assert_eq!(st.calls, 0);
    assert!(st.fired.is_empty());
    assert!(st.pending.is_empty());
    assert!(st.reads.is_empty());
}

#[test]
fn state_from_json_reads_every_field() {
    let v = obj(vec![
        ("calls", number(7)),
        ("fired", obj(vec![("a.md", number(3)), ("b.md", number(5))])),
        ("pending", JsonValue::Array(vec![s("one"), number(2), s("two"), JsonValue::Null])),
        ("reads", obj(vec![("/x.rs", number(1))])),
    ]);
    let st = state_from_json(&v);
    assert_eq!(st.calls, 7);
    assert_eq!(st.fired.len(), 2);
    assert_eq!(st.fired.get("a.md"), Some(&3));
    assert_eq!(st.fired.get("b.md"), Some(&5));
    assert_eq!(st.pending, vec!["one".to_string(), "two".to_string()]);
    assert_eq!(st.reads.get("/x.rs"), Some(&1));
    assert!(st.reads.get("/y.rs").is_none());
}

#[test]
fn state_from_json_defaults_what_is_missing_or_mistyped() {
    let v = obj(vec![
        ("calls", num("-3", true, None)),
        ("fired", s("nope")),
        ("pending", obj(vec![])),
        ("reads", obj(vec![("/x.rs", s("1")), ("/y.rs", num("1.5", true, None))])),
    ]);
    let st = state_from_json(&v);
    assert_eq!(st.calls, 0);
    assert!(st.fired.is_empty());
    assert!(st.pending.is_empty());
    assert_eq!(st.reads.get("/x.rs"), Some(&0));
    assert_eq!(st.reads.get("/y.rs"), Some(&0));
    let st = state_from_json(&JsonValue::Array(vec![]));
    assert_eq!(st.calls, 0);
    assert!(st.fired.is_empty());
}

#[test]
fn state_to_json_writes_the_four_fields_in_order() {
    let mut fired = KeyedList::new();
    fired.insert("r.md".to_string(), 4u64);
    let mut reads = KeyedList::new();
    reads.insert("/a.py".to_string(), 1u64);
    let st = State { calls: 12, fired, pending: vec!["msg".to_string()], reads };
    let v = state_to_json(&st);
    match &v {
        JsonValue::Object(o) => {
            let keys: Vec<&str> = o.iter().map(|(k, _)| k.as_str()).collect();
            assert_eq!(keys, vec!["calls", "fired", "pending", "reads"]);
            match &o[0].1 {
                JsonValue::Number(n) => {
                    assert_eq!(n.text, "12");
                    assert!(n.nonzero);
                    assert_eq!(n.as_u64, Some(12));
                }
                _ => panic!("calls is not a number"),
            }
        }
        _ => panic!("not an object"),
    }
    assert_eq!(v.get("fired").and_then(|f| f.get("r.md")).and_then(|n| n.as_u64()), Some(4));
}

#[test]
fn state_roundtrips_through_json() {
    let mut fired = KeyedList::new();
    fired.insert("b.md".to_string(), 9u64);
    fired.insert("a.md".to_string(), 0u64);
    let mut reads = KeyedList::new();
    reads.insert("/z.ts".to_string(), 1u64);
    let st = State {
        calls: u64::MAX,
        fired,
        pending: vec!["x".to_string(), String::new()],
        reads,
    };
    let back = state_from_json(&state_to_json(&st));
    assert_eq!(back.calls, u64::MAX);
    assert_eq!(back.fired.get("b.md"), Some(&9));
    assert_eq!(back.fired.get("a.md"), Some(&0));
    assert_eq!(back.fired.len(), 2);
    assert_eq!(back.pending, st.pending);
    assert_eq!(back.reads.get("/z.ts"), Some(&1));
    assert_eq!(back.reads.len(), 1);
}
