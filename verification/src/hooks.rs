//! The decisions of the three hooks, from a parsed payload and the loaded
//! rules and state to the next state and the text to print.
//!
//! `lazy-rules` (PreToolUse) checks a call against the rules and either
//! denies it with the rule's body or queues the body as a reminder;
//! `lazy-rules-post` (PostToolUse) delivers queued reminders;
//! `read-discipline` (PreToolUse on Read) denies a whole-file read of a long
//! source file once per path, answering with its outline instead.
use vstd::prelude::*;
use crate::json::{json_get, json_literal, json_quote, JsonValue};
use crate::keyed::KeyedList;
use crate::outline::{covers, covers_spec, lang_of, outline, outline_spec, render, render_spec};
use crate::rules::{
    after_gap_spec, evaluate, evaluate_picks_first_firing_rule, evaluate_spec,
    fired_once_rule_is_never_picked, interrupt_spec, render_interrupt, target_spec, Rule,
};
use crate::state::{State, StateView};
use crate::scan::{class_end_exec, digits_u64, digits_value, in_class, is_digit, CharClass};
use crate::text::{chars_of, join, push_str, str_eq, unicode_trim, unicode_trim_chars};

verus! {

/// The PreToolUse denial: the reason as a JSON string inside the fixed
/// envelope.
pub open spec fn deny_spec(reason: Seq<char>) -> Seq<char> {
    "{\"hookSpecificOutput\":{\"hookEventName\":\"PreToolUse\",\"permissionDecision\":\"deny\",\"permissionDecisionReason\":"@
        + json_literal(reason) + "}}"@
}

/// The PostToolUse answer that hands context back to the model.
pub open spec fn context_spec(ctx: Seq<char>) -> Seq<char> {
    "{\"hookSpecificOutput\":{\"hookEventName\":\"PostToolUse\",\"additionalContext\":"@
        + json_literal(ctx) + "}}"@
}

/// The string field `key` of a payload.
pub open spec fn str_field_spec(v: JsonValue, key: Seq<char>) -> Option<Seq<char>> {
    match json_get(v, key) {
        Some(JsonValue::Str(s)) => Some(s@),
        _ => None,
    }
}

/// The PreToolUse denial with the given reason.
pub fn deny_response(reason: &str) -> (r: String)
    ensures
        r@ == deny_spec(reason@),
{
    let mut out = String::new();
    push_str(
        &mut out,
        "{\"hookSpecificOutput\":{\"hookEventName\":\"PreToolUse\",\"permissionDecision\":\"deny\",\"permissionDecisionReason\":",
    );
    let q = json_quote(reason);
    push_str(&mut out, q.as_str());
    push_str(&mut out, "}}");
    out
}

/// The PostToolUse answer carrying `ctx` as additional context.
pub fn additional_context_response(ctx: &str) -> (r: String)
    ensures
        r@ == context_spec(ctx@),
{
    let mut out = String::new();
    push_str(
        &mut out,
        "{\"hookSpecificOutput\":{\"hookEventName\":\"PostToolUse\",\"additionalContext\":",
    );
    let q = json_quote(ctx);
    push_str(&mut out, q.as_str());
    push_str(&mut out, "}}");
    out
}

/// The string field `key` of a payload.
pub fn str_field(v: &JsonValue, key: &str) -> (r: Option<String>)
    ensures
        match str_field_spec(*v, key@) {
            None => r is None,
            Some(s) => r matches Some(x) && x@ == s,
        },
{
    match v.get(key) {
        Some(JsonValue::Str(s)) => Some(s.clone()),
        _ => None,
    }
}

// --------------------------------------------------------------- lazy rules

/// What the lazy-rules hook reads from its payload.
pub struct LazyRequest<'a> {
    pub tool_name: String,
    pub input: &'a JsonValue,
    pub session_id: String,
    pub cwd: Option<String>,
}

/// The lazy-rules payload is acted on when it names a tool and carries a
/// `tool_input` object.
pub open spec fn lazy_request_ok(p: JsonValue) -> bool {
    &&& str_field_spec(p, "tool_name"@) is Some
    &&& json_get(p, "tool_input"@) is Some
    &&& json_get(p, "tool_input"@)->0 is Object
}

/// Reads a lazy-rules payload: the tool name, the `tool_input` object, the
/// session id ("" when absent) and the working directory, if given.
pub fn lazy_rules_request<'a>(p: &'a JsonValue) -> (r: Option<LazyRequest<'a>>)
    ensures
        r is Some <==> lazy_request_ok(*p),
        r matches Some(q) ==> {
            &&& q.tool_name@ == str_field_spec(*p, "tool_name"@)->0
            &&& *q.input == json_get(*p, "tool_input"@)->0
            &&& q.session_id@ == match str_field_spec(*p, "session_id"@) {
                Some(s) => s,
                None => Seq::<char>::empty(),
            }
            &&& match q.cwd {
                Some(c) => str_field_spec(*p, "cwd"@) == Some(c@),
                None => str_field_spec(*p, "cwd"@) is None,
            }
        },
{
    let tool_name = match str_field(p, "tool_name") {
        Some(t) => t,
        None => return None,
    };
    let input = match p.get("tool_input") {
        Some(i) => i,
        None => return None,
    };
    if !input.is_object() {
        return None;
    }
    let session_id = match str_field(p, "session_id") {
        Some(s) => s,
        None => String::new(),
    };
    let cwd = str_field(p, "cwd");
    Some(LazyRequest { tool_name, input, session_id, cwd })
}

/// One lazy-rules step on a call, as a relation between the state before
/// (`st`) and the state and output after (`r`): the call counter goes up by
/// one and the read denials are kept; the first rule that fires, judged with
/// the new counter, is recorded as fired at this call, and its interrupt is
/// either printed as a denial (interrupt mode) or queued as a reminder (soft
/// mode); when no rule fires, only the counter changes.
pub open spec fn lazy_step(
    req: &LazyRequest,
    rules: Seq<Rule>,
    st: State,
    r: (State, Option<String>),
) -> bool {
    let calls = (st.calls + 1) as u64;
    &&& r.0.calls == st.calls + 1
    &&& r.0.reads@ == st.reads@
    &&& match evaluate_spec(rules, req.tool_name@, *req.input, calls, st.fired@) {
        None => {
            &&& r.0.fired@ == st.fired@
            &&& r.0@.pending == st@.pending
            &&& r.1 is None
        },
        Some(i) => {
            let msg = interrupt_spec(
                rules[i].name@,
                target_spec(req.tool_name@, *req.input),
                rules[i].body@,
            );
            &&& r.0.fired@ == st.fired@.insert(rules[i].name@, calls)
            &&& if rules[i].interrupt {
                &&& r.0@.pending == st@.pending
                &&& r.1 matches Some(out) && out@ == deny_spec(msg)
            } else {
                &&& r.0@.pending == st@.pending.push(msg)
                &&& r.1 is None
            }
        },
    }
}

/// The lazy-rules decision for a call. With no rules loaded nothing happens
/// (`None`: the state is left as it was and not saved). Otherwise one step
/// as `lazy_step` describes it; the returned state is to be saved and the
/// text, if any, printed.
pub fn lazy_rules(req: &LazyRequest, rules: &[Rule], st: State) -> (res: Option<
    (State, Option<String>),
>)
    requires
        st.calls < u64::MAX,
    ensures
        res is None <==> rules@.len() == 0,
        res matches Some(r) ==> lazy_step(req, rules@, st, r),
{
    if rules.len() == 0 {
        return None;
    }
    Some(lazy_step_exec(req, rules, st))
}

/// One lazy-rules step.
fn lazy_step_exec(req: &LazyRequest, rules: &[Rule], st: State) -> (r: (State, Option<String>))
    requires
        st.calls < u64::MAX,
    ensures
        lazy_step(req, rules@, st, r),
{
    let mut st = st;
    st.calls = st.calls + 1;
    let hit = evaluate(rules, req.tool_name.as_str(), req.input, &st);
    match hit {
        None => (st, None),
        Some((rule, file_path)) => {
            st.fired.insert(rule.name.clone(), st.calls);
            let fp: Option<&str> = match &file_path {
                Some(s) => Some(s.as_str()),
                None => None,
            };
            let rendered = render_interrupt(rule, fp);
            if rule.interrupt {
                let out = deny_response(rendered.as_str());
                (st, Some(out))
            } else {
                let ghost before = st.pending@;
                let ghost msg = rendered@;
                st.pending.push(rendered);
                assert(st.pending@.map_values(|s: String| s@) =~= before.map_values(
                    |s: String| s@,
                ).push(msg));
                (st, None)
            }
        },
    }
}

/// What delivering the queued reminders does: nothing when there are none;
/// otherwise the queue is emptied, the rest of the state kept, and the
/// reminders are joined by blank lines into the PostToolUse answer.
pub open spec fn post_spec(st: StateView) -> Option<(StateView, Seq<char>)> {
    if st.pending.len() == 0 {
        None
    } else {
        Some(
            (
                StateView { pending: Seq::<Seq<char>>::empty(), ..st },
                context_spec(join(st.pending, "\n\n"@)),
            ),
        )
    }
}

/// Queued reminders delivered: `None` when there are none; otherwise the
/// state with the queue emptied and the PostToolUse answer carrying the
/// reminders joined by blank lines.
pub fn lazy_rules_post(st: State) -> (r: Option<(State, String)>)
    ensures
        match post_spec(st@) {
            None => r is None,
            Some((next, out)) => r matches Some((s2, o)) && s2@ == next && o@ == out,
        },
{
    if st.pending.len() == 0 {
        return None;
    }
    let mut st = st;
    let ghost parts = st@.pending;
    let mut joined = String::new();
    let mut i: usize = 0;
    while i < st.pending.len()
        invariant
            i <= st.pending@.len(),
            parts == st.pending@.map_values(|s: String| s@),
            joined@ == join(parts.take(i as int), "\n\n"@),
        decreases st.pending.len() - i,
    {
        if i > 0 {
            push_str(&mut joined, "\n\n");
        }
        push_str(&mut joined, st.pending[i].as_str());
        proof {
            let t = parts.take(i + 1);
            assert(t.drop_last() =~= parts.take(i as int));
            assert(t.last() == st.pending@[i as int]@);
            if i == 0 {
                assert(parts.take(0).len() == 0);
            }
            assert(joined@ =~= join(t, "\n\n"@));
        }
        i = i + 1;
    }
    assert(parts.take(st.pending@.len() as int) =~= parts);
    st.pending = Vec::new();
    assert(st@.pending =~= Seq::<Seq<char>>::empty());
    let out = additional_context_response(joined.as_str());
    Some((st, out))
}

// ---------------------------------------------------------- read discipline

/// `input[key]` is present and not null.
pub open spec fn bounded_spec(input: JsonValue, key: Seq<char>) -> bool {
    json_get(input, key) is Some && !(json_get(input, key)->0 is Null)
}

/// The path a Read payload asks for, when the read-discipline hook should
/// look at it: the tool is Read, `tool_input.file_path` is a string, neither
/// `offset` nor `limit` is set, and the path has a source extension.
pub open spec fn read_request_spec(p: JsonValue) -> Option<Seq<char>> {
    if str_field_spec(p, "tool_name"@) != Some("Read"@) {
        None
    } else {
        match json_get(p, "tool_input"@) {
            None => None,
            Some(input) => match str_field_spec(input, "file_path"@) {
                None => None,
                Some(f) => if bounded_spec(input, "offset"@) || bounded_spec(input, "limit"@) {
                    None
                } else if lang_of(f) is None {
                    None
                } else {
                    Some(f)
                },
            },
        }
    }
}

/// Reads a read-discipline payload: the file path when the hook should look
/// at the read, and the session id ("" when absent).
pub fn read_discipline_request(p: &JsonValue) -> (r: Option<(String, String)>)
    ensures
        match read_request_spec(*p) {
            None => r is None,
            Some(f) => r matches Some((path, session)) && path@ == f && session@ == match str_field_spec(
                *p,
                "session_id"@,
            ) {
                Some(s) => s,
                None => Seq::<char>::empty(),
            },
        },
{
    let tool = match str_field(p, "tool_name") {
        Some(t) => t,
        None => return None,
    };
    if !str_eq(tool.as_str(), "Read") {
        return None;
    }
    let input = match p.get("tool_input") {
        Some(i) => i,
        None => return None,
    };
    let file_path = match str_field(input, "file_path") {
        Some(f) => f,
        None => return None,
    };
    let offset_set = match input.get("offset") {
        Some(v) => !v.is_null(),
        None => false,
    };
    let limit_set = match input.get("limit") {
        Some(v) => !v.is_null(),
        None => false,
    };
    if offset_set || limit_set {
        return None;
    }
    if !crate::outline::is_source(file_path.as_str()) {
        return None;
    }
    let session_id = match str_field(p, "session_id") {
        Some(s) => s,
        None => String::new(),
    };
    Some((file_path, session_id))
}

/// `usize::from_str`: an optional '+' and then one or more ASCII digits.
pub open spec fn parse_unsigned(t: Seq<char>) -> Option<int> {
    let d = unsigned_digits(t);
    if d.len() > 0 && all_digits(d) {
        Some(digits_value(d))
    } else {
        None
    }
}

/// The digits of an unsigned number's text: what follows an optional '+'.
pub open spec fn unsigned_digits(t: Seq<char>) -> Seq<char> {
    if t.len() > 0 && t[0] == '+' {
        t.drop_first()
    } else {
        t
    }
}

/// Every character is an ASCII digit.
pub open spec fn all_digits(d: Seq<char>) -> bool {
    forall|k: int| 0 <= k < d.len() ==> is_digit(#[trigger] d[k])
}

/// The line count above which a whole-file read is intercepted: the value of
/// `OMP_PORT_READ_THRESHOLD`, trimmed, when it is a number that fits in
/// `usize`; 400 otherwise.
pub open spec fn threshold_spec(v: Option<Seq<char>>) -> int {
    match v {
        Some(s) => match parse_unsigned(unicode_trim(s)) {
            Some(n) => if n <= usize::MAX {
                n
            } else {
                400
            },
            None => 400,
        },
        None => 400,
    }
}

/// The line threshold, from the value of `OMP_PORT_READ_THRESHOLD` if set.
pub fn read_threshold(v: Option<&str>) -> (n: usize)
    ensures
        n == threshold_spec(
            match v {
                Some(s) => Some(s@),
                None => None,
            },
        ),
{
    let s = match v {
        Some(s) => s,
        None => return 400,
    };
    let c = chars_of(s);
    let t = unicode_trim_chars(&c);
    let start: usize = if t.len() > 0 && t[0] == '+' {
        1
    } else {
        0
    };
    let ghost d = unsigned_digits(t@);
    assert(d =~= t@.skip(start as int));
    let end = class_end_exec(&t, start, CharClass::Digit);
    if end != t.len() || start == t.len() {
        proof {
            if end != t.len() {
                assert(!in_class(CharClass::Digit, t@[end as int]));
                assert(d[end - start] == t@[end as int]);
                assert(!is_digit(d[end - start]));
            }
        }
        return 400;
    }
    assert forall|k: int| 0 <= k < d.len() implies is_digit(#[trigger] d[k]) by {
        assert(d[k] == t@[k + start]);
        assert(in_class(CharClass::Digit, t@[k + start]));
    }
    match digits_u64(&t, start) {
        Some(n) => if n <= usize::MAX as u64 {
            n as usize
        } else {
            400
        },
        None => 400,
    }
}

/// The largest file the read-discipline hook outlines, in bytes.
pub const MAX_READ_BYTES: u64 = 4 * 1024 * 1024;

/// Whether the hook looks at a path's content at all: it is a regular file
/// of at most `MAX_READ_BYTES` bytes.
pub fn file_is_outlinable(is_file: bool, len: u64) -> (b: bool)
    ensures
        b == (is_file && len <= MAX_READ_BYTES),
{
    is_file && len <= MAX_READ_BYTES
}

/// Whether the read-discipline hook denies a whole-file read of `path`
/// whose content is `text`: the path was not denied before in this session
/// (`reads` holds the denied paths), and the file has more than `threshold`
/// lines and an outline (up to 200 rows) dense enough to cover it.
pub open spec fn read_denies(
    reads: Map<Seq<char>, u64>,
    path: Seq<char>,
    text: Seq<char>,
    threshold: nat,
) -> bool {
    let o = outline_spec(text, path, 200);
    &&& !reads.contains_key(path)
    &&& o is Some
    &&& (o->0).0 > threshold
    &&& covers_spec((o->0).0, (o->0).1.len())
}

/// The read-discipline decision for a file's text: deny at most once per
/// path per session, and only when the file has more than `threshold` lines
/// and its outline (up to 200 rows) covers it. A denial records the path in
/// the state and answers with the rendered outline.
pub fn read_discipline(st: State, file_path: &str, text: &str, threshold: usize) -> (r: Option<
    (State, String),
>)
    ensures
        !read_denies(st.reads@, file_path@, text@, threshold as nat) ==> r is None,
        read_denies(st.reads@, file_path@, text@, threshold as nat) ==> ({
            let o = outline_spec(text@, file_path@, 200)->0;
            r matches Some((s2, out)) && s2.calls == st.calls && s2.fired@ == st.fired@
                && s2@.pending == st@.pending && s2.reads@ == st.reads@.insert(file_path@, 1)
                && out@ == deny_spec(render_spec(file_path@, o.0, o.1))
        }),
{
    if st.reads.contains_key(file_path) {
        return None;
    }
    let o = match outline(text, file_path, 200) {
        Some(o) => o,
        None => return None,
    };
    if o.lines <= threshold {
        return None;
    }
    if !covers(o.lines, o.rows.len()) {
        return None;
    }
    let mut st = st;
    st.reads.insert(file_path.to_owned(), 1);
    let reason = render(file_path, o.lines, o.rows.as_slice());
    let out = deny_response(reason.as_str());
    Some((st, out))
}

} // verus!

verus! {

// --------------------------------------------------------------- properties

/// Deny once per path: after the hook denies a read of a path, the next read
/// of that path in the session goes through, whatever the file holds then.
pub proof fn read_denied_at_most_once(
    reads: Map<Seq<char>, u64>,
    path: Seq<char>,
    text: Seq<char>,
    threshold: nat,
    later_text: Seq<char>,
    later_threshold: nat,
)
    requires
        read_denies(reads, path, text, threshold),
    ensures
        !read_denies(reads.insert(path, 1), path, later_text, later_threshold),
{
}

/// Reminders are delivered once: right after a delivery there is nothing left
/// to deliver.
pub proof fn reminders_delivered_once(st: StateView)
    ensures
        post_spec(st) matches Some((next, _)) ==> post_spec(next) is None,
{
}

/// A rule fires once: when a lazy-rules step picks a rule without an
/// `after-gap` policy and records it as fired, no later step picks it again,
/// whatever the call.
pub proof fn rule_fires_once_across_calls(
    rules: Seq<Rule>,
    tool: Seq<char>,
    input: JsonValue,
    calls: u64,
    fired: Map<Seq<char>, u64>,
    i: int,
    later_tool: Seq<char>,
    later_input: JsonValue,
    later_calls: u64,
)
    requires
        evaluate_spec(rules, tool, input, calls, fired) == Some(i),
        after_gap_spec(rules[i].repeat@) is None,
    ensures
        evaluate_spec(rules, later_tool, later_input, later_calls, fired.insert(rules[i].name@, calls))
            != Some(i),
{
    evaluate_picks_first_firing_rule(rules, tool, input, calls, fired);
    fired_once_rule_is_never_picked(
        rules,
        i,
        later_tool,
        later_input,
        later_calls,
        fired.insert(rules[i].name@, calls),
    );
}

/// Soft mode hands the correction back through the post-call hook: a
/// reminder that a lazy-rules step queues is delivered by the next
/// lazy-rules-post, as the last of the queued reminders.
pub proof fn soft_reminder_is_delivered_after_the_call(
    req: &LazyRequest,
    rules: Seq<Rule>,
    st: State,
    r: (State, Option<String>),
    i: int,
)
    requires
        lazy_step(req, rules, st, r),
        evaluate_spec(rules, req.tool_name@, *req.input, (st.calls + 1) as u64, st.fired@)
            == Some(i),
        !rules[i].interrupt,
    ensures
        ({
            let msg = interrupt_spec(
                rules[i].name@,
                target_spec(req.tool_name@, *req.input),
                rules[i].body@,
            );
            post_spec(r.0@) matches Some((next, out)) && next.pending.len() == 0 && out
                == context_spec(join(st@.pending.push(msg), "\n\n"@))
        }),
{
}

/// Deny-once is per path: the denials recorded for other paths do not
/// change the decision for a path, and a path never denied before is denied
/// whenever its file has more lines than the threshold and an outline that
/// covers it.
pub proof fn read_denial_depends_only_on_the_path_itself(
    reads: Map<Seq<char>, u64>,
    path: Seq<char>,
    other: Seq<char>,
    text: Seq<char>,
    threshold: nat,
)
    requires
        other != path,
    ensures
        read_denies(reads.insert(other, 1), path, text, threshold) == read_denies(
            reads,
            path,
            text,
            threshold,
        ),
        ({
            let o = outline_spec(text, path, 200);
            (!reads.contains_key(path) && o is Some && (o->0).0 > threshold && (o->0).1.len() >= if (
            o->0).0 / 80 > 4 {
                (o->0).0 / 80
            } else {
                4
            }) ==> read_denies(reads, path, text, threshold)
        }),
        reads.contains_key(path) ==> !read_denies(reads, path, text, threshold),
        (outline_spec(text, path, 200) matches Some((lines, _)) && lines <= threshold) ==> !read_denies(
            reads,
            path,
            text,
            threshold,
        ),
{
}

} // verus!
