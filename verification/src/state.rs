//! Per-session hook state: fire-once bookkeeping for rules, deny-once for
//! reads, and the reminders waiting for the post-call hook. The state file is
//! JSON with the fields `calls`, `fired`, `pending` and `reads`.
use vstd::prelude::*;
use crate::json::{json_get, JsonNumber, JsonValue};
use crate::keyed::{entries_map, keys_distinct, lemma_lookup_push, lemma_lookup_some, lookup, KeyedList};
use crate::text::{chars_of, decimal, decimal_string, push_char, push_str};

verus! {

/// The per-session state.
#[derive(Debug)]
pub struct State {
    pub calls: u64,
    pub fired: KeyedList<u64>,
    pub pending: Vec<String>,
    pub reads: KeyedList<u64>,
}

/// What a state holds: the call counter, the call at which each rule last
/// fired, the reminders not yet delivered, and the paths already denied.
pub struct StateView {
    pub calls: u64,
    pub fired: Map<Seq<char>, u64>,
    pub pending: Seq<Seq<char>>,
    pub reads: Map<Seq<char>, u64>,
}

impl View for State {
    type V = StateView;

    open spec fn view(&self) -> StateView {
        StateView {
            calls: self.calls,
            fired: self.fired@,
            pending: self.pending@.map_values(|s: String| s@),
            reads: self.reads@,
        }
    }
}

impl Default for State {
    fn default() -> (r: State)
        ensures
            r.calls == 0,
            r.fired@ == Map::<Seq<char>, u64>::empty(),
            r.pending@.len() == 0,
            r.reads@ == Map::<Seq<char>, u64>::empty(),
    {
        State { calls: 0, fired: KeyedList::new(), pending: Vec::new(), reads: KeyedList::new() }
    }
}

// -------------------------------------------------------------------- paths

/// `PathBuf::join` on Unix for a component: an absolute component replaces
/// the base; otherwise a '/' goes between them unless the base is empty or
/// already ends with one.
pub open spec fn path_join(base: Seq<char>, comp: Seq<char>) -> Seq<char> {
    if comp.len() > 0 && comp[0] == '/' {
        comp
    } else if base.len() == 0 || base.last() == '/' {
        base + comp
    } else {
        base + seq!['/'] + comp
    }
}

/// The name of the settings directory that a project and a user's home hold.
pub const SETTINGS_DIR: &'static str = "\x2eclaude";

/// The configuration directory: the directory the environment names
/// (`CLAUDE_CONFIG_DIR`) when it is set and non-empty, else the settings
/// directory under the home directory, or under "" when `HOME` is unset.
pub open spec fn config_dir_spec(env_dir: Option<Seq<char>>, home: Option<Seq<char>>) -> Seq<char> {
    let home_dir = match home {
        Some(h) => h,
        None => Seq::<char>::empty(),
    };
    match env_dir {
        Some(d) => if d.len() > 0 {
            d
        } else {
            path_join(home_dir, SETTINGS_DIR@)
        },
        None => path_join(home_dir, SETTINGS_DIR@),
    }
}

/// A character kept as it is in a state-file name.
pub open spec fn safe_char(c: char) -> bool {
    ('A' <= c && c <= 'Z') || ('a' <= c && c <= 'z') || ('0' <= c && c <= '9') || c == '.' || c
        == '_' || c == '-'
}

/// The session id as a file-name stem: "nosession" for an empty id, every
/// character outside [A-Za-z0-9._-] replaced by '_', cut to 128 characters.
pub open spec fn sanitize_spec(id: Seq<char>) -> Seq<char> {
    let src = if id.len() == 0 {
        "nosession"@
    } else {
        id
    };
    let m = src.map_values(|c: char| if safe_char(c) { c } else { '_' });
    if m.len() > 128 {
        m.take(128)
    } else {
        m
    }
}

/// The state directory under a configuration directory.
pub open spec fn state_dir_spec(config_dir: Seq<char>) -> Seq<char> {
    path_join(path_join(config_dir, "state"@), "omp-claudecode-port-project"@)
}

/// The state file of a session under a configuration directory.
pub open spec fn state_path_spec(config_dir: Seq<char>, session_id: Seq<char>) -> Seq<char> {
    path_join(state_dir_spec(config_dir), sanitize_spec(session_id) + ".json"@)
}

/// Joins a path component onto a base path as `PathBuf::join` does on Unix.
pub fn path_join_str(base: &str, comp: &str) -> (r: String)
    ensures
        r@ == path_join(base@, comp@),
{
    let c = chars_of(comp);
    if c.len() > 0 && c[0] == '/' {
        return comp.to_owned();
    }
    let b = chars_of(base);
    let mut out: String = base.to_owned();
    if b.len() > 0 && b[b.len() - 1] != '/' {
        push_char(&mut out, '/');
    }
    push_str(&mut out, comp);
    proof {
        if b@.len() > 0 {
            assert(b@.last() == b@[b@.len() - 1]);
        }
    }
    out
}

/// The configuration directory, from the values of `CLAUDE_CONFIG_DIR` and
/// `HOME` in the environment.
pub fn config_dir(env_dir: Option<&str>, home: Option<&str>) -> (r: String)
    ensures
        r@ == config_dir_spec(
            match env_dir {
                Some(d) => Some(d@),
                None => None,
            },
            match home {
                Some(h) => Some(h@),
                None => None,
            },
        ),
{
    match env_dir {
        Some(d) => if !d.is_empty() {
            return d.to_owned();
        },
        None => {},
    }
    let h: &str = match home {
        Some(h) => h,
        None => "",
    };
    proof {
        reveal_strlit("");
    }
    path_join_str(h, SETTINGS_DIR)
}

/// A character kept as it is in a state-file name.
fn is_safe_char(c: char) -> (b: bool)
    ensures
        b == safe_char(c),
{
    ('A' <= c && c <= 'Z') || ('a' <= c && c <= 'z') || ('0' <= c && c <= '9') || c == '.' || c
        == '_' || c == '-'
}

/// The session id as a file-name stem: keeps [A-Za-z0-9._-], replaces every
/// other character with '_', truncates to 128 characters; "nosession" for an
/// empty id.
pub fn sanitize(id: &str) -> (r: String)
    ensures
        r@ == sanitize_spec(id@),
{
    let src = if id.is_empty() {
        chars_of("nosession")
    } else {
        chars_of(id)
    };
    let ghost s = if id@.len() == 0 {
        "nosession"@
    } else {
        id@
    };
    let ghost m = s.map_values(|c: char| if safe_char(c) { c } else { '_' });
    let mut out = String::new();
    let mut i: usize = 0;
    while i < src.len() && i < 128
        invariant
            src@ == s,
            m == s.map_values(|c: char| if safe_char(c) { c } else { '_' }),
            i <= src.len(),
            i <= 128,
            out@ == m.take(i as int),
        decreases src.len() - i,
    {
        let c = if is_safe_char(src[i]) {
            src[i]
        } else {
            '_'
        };
        push_char(&mut out, c);
        assert(m.take(i + 1) =~= m.take(i as int).push(m[i as int]));
        i = i + 1;
    }
    proof {
        if m.len() > 128 {
            assert(i == 128);
        } else {
            assert(m.take(i as int) =~= m);
        }
    }
    out
}

/// The state directory: `<config_dir>/state/omp-claudecode-port-project`.
pub fn state_dir(config_dir: &str) -> (r: String)
    ensures
        r@ == state_dir_spec(config_dir@),
{
    let a = path_join_str(config_dir, "state");
    path_join_str(a.as_str(), "omp-claudecode-port-project")
}

/// The state file of a session: `<state_dir>/<sanitize(session_id)>.json`.
pub fn state_path(config_dir: &str, session_id: &str) -> (r: String)
    ensures
        r@ == state_path_spec(config_dir@, session_id@),
{
    let dir = state_dir(config_dir);
    let mut name = sanitize(session_id);
    push_str(&mut name, ".json");
    path_join_str(dir.as_str(), name.as_str())
}

// ------------------------------------------------------------ from/to JSON

/// `value.as_u64()`, or 0.
pub open spec fn u64_of_spec(v: Option<JsonValue>) -> u64 {
    match v {
        Some(JsonValue::Number(n)) => match n.as_u64 {
            Some(x) => x,
            None => 0,
        },
        _ => 0,
    }
}

/// The counters an object's entries describe, each value read with
/// `u64_of_spec`; a later entry for a key overrides an earlier one.
pub open spec fn counters_map(o: Seq<(String, JsonValue)>) -> Map<Seq<char>, u64>
    decreases o.len(),
{
    if o.len() == 0 {
        Map::<Seq<char>, u64>::empty()
    } else {
        counters_map(o.drop_last()).insert(o.last().0@, u64_of_spec(Some(o.last().1)))
    }
}

/// The counters of an optional value: empty unless it is an object.
pub open spec fn counters_of(v: Option<JsonValue>) -> Map<Seq<char>, u64> {
    match v {
        Some(JsonValue::Object(o)) => counters_map(o@),
        _ => Map::<Seq<char>, u64>::empty(),
    }
}

/// The strings of an optional value: the string elements of an array, in
/// order; empty for anything else.
pub open spec fn strings_of(v: Option<JsonValue>) -> Seq<Seq<char>> {
    match v {
        Some(JsonValue::Array(a)) => a@.filter_map(
            |x: JsonValue|
                match x {
                    JsonValue::Str(s) => Some(s@),
                    _ => None,
                },
        ),
        _ => Seq::<Seq<char>>::empty(),
    }
}

/// The state a parsed state file describes.
pub open spec fn state_of_json(v: JsonValue) -> StateView {
    StateView {
        calls: u64_of_spec(json_get(v, "calls"@)),
        fired: counters_of(json_get(v, "fired"@)),
        pending: strings_of(json_get(v, "pending"@)),
        reads: counters_of(json_get(v, "reads"@)),
    }
}

/// `v` is the JSON number `n`.
pub open spec fn is_number(v: JsonValue, n: u64) -> bool {
    &&& v is Number
    &&& v->Number_0.as_u64 == Some(n)
    &&& v->Number_0.nonzero == (n != 0)
    &&& v->Number_0.text@ == decimal(n as nat)
}

/// `o` is the JSON object of the counters `c`, entry by entry.
pub open spec fn is_counters_object(o: Seq<(String, JsonValue)>, c: Seq<(String, u64)>) -> bool {
    &&& o.len() == c.len()
    &&& forall|i: int|
        0 <= i < o.len() ==> (#[trigger] o[i]).0@ == c[i].0@ && is_number(o[i].1, c[i].1)
}

/// `v` is the JSON the state file of `st` holds: an object with `calls`,
/// `fired`, `pending` and `reads`, in that order.
pub open spec fn is_state_json(v: JsonValue, st: &State) -> bool {
    &&& v is Object
    &&& v->Object_0@.len() == 4
    &&& v->Object_0@[0].0@ == "calls"@
    &&& is_number(v->Object_0@[0].1, st.calls)
    &&& v->Object_0@[1].0@ == "fired"@
    &&& v->Object_0@[1].1 is Object
    &&& is_counters_object(v->Object_0@[1].1->Object_0@, st.fired.entry_seq())
    &&& v->Object_0@[2].0@ == "pending"@
    &&& v->Object_0@[2].1 is Array
    &&& v->Object_0@[2].1->Array_0@.len() == st.pending@.len()
    &&& forall|i: int|
        0 <= i < st.pending@.len() ==> (#[trigger] v->Object_0@[2].1->Array_0@[i]) is Str
            && v->Object_0@[2].1->Array_0@[i]->Str_0@ == st.pending@[i]@
    &&& v->Object_0@[3].0@ == "reads"@
    &&& v->Object_0@[3].1 is Object
    &&& is_counters_object(v->Object_0@[3].1->Object_0@, st.reads.entry_seq())
}

/// `value.as_u64()`, or 0.
fn u64_of(v: Option<&JsonValue>) -> (n: u64)
    ensures
        n == u64_of_spec(
            match v {
                Some(x) => Some(*x),
                None => None,
            },
        ),
{
    match v {
        Some(x) => match x.as_u64() {
            Some(n) => n,
            None => 0,
        },
        None => 0,
    }
}

/// The counters of an optional object value.
fn counters_from(v: Option<&JsonValue>) -> (r: KeyedList<u64>)
    ensures
        r@ == counters_of(
            match v {
                Some(x) => Some(*x),
                None => None,
            },
        ),
{
    let mut out: KeyedList<u64> = KeyedList::new();
    if let Some(JsonValue::Object(o)) = v {
        let mut i: usize = 0;
        while i < o.len()
            invariant
                i <= o@.len(),
                out@ == counters_map(o@.take(i as int)),
            decreases o.len() - i,
        {
            let ghost t = o@.take(i + 1);
            assert(t.drop_last() =~= o@.take(i as int));
            assert(t.last() == o@[i as int]);
            let n = u64_of(Some(&o[i].1));
            out.insert(o[i].0.clone(), n);
            i = i + 1;
        }
        assert(o@.take(o@.len() as int) =~= o@);
    } else {
        assert(out@ =~= Map::<Seq<char>, u64>::empty());
    }
    out
}

/// The string elements of an optional array value.
fn strings_from(v: Option<&JsonValue>) -> (r: Vec<String>)
    ensures
        r@.map_values(|s: String| s@) == strings_of(
            match v {
                Some(x) => Some(*x),
                None => None,
            },
        ),
{
    let mut out: Vec<String> = Vec::new();
    if let Some(JsonValue::Array(a)) = v {
        let ghost f = |x: JsonValue|
            match x {
                JsonValue::Str(s) => Some(s@),
                _ => None,
            };
        let mut i: usize = 0;
        while i < a.len()
            invariant
                i <= a@.len(),
                f == (|x: JsonValue|
                    match x {
                        JsonValue::Str(s) => Some(s@),
                        _ => None,
                    }),
                out@.map_values(|s: String| s@) == a@.take(i as int).filter_map(f),
            decreases a.len() - i,
        {
            let ghost t = a@.take(i + 1);
            assert(t.drop_last() =~= a@.take(i as int));
            assert(t.last() == a@[i as int]);
            let ghost before = out@;
            if let JsonValue::Str(s) = &a[i] {
                out.push(s.clone());
                assert(out@.map_values(|s: String| s@) =~= before.map_values(|s: String| s@).push(
                    s@,
                ));
            }
            i = i + 1;
        }
        assert(a@.take(a@.len() as int) =~= a@);
    } else {
        assert(out@.map_values(|s: String| s@) =~= Seq::<Seq<char>>::empty());
    }
    out
}

/// Reads a parsed state file: `calls` as an integer (0 when missing or not
/// a non-negative integer), `fired` and `reads` from objects of counters,
/// `pending` from the string elements of an array; anything missing or of
/// another type reads as empty.
pub fn state_from_json(v: &JsonValue) -> (st: State)
    ensures
        st@ == state_of_json(*v),
{
    let calls = u64_of(v.get("calls"));
    let fired = counters_from(v.get("fired"));
    let pending = strings_from(v.get("pending"));
    let reads = counters_from(v.get("reads"));
    State { calls, fired, pending, reads }
}

/// The JSON number for an integer.
fn number(n: u64) -> (v: JsonValue)
    ensures
        is_number(v, n),
{
    JsonValue::Number(JsonNumber { text: decimal_string(n), nonzero: n != 0, as_u64: Some(n) })
}

/// The JSON object of a counter map, entry by entry.
fn counters_json(c: &KeyedList<u64>) -> (v: JsonValue)
    ensures
        v is Object,
        is_counters_object(v->Object_0@, c.entry_seq()),
{
    let mut o: Vec<(String, JsonValue)> = Vec::new();
    let mut i: usize = 0;
    while i < c.len()
        invariant
            i <= c.entry_seq().len(),
            o@.len() == i,
            forall|k: int|
                0 <= k < i ==> (#[trigger] o@[k]).0@ == c.entry_seq()[k].0@ && is_number(
                    o@[k].1,
                    c.entry_seq()[k].1,
                ),
        decreases c.entry_seq().len() - i,
    {
        let (k, n) = c.entry(i);
        o.push((k.clone(), number(*n)));
        i = i + 1;
    }
    JsonValue::Object(o)
}

/// The JSON a state file holds: `{"calls":N,"fired":{..},"pending":[..],"reads":{..}}`.
pub fn state_to_json(st: &State) -> (v: JsonValue)
    ensures
        is_state_json(v, st),
{
    let mut pending: Vec<JsonValue> = Vec::new();
    let mut i: usize = 0;
    while i < st.pending.len()
        invariant
            i <= st.pending@.len(),
            pending@.len() == i,
            forall|k: int|
                0 <= k < i ==> (#[trigger] pending@[k]) is Str && pending@[k]->Str_0@
                    == st.pending@[k]@,
        decreases st.pending.len() - i,
    {
        pending.push(JsonValue::Str(st.pending[i].clone()));
        i = i + 1;
    }
    let mut root: Vec<(String, JsonValue)> = Vec::new();
    root.push(("calls".to_owned(), number(st.calls)));
    root.push(("fired".to_owned(), counters_json(&st.fired)));
    root.push(("pending".to_owned(), JsonValue::Array(pending)));
    root.push(("reads".to_owned(), counters_json(&st.reads)));
    JsonValue::Object(root)
}

} // verus!

verus! {

// --------------------------------------------------------------- properties

/// An object that lists counters entry by entry, with no key twice, reads
/// back as the map of those counters.
proof fn lemma_counters_object(o: Seq<(String, JsonValue)>, c: Seq<(String, u64)>)
    requires
        is_counters_object(o, c),
        keys_distinct(c),
    ensures
        counters_map(o) == entries_map(c),
    decreases o.len(),
{
    if o.len() == 0 {
        assert(entries_map(c) =~= Map::<Seq<char>, u64>::empty());
    } else {
        let o1 = o.drop_last();
        let c1 = c.drop_last();
        let e = c.last();
        assert(is_counters_object(o1, c1)) by {
            assert forall|i: int| 0 <= i < o1.len() implies (#[trigger] o1[i]).0@ == c1[i].0@
                && is_number(o1[i].1, c1[i].1) by {
                assert(o1[i] == o[i]);
                assert(c1[i] == c[i]);
            }
        }
        assert(keys_distinct(c1)) by {
            assert forall|a: int, b: int| 0 <= a < b < c1.len() implies (#[trigger] c1[a]).0@ != (
            #[trigger] c1[b]).0@ by {
                assert(c1[a] == c[a]);
                assert(c1[b] == c[b]);
            }
        }
        lemma_counters_object(o1, c1);
        assert(o.last() == o[o.len() - 1]);
        assert(u64_of_spec(Some(o.last().1)) == e.1);
        assert(c =~= c1.push(e));
        assert(lookup(c1, e.0@) is None) by {
            lemma_lookup_some(c1, e.0@);
            assert forall|i: int| 0 <= i < c1.len() implies (#[trigger] c1[i]).0@ != e.0@ by {
                assert(c1[i] == c[i]);
            }
        }
        assert forall|k: Seq<char>| #[trigger] lookup(c, k) == if k == e.0@ {
            Some(e.1)
        } else {
            lookup(c1, k)
        } by {
            lemma_lookup_push(c1, e, k);
        }
        assert(entries_map(c) =~= entries_map(c1).insert(e.0@, e.1));
    }
}

/// An array of strings, element by element, reads back as those strings.
proof fn lemma_string_array(a: Seq<JsonValue>, p: Seq<String>)
    requires
        a.len() == p.len(),
        forall|i: int| 0 <= i < a.len() ==> (#[trigger] a[i]) is Str && a[i]->Str_0@ == p[i]@,
    ensures
        a.filter_map(
            |x: JsonValue|
                match x {
                    JsonValue::Str(s) => Some(s@),
                    _ => None,
                },
        ) == p.map_values(|s: String| s@),
    decreases a.len(),
{
    let f = |x: JsonValue|
        match x {
            JsonValue::Str(s) => Some(s@),
            _ => None,
        };
    if a.len() == 0 {
        assert(p.map_values(|s: String| s@) =~= Seq::<Seq<char>>::empty());
    } else {
        let a1 = a.drop_last();
        let p1 = p.drop_last();
        assert forall|i: int| 0 <= i < a1.len() implies (#[trigger] a1[i]) is Str && a1[i]->Str_0@
            == p1[i]@ by {
            assert(a1[i] == a[i]);
            assert(p1[i] == p[i]);
        }
        lemma_string_array(a1, p1);
        assert(a.last() == a[a.len() - 1]);
        assert(f(a.last()) == Some(p.last()@));
        assert(p.map_values(|s: String| s@) =~= p1.map_values(|s: String| s@) + seq![p.last()@]);
    }
}

/// A saved state reads back as itself: the JSON that `state_to_json` writes
/// for a state is read by `state_from_json` as that same state.
pub proof fn state_json_roundtrip(v: JsonValue, st: State)
    requires
        st.fired.wf(),
        st.reads.wf(),
        is_state_json(v, &st),
    ensures
        state_of_json(v) == st@,
{
    let o = v->Object_0@;
    reveal_strlit("calls");
    reveal_strlit("fired");
    reveal_strlit("pending");
    reveal_strlit("reads");
    let o1 = o.drop_first();
    let o2 = o1.drop_first();
    let o3 = o2.drop_first();
    assert(o1[0] == o[1] && o2[0] == o[2] && o3[0] == o[3]);
    assert("calls"@[0] != "fired"@[0] && "calls"@[0] != "pending"@[0] && "calls"@[0] != "reads"@[0]);
    assert("fired"@[0] != "pending"@[0] && "fired"@[0] != "reads"@[0]);
    assert("pending"@[0] != "reads"@[0]);
    assert(lookup(o, "fired"@) == lookup(o1, "fired"@));
    assert(lookup(o, "pending"@) == lookup(o1, "pending"@));
    assert(lookup(o1, "pending"@) == lookup(o2, "pending"@));
    assert(lookup(o, "reads"@) == lookup(o1, "reads"@));
    assert(lookup(o1, "reads"@) == lookup(o2, "reads"@));
    assert(lookup(o2, "reads"@) == lookup(o3, "reads"@));
    assert(json_get(v, "calls"@) == Some(o[0].1));
    assert(json_get(v, "fired"@) == Some(o[1].1));
    assert(json_get(v, "pending"@) == Some(o[2].1));
    assert(json_get(v, "reads"@) == Some(o[3].1));
    st.fired.lemma_view();
    st.reads.lemma_view();
    lemma_counters_object(o[1].1->Object_0@, st.fired.entry_seq());
    lemma_counters_object(o[3].1->Object_0@, st.reads.entry_seq());
    lemma_string_array(o[2].1->Array_0@, st.pending@);
    assert(state_of_json(v).fired =~= st@.fired);
    assert(state_of_json(v).reads =~= st@.reads);
    assert(state_of_json(v).pending =~= st@.pending);
}


/// A sanitized session id is a usable file-name stem: between 1 and 128
/// characters, all of them in [A-Za-z0-9._-].
pub proof fn sanitize_is_safe(id: Seq<char>)
    ensures
        0 < sanitize_spec(id).len() <= 128,
        forall|i: int| 0 <= i < sanitize_spec(id).len() ==> safe_char(#[trigger] sanitize_spec(id)[i]),
{
    reveal_strlit("nosession");
    let src = if id.len() == 0 {
        "nosession"@
    } else {
        id
    };
    let m = src.map_values(|c: char| if safe_char(c) { c } else { '_' });
    assert forall|i: int| 0 <= i < m.len() implies safe_char(#[trigger] m[i]) by {}
}

/// Sanitizing is idempotent: a sanitized id is its own sanitized form.
pub proof fn sanitize_idempotent(id: Seq<char>)
    ensures
        sanitize_spec(sanitize_spec(id)) == sanitize_spec(id),
{
    let y = sanitize_spec(id);
    sanitize_is_safe(id);
    let m = y.map_values(|c: char| if safe_char(c) { c } else { '_' });
    assert(m =~= y);
}

/// Sanitizing keeps the first 128 characters of a non-empty id, each one in
/// [A-Za-z0-9._-] as it is and every other one as '_'.
pub proof fn sanitize_keeps_safe_and_replaces_the_rest(id: Seq<char>)
    requires
        id.len() > 0,
    ensures
        sanitize_spec(id).len() == if id.len() > 128 { 128 } else { id.len() },
        forall|i: int|
            0 <= i < sanitize_spec(id).len() ==> #[trigger] sanitize_spec(id)[i] == if ('A' <= id[i]
                && id[i] <= 'Z') || ('a' <= id[i] && id[i] <= 'z') || ('0' <= id[i] && id[i] <= '9')
                || id[i] == '.' || id[i] == '_' || id[i] == '-' {
                id[i]
            } else {
                '_'
            },
{
}

} // verus!
