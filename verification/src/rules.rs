//! Rule files, scopes and evaluation.
//!
//! A rule is a markdown file with a frontmatter block. Its `condition` is an
//! ECMAScript regex (run by `regress`) matched against only the new content a
//! tool call introduces; `scope` limits it to tools and path globs; `repeat`
//! says when it may fire again.
use vstd::prelude::*;
use crate::json::{js_string, js_to_string, json_get, truthy, truthy_spec, JsonValue};
use crate::keyed::KeyedList;
use crate::regex::{compile, finds, regex_compiles, regex_finds};
use crate::scan::{
    class_end, class_end_exec, digit_value, digits_u64, digits_value, find_from, find_from_exec, in_class,
    is_digit, is_letter, lemma_class_end, lemma_find_from_found, occurs_at, occurs_at_exec, CharClass,
};
use crate::state::{path_join, path_join_str, State, SETTINGS_DIR};
use crate::text::{
    base_name, base_name_bounds, chars_of, decimal, digit_char, join, js_line_terminator, js_trim,
    push_char, push_str, split_chars, split_on, str_eq, string_of, string_of_range, sub_vec,
    trim_chars, views_of,
};

verus! {

/// One `tool:NAME` or `tool:NAME(glob)` entry of a scope.
#[derive(Debug, Clone)]
pub struct ScopeEntry {
    pub tool: String,
    pub glob: Option<String>,
}

/// A loaded rule.
#[derive(Debug, Clone)]
pub struct Rule {
    pub name: String,
    pub description: String,
    /// The regex, verbatim from the frontmatter.
    pub condition: String,
    pub flags: String,
    pub scope: Vec<ScopeEntry>,
    pub repeat: String,
    pub interrupt: bool,
    pub body: String,
}

/// What a rule holds.
pub struct RuleView {
    pub name: Seq<char>,
    pub description: Seq<char>,
    pub condition: Seq<char>,
    pub flags: Seq<char>,
    pub scope: Seq<(Seq<char>, Option<Seq<char>>)>,
    pub repeat: Seq<char>,
    pub interrupt: bool,
    pub body: Seq<char>,
}

impl View for Rule {
    type V = RuleView;

    open spec fn view(&self) -> RuleView {
        RuleView {
            name: self.name@,
            description: self.description@,
            condition: self.condition@,
            flags: self.flags@,
            scope: scope_view(self.scope@),
            repeat: self.repeat@,
            interrupt: self.interrupt,
            body: self.body@,
        }
    }
}

/// A parsed frontmatter block and the text after it.
pub struct Frontmatter {
    pub meta: KeyedList<String>,
    pub body: String,
}

/// The characters of an optional string.
pub open spec fn opt_view(o: Option<String>) -> Option<Seq<char>> {
    match o {
        Some(s) => Some(s@),
        None => None,
    }
}

/// A map of strings by the characters of its values.
pub open spec fn string_map_view(m: Map<Seq<char>, String>) -> Map<Seq<char>, Seq<char>> {
    Map::new(|k: Seq<char>| m.contains_key(k), |k: Seq<char>| m[k]@)
}

/// A scope entry as (tool, glob).
pub open spec fn entry_view(e: ScopeEntry) -> (Seq<char>, Option<Seq<char>>) {
    (e.tool@, opt_view(e.glob))
}

/// A scope as a sequence of (tool, glob).
pub open spec fn scope_view(s: Seq<ScopeEntry>) -> Seq<(Seq<char>, Option<Seq<char>>)> {
    s.map_values(|e: ScopeEntry| entry_view(e))
}

// ----------------------------------------------------------------- basename

/// Node's `path.posix.basename`.
pub fn basename(p: &str) -> (r: String)
    ensures
        r@ == base_name(p@),
{
    let v = chars_of(p);
    let (s, e) = base_name_bounds(&v);
    string_of_range(&v, s, e)
}

// -------------------------------------------------------------- frontmatter

/// One layer of matching quotes, '"' or '\'', stripped from a value.
pub open spec fn unquote(v: Seq<char>) -> Seq<char> {
    if v.len() >= 2 && ((v[0] == '"' && v.last() == '"') || (v[0] == '\'' && v.last() == '\'')) {
        v.subrange(1, v.len() - 1)
    } else {
        v
    }
}

/// A `key: value` line, as the regex `^([A-Za-z_][A-Za-z0-9_-]*)\s*:\s*(.*)$`
/// reads it: the key, whitespace, a colon, whitespace, and a value that holds
/// no line terminator; the value is trimmed and loses one layer of quotes.
pub open spec fn kv_parse(line: Seq<char>) -> Option<(Seq<char>, Seq<char>)> {
    if line.len() == 0 || !(is_letter(line[0]) || line[0] == '_') {
        None
    } else {
        let k = class_end(line, 1, CharClass::KeyChar);
        let c = class_end(line, k, CharClass::Space);
        if c >= line.len() || line[c] != ':' {
            None
        } else {
            let r = class_end(line, c + 1, CharClass::Space);
            let v = line.skip(r);
            if exists|i: int| 0 <= i < v.len() && js_line_terminator(#[trigger] v[i]) {
                None
            } else {
                Some((line.take(k), unquote(js_trim(v))))
            }
        }
    }
}

/// The metadata of the frontmatter lines: each `key: value` line sets its
/// key, a later line overriding an earlier one; other lines are ignored.
pub open spec fn meta_of(lines: Seq<Seq<char>>) -> Map<Seq<char>, Seq<char>>
    decreases lines.len(),
{
    if lines.len() == 0 {
        Map::<Seq<char>, Seq<char>>::empty()
    } else {
        let m = meta_of(lines.drop_last());
        match kv_parse(lines.last()) {
            Some((k, v)) => m.insert(k, v),
            None => m,
        }
    }
}

/// What `parse_frontmatter` finds in a text: `None` unless the text starts
/// with "---" and a later line starts with "---". The block runs from the
/// line after the opening marker to the closing one; the body is what follows
/// the line of the closing marker, trimmed, or the whole text when that line
/// is the last.
pub open spec fn frontmatter_spec(t: Seq<char>) -> Option<(Map<Seq<char>, Seq<char>>, Seq<char>)> {
    if !occurs_at(t, 0, seq!['-', '-', '-']) {
        None
    } else {
        match find_from(t, seq!['\n', '-', '-', '-'], 3) {
            None => None,
            Some(end) => {
                let raw_start = match find_from(t, seq!['\n'], 3) {
                    Some(i) => i + 1,
                    None => 0,
                };
                let raw = if raw_start >= end {
                    Seq::<char>::empty()
                } else {
                    t.subrange(raw_start, end)
                };
                let body = match find_from(t, seq!['\n'], end + 1) {
                    Some(i) => t.skip(i + 1),
                    None => t,
                };
                Some((meta_of(split_on(raw, '\n')), js_trim(body)))
            },
        }
    }
}

/// Reads one `key: value` line.
fn kv_parse_exec(line: &Vec<char>) -> (r: Option<(String, String)>)
    ensures
        match kv_parse(line@) {
            None => r is None,
            Some((k, v)) => r matches Some((a, b)) && a@ == k && b@ == v,
        },
{
    if line.len() == 0 || !(('A' <= line[0] && line[0] <= 'Z') || ('a' <= line[0] && line[0]
        <= 'z') || line[0] == '_') {
        return None;
    }
    let k = class_end_exec(line, 1, CharClass::KeyChar);
    let c = class_end_exec(line, k, CharClass::Space);
    if c >= line.len() || line[c] != ':' {
        return None;
    }
    let r = class_end_exec(line, c + 1, CharClass::Space);
    let mut i = r;
    #[verifier::loop_isolation(false)]
    while i < line.len()
        invariant
            r <= i <= line.len(),
            forall|j: int| r <= j < i ==> !js_line_terminator(#[trigger] line@[j]),
        decreases line.len() - i,
    {
        let ch = line[i];
        if ch == '\n' || ch == '\r' || ch == '\u{2028}' || ch == '\u{2029}' {
            assert(js_line_terminator(line@.skip(r as int)[i - r]));
            return None;
        }
        i = i + 1;
    }
    proof {
        let v = line@.skip(r as int);
        assert forall|j: int| 0 <= j < v.len() implies !js_line_terminator(#[trigger] v[j]) by {
            assert(v[j] == line@[j + r]);
        }
    }
    let key = string_of_range(line, 0, k);
    assert(line@.subrange(0, k as int) =~= line@.take(k as int));
    let rest = sub_vec(line, r, line.len());
    assert(rest@ =~= line@.skip(r as int));
    let trimmed = trim_chars(&rest);
    let tv = chars_of(trimmed.as_str());
    let n = tv.len();
    let value = if n >= 2 && ((tv[0] == '"' && tv[n - 1] == '"') || (tv[0] == '\'' && tv[n - 1]
        == '\'')) {
        string_of_range(&tv, 1, n - 1)
    } else {
        trimmed
    };
    Some((key, value))
}

/// Parses a frontmatter block delimited by "---" lines: its `key: value`
/// lines and the trimmed body after it.
pub fn parse_frontmatter(text: &str) -> (r: Option<Frontmatter>)
    ensures
        match frontmatter_spec(text@) {
            None => r is None,
            Some((m, b)) => r matches Some(fm) && string_map_view(fm.meta@) == m && fm.body@ == b,
        },
{
    let t = chars_of(text);
    let dashes: Vec<char> = vec!['-', '-', '-'];
    if !occurs_at_exec(&t, 0, &dashes) {
        return None;
    }
    let marker: Vec<char> = vec!['\n', '-', '-', '-'];
    let newline: Vec<char> = vec!['\n'];
    assert(dashes@ =~= seq!['-', '-', '-']);
    assert(marker@ =~= seq!['\n', '-', '-', '-']);
    assert(newline@ =~= seq!['\n']);
    let end = match find_from_exec(&t, &marker, 3) {
        Some(e) => e,
        None => return None,
    };
    proof {
        assert(occurs_at(t@, end as int, marker@));
        assert(marker@.len() == 4);
        assert(end + 4 <= t.len());
    }
    let raw_start = match find_from_exec(&t, &newline, 3) {
        Some(i) => {
            assert(occurs_at(t@, i as int, newline@));
            assert(newline@.len() == 1);
            assert(i + 1 <= t.len());
            i + 1
        },
        None => 0,
    };
    let raw: Vec<char> = if raw_start >= end {
        Vec::new()
    } else {
        sub_vec(&t, raw_start, end)
    };
    let body_v: Vec<char> = match find_from_exec(&t, &newline, end + 1) {
        Some(i) => {
            proof {
                assert(occurs_at(t@, i as int, newline@));
            }
            let b = sub_vec(&t, i + 1, t.len());
            assert(b@ =~= t@.skip(i + 1));
            b
        },
        None => sub_vec(&t, 0, t.len()),
    };
    assert(t@.subrange(0, t@.len() as int) =~= t@);
    let body = trim_chars(&body_v);
    let lines = split_chars(&raw, '\n');
    let ghost ls = split_on(raw@, '\n');
    let mut meta: KeyedList<String> = KeyedList::new();
    assert(string_map_view(meta@) =~= Map::<Seq<char>, Seq<char>>::empty());
    let mut i: usize = 0;
    assert(ls.take(0) =~= Seq::<Seq<char>>::empty());
    while i < lines.len()
        invariant
            i <= lines@.len(),
            views_of(lines@) == ls,
            string_map_view(meta@) == meta_of(ls.take(i as int)),
        decreases lines.len() - i,
    {
        let ghost t2 = ls.take(i + 1);
        assert(t2.drop_last() =~= ls.take(i as int));
        assert(t2.last() == lines@[i as int]@);
        match kv_parse_exec(&lines[i]) {
            Some((k, v)) => {
                let ghost before = meta@;
                let ghost kk = k@;
                let ghost vv = v@;
                meta.insert(k, v);
                assert(string_map_view(meta@) =~= string_map_view(before).insert(kk, vv));
            },
            None => {},
        }
        i = i + 1;
    }
    assert(ls.take(lines@.len() as int) =~= ls);
    Some(Frontmatter { meta, body })
}

// -------------------------------------------------------------------- scope

/// One scope entry, as the regex
/// `^tool:([A-Za-z_][A-Za-z0-9_]*)\s*(?:\(([^)]*)\))?$` reads a trimmed part:
/// "tool:", a tool name, whitespace, and optionally a parenthesised glob with
/// no ')' inside that ends the part. An empty glob is none; a glob is trimmed.
pub open spec fn scope_entry_spec(p: Seq<char>) -> Option<(Seq<char>, Option<Seq<char>>)> {
    if !(p.len() >= 6 && occurs_at(p, 0, seq!['t', 'o', 'o', 'l', ':']) && (is_letter(p[5])
        || p[5] == '_')) {
        None
    } else {
        let e = class_end(p, 6, CharClass::IdentChar);
        let r = class_end(p, e, CharClass::Space);
        if r == p.len() {
            Some((p.subrange(5, e), None))
        } else if p[r] == '(' && p.last() == ')' && r < p.len() - 1 && (forall|i: int|
            r < i < p.len() - 1 ==> #[trigger] p[i] != ')') {
            let inner = p.subrange(r + 1, p.len() - 1);
            Some(
                (
                    p.subrange(5, e),
                    if inner.len() == 0 {
                        None
                    } else {
                        Some(js_trim(inner))
                    },
                ),
            )
        } else {
            None
        }
    }
}

/// The entries of the comma-separated parts: each part trimmed, parts that
/// are not an entry dropped.
pub open spec fn scope_entries(parts: Seq<Seq<char>>) -> Seq<(Seq<char>, Option<Seq<char>>)> {
    parts.map_values(|x: Seq<char>| js_trim(x)).filter_map(|x: Seq<char>| scope_entry_spec(x))
}

/// A scope string read entry by entry: empty for an empty string.
pub open spec fn scope_spec(s: Seq<char>) -> Seq<(Seq<char>, Option<Seq<char>>)> {
    if s.len() == 0 {
        Seq::empty()
    } else {
        scope_entries(split_on(s, ','))
    }
}

/// Reads one trimmed scope part.
fn scope_entry(p: &Vec<char>) -> (r: Option<ScopeEntry>)
    ensures
        match scope_entry_spec(p@) {
            None => r is None,
            Some(e) => r matches Some(x) && entry_view(x) == e,
        },
{
    let prefix: Vec<char> = vec!['t', 'o', 'o', 'l', ':'];
    assert(prefix@ =~= seq!['t', 'o', 'o', 'l', ':']);
    if !(p.len() >= 6 && occurs_at_exec(p, 0, &prefix) && (('A' <= p[5] && p[5] <= 'Z') || ('a'
        <= p[5] && p[5] <= 'z') || p[5] == '_')) {
        return None;
    }
    let e = class_end_exec(p, 6, CharClass::IdentChar);
    let r = class_end_exec(p, e, CharClass::Space);
    let tool = string_of_range(p, 5, e);
    if r == p.len() {
        return Some(ScopeEntry { tool, glob: None });
    }
    let n = p.len();
    if !(p[r] == '(' && p[n - 1] == ')' && r < n - 1) {
        return None;
    }
    let mut i = r + 1;
    #[verifier::loop_isolation(false)]
    while i < n - 1
        invariant
            r < i <= n - 1,
            n == p@.len(),
            forall|j: int| r < j < i ==> #[trigger] p@[j] != ')',
        decreases n - 1 - i,
    {
        if p[i] == ')' {
            return None;
        }
        i = i + 1;
    }
    if r + 1 == n - 1 {
        return Some(ScopeEntry { tool, glob: None });
    }
    let inner = sub_vec(p, r + 1, n - 1);
    let g = trim_chars(&inner);
    Some(ScopeEntry { tool, glob: Some(g) })
}

/// Parses a scope string such as "tool:Bash, tool:Write(*.sh)" into its
/// entries; parts that are not `tool:NAME` or `tool:NAME(glob)` are dropped.
pub fn parse_scope(scope: &str) -> (r: Vec<ScopeEntry>)
    ensures
        scope_view(r@) == scope_spec(scope@),
{
    let mut out: Vec<ScopeEntry> = Vec::new();
    if scope.is_empty() {
        assert(scope_view(out@) =~= Seq::<(Seq<char>, Option<Seq<char>>)>::empty());
        return out;
    }
    let v = chars_of(scope);
    let parts = split_chars(&v, ',');
    let ghost ps = split_on(v@, ',');
    let mut i: usize = 0;
    assert(ps.take(0) =~= Seq::<Seq<char>>::empty());
    assert(scope_view(out@) =~= scope_entries(ps.take(0)));
    while i < parts.len()
        invariant
            i <= parts@.len(),
            views_of(parts@) == ps,
            scope_view(out@) == scope_entries(ps.take(i as int)),
        decreases parts.len() - i,
    {
        let ghost t = ps.take(i + 1);
        let ghost mt = t.map_values(|x: Seq<char>| js_trim(x));
        assert(mt.drop_last() =~= ps.take(i as int).map_values(|x: Seq<char>| js_trim(x)));
        assert(mt.last() == js_trim(parts@[i as int]@));
        let trimmed = trim_chars(&parts[i]);
        let pv = chars_of(trimmed.as_str());
        let ghost before = out@;
        match scope_entry(&pv) {
            Some(e) => {
                out.push(e);
                assert(scope_view(out@) =~= scope_view(before).push(entry_view(e)));
            },
            None => {},
        }
        assert(scope_view(out@) == scope_entries(t));
        i = i + 1;
    }
    assert(ps.take(parts@.len() as int) =~= ps);
    out
}

// --------------------------------------------------------------------- glob

/// Characters a glob takes literally that a regex would not.
pub open spec fn glob_meta(c: char) -> bool {
    c == '.' || c == '+' || c == '^' || c == '$' || c == '{' || c == '}' || c == '(' || c == ')'
        || c == '|' || c == '[' || c == ']' || c == '\\'
}

/// The regex text of a glob: `**` is `.*`, `*` is `[^/]*`, `?` is `[^/]`,
/// regex metacharacters are escaped, everything else is itself.
pub open spec fn glob_body(g: Seq<char>) -> Seq<char>
    decreases g.len(),
{
    if g.len() == 0 {
        Seq::<char>::empty()
    } else if g[0] == '*' {
        if g.len() > 1 && g[1] == '*' {
            seq!['.', '*'] + glob_body(g.skip(2))
        } else {
            seq!['[', '^', '/', ']', '*'] + glob_body(g.skip(1))
        }
    } else if g[0] == '?' {
        seq!['[', '^', '/', ']'] + glob_body(g.skip(1))
    } else if glob_meta(g[0]) {
        seq!['\\', g[0]] + glob_body(g.skip(1))
    } else {
        seq![g[0]] + glob_body(g.skip(1))
    }
}

/// The anchored regex of a glob.
pub open spec fn glob_source(g: Seq<char>) -> Seq<char> {
    seq!['^'] + glob_body(g) + seq!['$']
}

/// Whether a glob accepts a path: an empty glob accepts anything, including
/// no path; otherwise the path must be present and non-empty, and the glob's
/// regex must compile and match the path or its basename.
pub open spec fn glob_matches_spec(glob: Seq<char>, path: Option<Seq<char>>) -> bool {
    if glob.len() == 0 {
        true
    } else {
        match path {
            None => false,
            Some(p) => p.len() > 0 && regex_compiles(glob_source(glob), ""@) && (regex_finds(
                glob_source(glob),
                ""@,
                p,
            ) || regex_finds(glob_source(glob), ""@, base_name(p))),
        }
    }
}

/// The anchored regex text of a glob.
pub fn glob_regex_source(glob: &str) -> (r: String)
    ensures
        r@ == glob_source(glob@),
{
    let g = chars_of(glob);
    let mut out = String::new();
    push_char(&mut out, '^');
    let mut i: usize = 0;
    assert(g@.skip(0) =~= g@);
    while i < g.len()
        invariant
            i <= g@.len(),
            out@ + glob_body(g@.skip(i as int)) == seq!['^'] + glob_body(g@),
        decreases g.len() - i,
    {
        let ghost rest = g@.skip(i as int);
        let ghost before = out@;
        assert(rest[0] == g@[i as int]);
        assert(rest.skip(1) =~= g@.skip(i + 1));
        let c = g[i];
        if c == '*' {
            if i + 1 < g.len() && g[i + 1] == '*' {
                assert(rest[1] == g@[i + 1]);
                assert(rest.skip(2) =~= g@.skip(i + 2));
                push_char(&mut out, '.');
                push_char(&mut out, '*');
                assert(out@ =~= before + seq!['.', '*']);
                assert(before + (seq!['.', '*'] + glob_body(g@.skip(i + 2))) =~= out@ + glob_body(
                    g@.skip(i + 2),
                ));
                i = i + 2;
            } else {
                push_char(&mut out, '[');
                push_char(&mut out, '^');
                push_char(&mut out, '/');
                push_char(&mut out, ']');
                push_char(&mut out, '*');
                assert(before + (seq!['[', '^', '/', ']', '*'] + glob_body(g@.skip(i + 1)))
                    =~= out@ + glob_body(g@.skip(i + 1)));
                i = i + 1;
            }
        } else if c == '?' {
            push_char(&mut out, '[');
            push_char(&mut out, '^');
            push_char(&mut out, '/');
            push_char(&mut out, ']');
            assert(before + (seq!['[', '^', '/', ']'] + glob_body(g@.skip(i + 1))) =~= out@
                + glob_body(g@.skip(i + 1)));
            i = i + 1;
        } else {
            if c == '.' || c == '+' || c == '^' || c == '$' || c == '{' || c == '}' || c == '('
                || c == ')' || c == '|' || c == '[' || c == ']' || c == '\\' {
                push_char(&mut out, '\\');
                push_char(&mut out, c);
                assert(before + (seq!['\\', c] + glob_body(g@.skip(i + 1))) =~= out@ + glob_body(
                    g@.skip(i + 1),
                ));
            } else {
                push_char(&mut out, c);
                assert(before + (seq![c] + glob_body(g@.skip(i + 1))) =~= out@ + glob_body(
                    g@.skip(i + 1),
                ));
            }
            i = i + 1;
        }
    }
    assert(g@.skip(i as int) =~= Seq::<char>::empty());
    assert(out@ + Seq::<char>::empty() =~= out@);
    push_char(&mut out, '$');
    out
}

/// The compiled regex of a glob, when it compiles.
fn glob_to_regexp(glob: &str) -> (r: Option<crate::regex::Pattern>)
    ensures
        r is Some <==> regex_compiles(glob_source(glob@), ""@),
        r matches Some(p) ==> p.source() == glob_source(glob@) && p.flags() == ""@,
{
    let src = glob_regex_source(glob);
    compile(src.as_str(), "")
}

/// Whether a scope glob accepts a path: `*` stays within one path component,
/// `**` crosses them, `?` is one character other than '/'; the glob must match
/// the whole path or its basename. An empty glob accepts anything.
pub fn glob_matches(glob: &str, file_path: Option<&str>) -> (b: bool)
    ensures
        b == glob_matches_spec(
            glob@,
            match file_path {
                Some(p) => Some(p@),
                None => None,
            },
        ),
{
    if glob.is_empty() {
        return true;
    }
    let p = match file_path {
        Some(p) => p,
        None => return false,
    };
    if p.is_empty() {
        return false;
    }
    let re = match glob_to_regexp(glob) {
        Some(r) => r,
        None => return false,
    };
    if finds(&re, p) {
        return true;
    }
    let b = basename(p);
    finds(&re, b.as_str())
}

// ------------------------------------------------------- tool payload reading

/// `String(input[key] ?? '')`.
pub open spec fn str_prop_spec(input: JsonValue, key: Seq<char>) -> Seq<char> {
    match json_get(input, key) {
        None => Seq::<char>::empty(),
        Some(JsonValue::Null) => Seq::<char>::empty(),
        Some(v) => js_string(v),
    }
}

/// One edit's contribution to a MultiEdit digest: its `new_string` when the
/// edit and its `new_string` are both truthy, else "".
pub open spec fn multi_edit_part(e: JsonValue) -> Seq<char> {
    if truthy_spec(Some(e)) && truthy_spec(json_get(e, "new_string"@)) {
        js_string(json_get(e, "new_string"@)->0)
    } else {
        Seq::<char>::empty()
    }
}

/// The content a tool call introduces: `new_string` for Edit, `content` for
/// Write, the edits' `new_string`s joined by newlines for MultiEdit,
/// `new_source` for NotebookEdit, `command` for Bash; "" for other tools and
/// for an input that is neither an object nor an array.
pub open spec fn digest_spec(tool: Seq<char>, input: JsonValue) -> Seq<char> {
    if !(input is Object || input is Array) {
        Seq::<char>::empty()
    } else if tool == "Edit"@ {
        str_prop_spec(input, "new_string"@)
    } else if tool == "Write"@ {
        str_prop_spec(input, "content"@)
    } else if tool == "MultiEdit"@ {
        match json_get(input, "edits"@) {
            Some(JsonValue::Array(a)) => join(a@.map_values(|e: JsonValue| multi_edit_part(e)), "\n"@),
            _ => Seq::<char>::empty(),
        }
    } else if tool == "NotebookEdit"@ {
        str_prop_spec(input, "new_source"@)
    } else if tool == "Bash"@ {
        str_prop_spec(input, "command"@)
    } else {
        Seq::<char>::empty()
    }
}

/// The path a tool call targets: `notebook_path` for NotebookEdit,
/// `file_path` otherwise, as a string when it is truthy.
pub open spec fn target_spec(tool: Seq<char>, input: JsonValue) -> Option<Seq<char>> {
    if !(input is Object || input is Array) {
        None
    } else {
        let v = json_get(input, if tool == "NotebookEdit"@ { "notebook_path"@ } else { "file_path"@ });
        if truthy_spec(v) {
            Some(js_string(v->0))
        } else {
            None
        }
    }
}

/// `String(input[key] ?? '')`.
fn str_prop(input: &JsonValue, key: &str) -> (r: String)
    ensures
        r@ == str_prop_spec(*input, key@),
{
    match input.get(key) {
        None => String::new(),
        Some(JsonValue::Null) => String::new(),
        Some(v) => js_to_string(v),
    }
}

/// The new content a tool call introduces, the only text a rule's condition
/// is matched against.
pub fn matcher_digest(tool_name: &str, input: &JsonValue) -> (r: String)
    ensures
        r@ == digest_spec(tool_name@, *input),
{
    if !(input.is_object() || input.is_array()) {
        return String::new();
    }
    if str_eq(tool_name, "Edit") {
        str_prop(input, "new_string")
    } else if str_eq(tool_name, "Write") {
        str_prop(input, "content")
    } else if str_eq(tool_name, "MultiEdit") {
        match input.get("edits") {
            Some(JsonValue::Array(edits)) => {
                let ghost parts = edits@.map_values(|e: JsonValue| multi_edit_part(e));
                let mut out = String::new();
                let mut i: usize = 0;
                while i < edits.len()
                    invariant
                        i <= edits@.len(),
                        parts == edits@.map_values(|e: JsonValue| multi_edit_part(e)),
                        out@ == join(parts.take(i as int), "\n"@),
                    decreases edits.len() - i,
                {
                    let ghost before = out@;
                    let e = &edits[i];
                    let part = if truthy(Some(e)) && truthy(e.get("new_string")) {
                        match e.get("new_string") {
                            Some(ns) => js_to_string(ns),
                            None => String::new(),
                        }
                    } else {
                        String::new()
                    };
                    assert(part@ == parts[i as int]);
                    if i > 0 {
                        push_str(&mut out, "\n");
                    }
                    push_str(&mut out, part.as_str());
                    proof {
                        let t = parts.take(i + 1);
                        assert(t.drop_last() =~= parts.take(i as int));
                        assert(t.last() == parts[i as int]);
                        if i == 0 {
                            assert(parts.take(0).len() == 0);
                            assert(out@ =~= join(t, "\n"@));
                        } else {
                            assert(out@ =~= join(t, "\n"@));
                        }
                    }
                    i = i + 1;
                }
                assert(parts.take(edits@.len() as int) =~= parts);
                out
            },
            _ => String::new(),
        }
    } else if str_eq(tool_name, "NotebookEdit") {
        str_prop(input, "new_source")
    } else if str_eq(tool_name, "Bash") {
        str_prop(input, "command")
    } else {
        String::new()
    }
}

/// The path a tool call targets, when its input names a truthy one.
pub fn target_path(tool_name: &str, input: &JsonValue) -> (r: Option<String>)
    ensures
        opt_view(r) == target_spec(tool_name@, *input),
{
    if !(input.is_object() || input.is_array()) {
        return None;
    }
    let key = if str_eq(tool_name, "NotebookEdit") {
        "notebook_path"
    } else {
        "file_path"
    };
    let v = input.get(key);
    if truthy(v) {
        match v {
            Some(x) => Some(js_to_string(x)),
            None => None,
        }
    } else {
        None
    }
}

// --------------------------------------------------------------- evaluation

/// The gap of an `after-gap N` repeat policy, as the regex
/// `^after-gap\s+(\d+)$` reads it; `None` for anything else ("once", or text
/// that does not parse), which never re-arms.
pub open spec fn after_gap_spec(r: Seq<char>) -> Option<int> {
    if !occurs_at(r, 0, seq!['a', 'f', 't', 'e', 'r', '-', 'g', 'a', 'p']) {
        None
    } else {
        let w = class_end(r, 9, CharClass::Space);
        if w == 9 || w >= r.len() || class_end(r, w, CharClass::Digit) != r.len() {
            None
        } else {
            Some(digits_value(r.skip(w)))
        }
    }
}

/// A rule is armed when it has never fired in this session, or when its
/// repeat policy is `after-gap N` and at least N calls have passed since it
/// last fired (counting exactly, so a counter below the firing point never
/// re-arms). `calls` is the session's call counter, `fired` the call at which
/// each rule last fired.
pub open spec fn is_armed_spec(rule: Rule, calls: u64, fired: Map<Seq<char>, u64>) -> bool {
    if !fired.contains_key(rule.name@) {
        true
    } else {
        match after_gap_spec(rule.repeat@) {
            None => false,
            Some(n) => (calls as int) - (fired[rule.name@] as int) >= n,
        }
    }
}

/// The glob of a scope entry, "" when it has none.
pub open spec fn glob_text(g: Option<String>) -> Seq<char> {
    match g {
        Some(s) => s@,
        None => Seq::<char>::empty(),
    }
}

/// A rule's scope admits a call: an empty scope admits everything; otherwise
/// some entry names the tool and its glob accepts the path.
pub open spec fn scope_allows_spec(
    scope: Seq<ScopeEntry>,
    tool: Seq<char>,
    path: Option<Seq<char>>,
) -> bool {
    scope.len() == 0 || exists|i: int|
        0 <= i < scope.len() && (#[trigger] scope[i]).tool@ == tool && glob_matches_spec(
            glob_text(scope[i].glob),
            path,
        )
}

/// A rule fires on a call: its scope admits the call, it is armed, and its
/// condition compiles and matches the digest.
pub open spec fn rule_fires(
    rule: Rule,
    tool: Seq<char>,
    path: Option<Seq<char>>,
    calls: u64,
    fired: Map<Seq<char>, u64>,
    digest: Seq<char>,
) -> bool {
    &&& scope_allows_spec(rule.scope@, tool, path)
    &&& is_armed_spec(rule, calls, fired)
    &&& regex_compiles(rule.condition@, rule.flags@)
    &&& regex_finds(rule.condition@, rule.flags@, digest)
}

/// The first rule at or after `k` that fires.
pub open spec fn first_firing_from(
    rules: Seq<Rule>,
    k: int,
    tool: Seq<char>,
    path: Option<Seq<char>>,
    calls: u64,
    fired: Map<Seq<char>, u64>,
    digest: Seq<char>,
) -> Option<int>
    decreases rules.len() - k,
{
    if k < 0 || k >= rules.len() {
        None
    } else if rule_fires(rules[k], tool, path, calls, fired, digest) {
        Some(k)
    } else {
        first_firing_from(rules, k + 1, tool, path, calls, fired, digest)
    }
}

/// Which rule a tool call triggers: none when the call introduces no
/// content, else the first rule in order that fires.
pub open spec fn evaluate_spec(
    rules: Seq<Rule>,
    tool: Seq<char>,
    input: JsonValue,
    calls: u64,
    fired: Map<Seq<char>, u64>,
) -> Option<int> {
    let d = digest_spec(tool, input);
    if d.len() == 0 {
        None
    } else {
        first_firing_from(rules, 0, tool, target_spec(tool, input), calls, fired, d)
    }
}

/// The rendered interrupt of a rule.
pub open spec fn interrupt_spec(name: Seq<char>, path: Option<Seq<char>>, body: Seq<char>) -> Seq<
    char,
> {
    "<system-interrupt reason=\"rule_violation\" rule=\""@ + name + seq!['"'] + match path {
        Some(p) => " path=\""@ + p + seq!['"'],
        None => Seq::<char>::empty(),
    } + seq!['>', '\n'] + body + "\n</system-interrupt>"@
}

/// The gap of an `after-gap N` policy: `Some(Some(n))` for a gap that fits in
/// `u64`, `Some(None)` for a larger one, `None` when the policy is not
/// `after-gap N`.
fn after_gap(repeat: &str) -> (r: Option<Option<u64>>)
    ensures
        r is None <==> after_gap_spec(repeat@) is None,
        r matches Some(Some(n)) ==> after_gap_spec(repeat@) == Some(n as int),
        r matches Some(None) ==> after_gap_spec(repeat@)->0 > u64::MAX,
{
    let v = chars_of(repeat);
    let prefix: Vec<char> = vec!['a', 'f', 't', 'e', 'r', '-', 'g', 'a', 'p'];
    assert(prefix@ =~= seq!['a', 'f', 't', 'e', 'r', '-', 'g', 'a', 'p']);
    if !occurs_at_exec(&v, 0, &prefix) {
        return None;
    }
    let w = class_end_exec(&v, 9, CharClass::Space);
    if w == 9 || w >= v.len() {
        return None;
    }
    let d = class_end_exec(&v, w, CharClass::Digit);
    if d != v.len() {
        return None;
    }
    match digits_u64(&v, w) {
        Some(n) => Some(Some(n)),
        None => Some(None),
    }
}

/// Whether a rule may fire: never fired in this session, or `after-gap N`
/// with at least N calls since it last fired.
pub fn is_armed(rule: &Rule, state: &State) -> (b: bool)
    ensures
        b == is_armed_spec(*rule, state.calls, state.fired@),
{
    let fired = match state.fired.get(rule.name.as_str()) {
        Some(f) => *f,
        None => return true,
    };
    match after_gap(rule.repeat.as_str()) {
        None => false,
        Some(None) => false,
        Some(Some(n)) => state.calls >= fired && state.calls - fired >= n,
    }
}

/// Whether a rule's scope admits a call by `tool_name` on `file_path`.
pub fn scope_allows(rule: &Rule, tool_name: &str, file_path: Option<&str>) -> (b: bool)
    ensures
        b == scope_allows_spec(
            rule.scope@,
            tool_name@,
            match file_path {
                Some(p) => Some(p@),
                None => None,
            },
        ),
{
    if rule.scope.len() == 0 {
        return true;
    }
    let ghost path = match file_path {
        Some(p) => Some(p@),
        None => None,
    };
    let mut i: usize = 0;
    while i < rule.scope.len()
        invariant
            i <= rule.scope@.len(),
            path == match file_path {
                Some(p) => Some(p@),
                None => None,
            },
            forall|k: int|
                0 <= k < i ==> !((#[trigger] rule.scope@[k]).tool@ == tool_name@ && glob_matches_spec(
                    glob_text(rule.scope@[k].glob),
                    path,
                )),
        decreases rule.scope.len() - i,
    {
        let e = &rule.scope[i];
        if str_eq(e.tool.as_str(), tool_name) {
            let g: &str = match &e.glob {
                Some(g) => g.as_str(),
                None => "",
            };
            assert(g@ == glob_text(e.glob)) by {
                if e.glob is None {
                    reveal_strlit("");
                }
            }
            if glob_matches(g, file_path) {
                return true;
            }
        }
        i = i + 1;
    }
    false
}

/// The first rule, in order, that fires on a tool call, with the path the
/// call targets. Nothing fires when the call introduces no content.
pub fn evaluate<'a>(rules: &'a [Rule], tool_name: &str, input: &JsonValue, state: &State) -> (r:
    Option<(&'a Rule, Option<String>)>)
    ensures
        match evaluate_spec(rules@, tool_name@, *input, state.calls, state.fired@) {
            None => r is None,
            Some(i) => r matches Some((hit, fp)) && *hit == rules@[i] && opt_view(fp) == target_spec(
                tool_name@,
                *input,
            ),
        },
{
    let digest = matcher_digest(tool_name, input);
    if digest.as_str().is_empty() {
        return None;
    }
    let file_path = target_path(tool_name, input);
    let ghost d = digest@;
    let ghost p = opt_view(file_path);
    let fp: Option<&str> = match &file_path {
        Some(s) => Some(s.as_str()),
        None => None,
    };
    let mut i: usize = 0;
    while i < rules.len()
        invariant
            i <= rules@.len(),
            d == digest@,
            d == digest_spec(tool_name@, *input),
            d.len() > 0,
            p == target_spec(tool_name@, *input),
            p == opt_view(file_path),
            p == match fp {
                Some(s) => Some(s@),
                None => None,
            },
            first_firing_from(rules@, 0, tool_name@, p, state.calls, state.fired@, d)
                == first_firing_from(rules@, i as int, tool_name@, p, state.calls, state.fired@, d),
        decreases rules.len() - i,
    {
        let rule = &rules[i];
        if scope_allows(rule, tool_name, fp) && is_armed(rule, state) {
            match compile(rule.condition.as_str(), rule.flags.as_str()) {
                Some(re) => {
                    if finds(&re, digest.as_str()) {
                        return Some((rule, file_path));
                    }
                },
                None => {},
            }
        }
        i = i + 1;
    }
    None
}

/// The interrupt that delivers a rule's body, naming the rule and the path.
pub fn render_interrupt(rule: &Rule, file_path: Option<&str>) -> (r: String)
    ensures
        r@ == interrupt_spec(
            rule.name@,
            match file_path {
                Some(p) => Some(p@),
                None => None,
            },
            rule.body@,
        ),
{
    let mut out = String::new();
    push_str(&mut out, "<system-interrupt reason=\"rule_violation\" rule=\"");
    push_str(&mut out, rule.name.as_str());
    push_char(&mut out, '"');
    match file_path {
        Some(p) => {
            push_str(&mut out, " path=\"");
            push_str(&mut out, p);
            push_char(&mut out, '"');
        },
        None => {},
    }
    push_char(&mut out, '>');
    push_char(&mut out, '\n');
    push_str(&mut out, rule.body.as_str());
    push_str(&mut out, "\n</system-interrupt>");
    proof {
        match file_path {
            Some(pp) => {},
            None => {},
        }
    }
    out
}

// ------------------------------------------------------------------ loading

/// A metadata value that is present and non-empty (`meta.x || fallback` in JS
/// treats "" as absent).
pub open spec fn meta_nonempty(m: Map<Seq<char>, Seq<char>>, k: Seq<char>) -> Option<Seq<char>> {
    if m.contains_key(k) && m[k].len() > 0 {
        Some(m[k])
    } else {
        None
    }
}

/// A metadata value, "" when absent.
pub open spec fn meta_or_empty(m: Map<Seq<char>, Seq<char>>, k: Seq<char>) -> Seq<char> {
    if m.contains_key(k) {
        m[k]
    } else {
        Seq::<char>::empty()
    }
}

/// A file that may hold a rule: its name ends in ".md".
pub open spec fn rule_file_name(f: Seq<char>) -> bool {
    f.len() >= 3 && f.skip(f.len() - 3) == seq!['.', 'm', 'd']
}

/// The rule a file defines: `None` unless its name ends in ".md", it has a
/// frontmatter block with a non-empty `condition`, and that condition
/// compiles with its `flags`. The rule is named after the file without ".md";
/// `repeat` defaults to "once", `interrupt` is true unless it is "false".
pub open spec fn rule_of_file(f: Seq<char>, text: Seq<char>) -> Option<RuleView> {
    if !rule_file_name(f) {
        None
    } else {
        match frontmatter_spec(text) {
            None => None,
            Some((m, body)) => match meta_nonempty(m, "condition"@) {
                None => None,
                Some(cond) => {
                    let flags = meta_or_empty(m, "flags"@);
                    if !regex_compiles(cond, flags) {
                        None
                    } else {
                        Some(
                            RuleView {
                                name: f.take(f.len() - 3),
                                description: meta_or_empty(m, "description"@),
                                condition: cond,
                                flags: flags,
                                scope: scope_spec(meta_or_empty(m, "scope"@)),
                                repeat: match meta_nonempty(m, "repeat"@) {
                                    Some(r) => r,
                                    None => "once"@,
                                },
                                interrupt: !(m.contains_key("interrupt"@) && m["interrupt"@]
                                    == "false"@),
                                body: body,
                            },
                        )
                    }
                },
            },
        }
    }
}

/// The rule files that define rules, each with its file name.
pub open spec fn candidates(files: Seq<(Seq<char>, Seq<char>)>) -> Seq<(Seq<char>, RuleView)> {
    files.filter_map(
        |ft: (Seq<char>, Seq<char>)|
            match rule_of_file(ft.0, ft.1) {
                Some(r) => Some((ft.0, r)),
                None => None,
            },
    )
}

/// Position of the first entry with key `k`.
pub open spec fn key_index<T>(m: Seq<(Seq<char>, T)>, k: Seq<char>) -> Option<int>
    decreases m.len(),
{
    if m.len() == 0 {
        None
    } else if m[0].0 == k {
        Some(0)
    } else {
        match key_index(m.drop_first(), k) {
            Some(i) => Some(i + 1),
            None => None,
        }
    }
}

/// Later rules shadow earlier ones of the same file name: a shadowed rule is
/// replaced in place, so a name keeps the position of its first occurrence
/// and the value of its last.
pub open spec fn shadowed<T>(c: Seq<(Seq<char>, T)>) -> Seq<(Seq<char>, T)>
    decreases c.len(),
{
    if c.len() == 0 {
        Seq::empty()
    } else {
        let m = shadowed(c.drop_last());
        match key_index(m, c.last().0) {
            Some(i) => m.update(i, c.last()),
            None => m.push(c.last()),
        }
    }
}

/// The rules a sequence of (file name, text) pairs loads to.
pub open spec fn load_rules_spec(files: Seq<(Seq<char>, Seq<char>)>) -> Seq<RuleView> {
    shadowed(candidates(files)).map_values(|e: (Seq<char>, RuleView)| e.1)
}

/// The pairs of characters held by a sequence of (name, text) strings.
pub open spec fn files_view(files: Seq<(String, String)>) -> Seq<(Seq<char>, Seq<char>)> {
    files.map_values(|ft: (String, String)| (ft.0@, ft.1@))
}

/// The rule directories: the user's `<config_dir>/rules`, then `rules` inside
/// the project's settings directory `<project>/SETTINGS_DIR`, where the
/// project is `cwd` when it is given and non-empty, else the current
/// directory.
pub open spec fn rule_dirs_spec(
    config_dir: Seq<char>,
    cwd: Option<Seq<char>>,
    current_dir: Seq<char>,
) -> Seq<Seq<char>> {
    let project = match cwd {
        Some(c) => if c.len() > 0 {
            c
        } else {
            current_dir
        },
        None => current_dir,
    };
    seq![path_join(config_dir, "rules"@), path_join(path_join(project, SETTINGS_DIR@), "rules"@)]
}

pub proof fn lemma_key_index<T>(m: Seq<(Seq<char>, T)>, k: Seq<char>, i: int)
    requires
        0 <= i <= m.len(),
        forall|j: int| 0 <= j < i ==> (#[trigger] m[j]).0 != k,
        i == m.len() || m[i].0 == k,
    ensures
        key_index(m, k) == if i == m.len() {
            None
        } else {
            Some(i)
        },
    decreases i,
{
    if i > 0 {
        let t = m.drop_first();
        assert forall|j: int| 0 <= j < i - 1 implies (#[trigger] t[j]).0 != k by {
            assert(t[j] == m[j + 1]);
        }
        if i < m.len() {
            assert(t[i - 1] == m[i]);
        }
        lemma_key_index(t, k, i - 1);
    }
}

/// Position of the first key equal to `f`, or the number of keys.
fn find_key(keys: &Vec<String>, f: &str) -> (k: usize)
    ensures
        k <= keys@.len(),
        forall|j: int| 0 <= j < k ==> (#[trigger] keys@[j])@ != f@,
        k < keys@.len() ==> keys@[k as int]@ == f@,
{
    let mut k: usize = 0;
    while k < keys.len()
        invariant
            k <= keys@.len(),
            forall|j: int| 0 <= j < k ==> (#[trigger] keys@[j])@ != f@,
        decreases keys.len() - k,
    {
        if str_eq(keys[k].as_str(), f) {
            return k;
        }
        k = k + 1;
    }
    k
}

/// A metadata value that is present and non-empty.
fn nonempty(v: Option<&String>) -> (r: Option<String>)
    ensures
        match v {
            Some(s) => if s@.len() > 0 {
                r matches Some(x) && x@ == s@
            } else {
                r is None
            },
            None => r is None,
        },
{
    match v {
        Some(s) => if s.as_str().is_empty() {
            None
        } else {
            Some(s.clone())
        },
        None => None,
    }
}

/// Whether a directory entry may hold a rule: its name ends in ".md".
pub fn is_rule_file(f: &str) -> (b: bool)
    ensures
        b == rule_file_name(f@),
{
    let fv = chars_of(f);
    let md: Vec<char> = vec!['.', 'm', 'd'];
    let b = fv.len() >= 3 && occurs_at_exec(&fv, fv.len() - 3, &md);
    proof {
        if fv@.len() >= 3 {
            assert(fv@.skip(fv@.len() - 3) =~= fv@.subrange(fv@.len() - 3, fv@.len() as int));
            assert(md@ =~= seq!['.', 'm', 'd']);
        }
    }
    b
}

/// The rule a file defines, if any.
pub fn rule_from_file(f: &str, text: &str) -> (r: Option<Rule>)
    ensures
        match rule_of_file(f@, text@) {
            None => r is None,
            Some(rv) => r matches Some(x) && x@ == rv,
        },
{
    if !is_rule_file(f) {
        return None;
    }
    let fv = chars_of(f);
    let parsed = match parse_frontmatter(text) {
        Some(p) => p,
        None => return None,
    };
    let ghost m = string_map_view(parsed.meta@);
    let condition = match nonempty(parsed.meta.get("condition")) {
        Some(c) => c,
        None => return None,
    };
    let flags = match parsed.meta.get("flags") {
        Some(x) => x.clone(),
        None => String::new(),
    };
    if compile(condition.as_str(), flags.as_str()).is_none() {
        return None;
    }
    let description = match nonempty(parsed.meta.get("description")) {
        Some(d) => d,
        None => String::new(),
    };
    let scope_text = match parsed.meta.get("scope") {
        Some(x) => x.clone(),
        None => String::new(),
    };
    let scope = parse_scope(scope_text.as_str());
    let repeat = match nonempty(parsed.meta.get("repeat")) {
        Some(x) => x,
        None => "once".to_owned(),
    };
    let interrupt = match parsed.meta.get("interrupt") {
        Some(x) => !str_eq(x.as_str(), "false"),
        None => true,
    };
    let name = string_of_range(&fv, 0, fv.len() - 3);
    assert(fv@.subrange(0, fv@.len() - 3) =~= fv@.take(fv@.len() - 3));
    let body = parsed.body;
    let rule = Rule { name, description, condition, flags, scope, repeat, interrupt, body };
    proof {
        let rv = rule_of_file(f@, text@)->0;
        assert(rule@.name == rv.name);
        assert(rule@.description == rv.description);
        assert(rule@.condition == rv.condition);
        assert(rule@.flags == rv.flags);
        assert(rule@.scope == rv.scope);
        assert(rule@.repeat == rv.repeat);
        assert(rule@.interrupt == rv.interrupt);
        assert(rule@.body == rv.body);
    }
    Some(rule)
}

/// Loads rules from (file name, text) pairs, given directory by directory and
/// in sorted order within each: files that do not define a rule are skipped,
/// and a later file shadows an earlier one of the same name in place.
pub fn load_rules(files: &Vec<(String, String)>) -> (r: Vec<Rule>)
    ensures
        r@.map_values(|x: Rule| x@) == load_rules_spec(files_view(files@)),
{
    let ghost fs = files_view(files@);
    let ghost pick = |ft: (Seq<char>, Seq<char>)|
        match rule_of_file(ft.0, ft.1) {
            Some(r) => Some((ft.0, r)),
            None => None,
        };
    let mut keys: Vec<String> = Vec::new();
    let mut out: Vec<Rule> = Vec::new();
    let mut i: usize = 0;
    assert(fs.take(0) =~= Seq::<(Seq<char>, Seq<char>)>::empty());
    while i < files.len()
        invariant
            i <= files@.len(),
            fs == files_view(files@),
            keys@.len() == out@.len(),
            shadowed(candidates(fs.take(i as int))).len() == out@.len(),
            forall|j: int|
                0 <= j < out@.len() ==> (#[trigger] shadowed(candidates(fs.take(i as int)))[j])
                    == (keys@[j]@, out@[j]@),
        decreases files.len() - i,
    {
        let ghost prev = shadowed(candidates(fs.take(i as int)));
        let ghost t = fs.take(i + 1);
        assert(t.drop_last() =~= fs.take(i as int));
        assert(t.last() == (files@[i as int].0@, files@[i as int].1@));
        let f = &files[i].0;
        match rule_from_file(f.as_str(), files[i].1.as_str()) {
            Some(rule) => {
                let ghost e = (f@, rule@);
                assert(candidates(t) =~= candidates(fs.take(i as int)).push(e));
                assert(candidates(t).drop_last() =~= candidates(fs.take(i as int)));
                let k = find_key(&keys, f.as_str());
                proof {
                    assert forall|j: int| 0 <= j < k implies (#[trigger] prev[j]).0 != e.0 by {
                        assert(prev[j].0 == keys@[j]@);
                    }
                    if k < keys@.len() {
                        assert(prev[k as int].0 == keys@[k as int]@);
                    }
                    lemma_key_index(prev, e.0, k as int);
                }
                if k < keys.len() {
                    out.set(k, rule);
                } else {
                    keys.push(f.clone());
                    out.push(rule);
                }
            },
            None => {
                assert(candidates(t) =~= candidates(fs.take(i as int)));
            },
        }
        i = i + 1;
    }
    assert(fs.take(files@.len() as int) =~= fs);
    let ghost sh = shadowed(candidates(fs));
    assert(out@.map_values(|x: Rule| x@) =~= sh.map_values(|e: (Seq<char>, RuleView)| e.1));
    out
}

/// The rule directories, user first, so that project rules shadow user rules.
pub fn rule_dirs(config_dir: &str, cwd: Option<&str>, current_dir: &str) -> (r: Vec<String>)
    ensures
        r@.map_values(|s: String| s@) == rule_dirs_spec(
            config_dir@,
            match cwd {
                Some(c) => Some(c@),
                None => None,
            },
            current_dir@,
        ),
{
    let project: &str = match cwd {
        Some(c) => if c.is_empty() {
            current_dir
        } else {
            c
        },
        None => current_dir,
    };
    let user = path_join_str(config_dir, "rules");
    let settings = path_join_str(project, SETTINGS_DIR);
    let proj = path_join_str(settings.as_str(), "rules");
    let r = vec![user, proj];
    assert(r@.map_values(|s: String| s@) =~= rule_dirs_spec(
        config_dir@,
        match cwd {
            Some(c) => Some(c@),
            None => None,
        },
        current_dir@,
    ));
    r
}

} // verus!

verus! {

// --------------------------------------------------------------- properties

/// A rule that never fired is armed, whatever its repeat policy and the call
/// counter.
pub proof fn never_fired_is_armed(rule: Rule, calls: u64, fired: Map<Seq<char>, u64>)
    requires
        !fired.contains_key(rule.name@),
    ensures
        is_armed_spec(rule, calls, fired),
{
}

/// Fire-once: a rule whose repeat policy is not `after-gap N` ("once", or
/// anything that does not parse) stays disarmed for good once it has fired.
pub proof fn fired_once_never_rearms(rule: Rule, calls: u64, fired: Map<Seq<char>, u64>)
    requires
        fired.contains_key(rule.name@),
        after_gap_spec(rule.repeat@) is None,
    ensures
        !is_armed_spec(rule, calls, fired),
{
}

/// "once" is not an `after-gap N` policy.
pub proof fn once_is_not_after_gap()
    ensures
        after_gap_spec("once"@) is None,
{
    reveal_strlit("once");
}

/// An armed rule stays armed as the call counter grows (until it fires).
pub proof fn armed_stays_armed(rule: Rule, c1: u64, c2: u64, fired: Map<Seq<char>, u64>)
    requires
        is_armed_spec(rule, c1, fired),
        c1 <= c2,
    ensures
        is_armed_spec(rule, c2, fired),
{
}

/// An `after-gap N` rule that fired at call `f` is armed again exactly when
/// the counter has moved at least N calls past `f`.
pub proof fn after_gap_rearms_after_n_calls(
    rule: Rule,
    calls: u64,
    fired: Map<Seq<char>, u64>,
    n: int,
)
    requires
        fired.contains_key(rule.name@),
        after_gap_spec(rule.repeat@) == Some(n),
    ensures
        is_armed_spec(rule, calls, fired) <==> calls >= fired[rule.name@] + n,
{
}

/// The search from `k` finds the first rule at or after `k` that fires.
proof fn lemma_first_firing(
    rules: Seq<Rule>,
    k: int,
    tool: Seq<char>,
    path: Option<Seq<char>>,
    calls: u64,
    fired: Map<Seq<char>, u64>,
    digest: Seq<char>,
)
    requires
        0 <= k,
    ensures
        match first_firing_from(rules, k, tool, path, calls, fired, digest) {
            Some(i) => {
                &&& k <= i < rules.len()
                &&& rule_fires(rules[i], tool, path, calls, fired, digest)
                &&& forall|j: int|
                    k <= j < i ==> !rule_fires(#[trigger] rules[j], tool, path, calls, fired, digest)
            },
            None => forall|j: int|
                k <= j < rules.len() ==> !rule_fires(
                    #[trigger] rules[j],
                    tool,
                    path,
                    calls,
                    fired,
                    digest,
                ),
        },
    decreases rules.len() - k,
{
    if k < rules.len() && !rule_fires(rules[k], tool, path, calls, fired, digest) {
        lemma_first_firing(rules, k + 1, tool, path, calls, fired, digest);
    }
}

/// The first matching rule wins: when a call introduces content, `evaluate`
/// picks the first rule in order that fires (its scope admits the call, it is
/// armed, and its condition matches the content), and no rule at all when
/// none fires. A call that introduces no content fires nothing.
pub proof fn evaluate_picks_first_firing_rule(
    rules: Seq<Rule>,
    tool: Seq<char>,
    input: JsonValue,
    calls: u64,
    fired: Map<Seq<char>, u64>,
)
    ensures
        ({
            let d = digest_spec(tool, input);
            let p = target_spec(tool, input);
            match evaluate_spec(rules, tool, input, calls, fired) {
                Some(i) => {
                    &&& d.len() > 0
                    &&& 0 <= i < rules.len()
                    &&& rule_fires(rules[i], tool, p, calls, fired, d)
                    &&& forall|j: int|
                        0 <= j < i ==> !rule_fires(#[trigger] rules[j], tool, p, calls, fired, d)
                },
                None => d.len() == 0 || forall|j: int|
                    0 <= j < rules.len() ==> !rule_fires(#[trigger] rules[j], tool, p, calls, fired, d),
            }
        }),
{
    let d = digest_spec(tool, input);
    if d.len() > 0 {
        lemma_first_firing(rules, 0, tool, target_spec(tool, input), calls, fired, d);
    }
}

/// Fire-once across calls: once a rule without an `after-gap` policy has been
/// recorded as fired, no later call picks it again.
pub proof fn fired_once_rule_is_never_picked(
    rules: Seq<Rule>,
    i: int,
    tool: Seq<char>,
    input: JsonValue,
    calls: u64,
    fired: Map<Seq<char>, u64>,
)
    requires
        0 <= i < rules.len(),
        fired.contains_key(rules[i].name@),
        after_gap_spec(rules[i].repeat@) is None,
    ensures
        evaluate_spec(rules, tool, input, calls, fired) != Some(i),
{
    evaluate_picks_first_firing_rule(rules, tool, input, calls, fired);
}

/// An empty glob (a scope entry without one) accepts every path, and no path.
pub proof fn empty_glob_accepts_everything(path: Option<Seq<char>>)
    ensures
        glob_matches_spec(Seq::<char>::empty(), path),
{
}


/// `key_index` finds the first entry with the key, or reports that none has it.
proof fn lemma_key_index_found<T>(m: Seq<(Seq<char>, T)>, k: Seq<char>)
    ensures
        match key_index(m, k) {
            Some(i) => {
                &&& 0 <= i < m.len()
                &&& m[i].0 == k
                &&& forall|j: int| 0 <= j < i ==> (#[trigger] m[j]).0 != k
            },
            None => forall|j: int| 0 <= j < m.len() ==> (#[trigger] m[j]).0 != k,
        },
    decreases m.len(),
{
    if m.len() > 0 && m[0].0 != k {
        let t = m.drop_first();
        lemma_key_index_found(t, k);
        match key_index(t, k) {
            Some(i) => {
                assert(m[i + 1] == t[i]);
                assert forall|j: int| 0 <= j < i + 1 implies (#[trigger] m[j]).0 != k by {
                    if j > 0 {
                        assert(m[j] == t[j - 1]);
                    }
                }
            },
            None => {
                assert forall|j: int| 0 <= j < m.len() implies (#[trigger] m[j]).0 != k by {
                    if j > 0 {
                        assert(m[j] == t[j - 1]);
                    }
                }
            },
        }
    }
}

/// No two entries share a key.
pub open spec fn keys_unique<T>(m: Seq<(Seq<char>, T)>) -> bool {
    forall|i: int, j: int| 0 <= i < j < m.len() ==> (#[trigger] m[i]).0 != (#[trigger] m[j]).0
}

/// Shadowing leaves each key once.
proof fn lemma_shadowed_unique<T>(c: Seq<(Seq<char>, T)>)
    ensures
        keys_unique(shadowed(c)),
    decreases c.len(),
{
    if c.len() > 0 {
        let m = shadowed(c.drop_last());
        let e = c.last();
        lemma_shadowed_unique(c.drop_last());
        lemma_key_index_found(m, e.0);
        let r = shadowed(c);
        match key_index(m, e.0) {
            Some(x) => {
                assert forall|i: int, j: int| 0 <= i < j < r.len() implies (#[trigger] r[i]).0 != (
                #[trigger] r[j]).0 by {
                    assert(r[i].0 == m[i].0);
                    assert(r[j].0 == m[j].0);
                }
            },
            None => {
                assert forall|i: int, j: int| 0 <= i < j < r.len() implies (#[trigger] r[i]).0 != (
                #[trigger] r[j]).0 by {
                    if j < m.len() {
                        assert(r[i] == m[i] && r[j] == m[j]);
                    } else {
                        assert(r[i] == m[i] && r[j] == e);
                    }
                }
            },
        }
    }
}

/// Every entry that shadowing keeps satisfies whatever all entries satisfy.
proof fn lemma_shadowed_keeps<T>(c: Seq<(Seq<char>, T)>, p: spec_fn((Seq<char>, T)) -> bool)
    requires
        forall|j: int| 0 <= j < c.len() ==> p(#[trigger] c[j]),
    ensures
        forall|i: int| 0 <= i < shadowed(c).len() ==> p(#[trigger] shadowed(c)[i]),
    decreases c.len(),
{
    if c.len() > 0 {
        let m = shadowed(c.drop_last());
        assert forall|j: int| 0 <= j < c.drop_last().len() implies p(
            #[trigger] c.drop_last()[j],
        ) by {
            assert(c.drop_last()[j] == c[j]);
        }
        lemma_shadowed_keeps(c.drop_last(), p);
        assert(p(c.last())) by {
            assert(c.last() == c[c.len() - 1]);
        }
        let r = shadowed(c);
        lemma_key_index_found(m, c.last().0);
        assert forall|i: int| 0 <= i < r.len() implies p(#[trigger] r[i]) by {
            match key_index(m, c.last().0) {
                Some(x) => {
                    if i != x {
                        assert(r[i] == m[i]);
                    }
                },
                None => {
                    if i < m.len() {
                        assert(r[i] == m[i]);
                    }
                },
            }
        }
    }
}

/// The last entry of each key survives shadowing.
proof fn lemma_shadowed_last<T>(c: Seq<(Seq<char>, T)>, j: int)
    requires
        0 <= j < c.len(),
        forall|l: int| j < l < c.len() ==> (#[trigger] c[l]).0 != c[j].0,
    ensures
        shadowed(c).contains(c[j]),
    decreases c.len(),
{
    let m = shadowed(c.drop_last());
    let e = c.last();
    let r = shadowed(c);
    lemma_key_index_found(m, e.0);
    if j == c.len() - 1 {
        match key_index(m, e.0) {
            Some(x) => {
                assert(r[x] == e);
            },
            None => {
                assert(r[m.len() as int] == e);
            },
        }
    } else {
        assert forall|l: int| j < l < c.drop_last().len() implies (#[trigger] c.drop_last()[l]).0
            != c.drop_last()[j].0 by {
            assert(c.drop_last()[l] == c[l]);
        }
        lemma_shadowed_last(c.drop_last(), j);
        assert(c.drop_last()[j] == c[j]);
        let x0 = choose|x: int| 0 <= x < m.len() && m[x] == c[j];
        assert(e.0 != c[j].0) by {
            assert(e == c[c.len() - 1]);
        }
        match key_index(m, e.0) {
            Some(x) => {
                assert(x != x0);
                assert(r[x0] == c[j]);
            },
            None => {
                assert(r[x0] == c[j]);
            },
        }
    }
}

/// A candidate's rule is named after its file, which ends in ".md".
pub open spec fn named_after_file(e: (Seq<char>, RuleView)) -> bool {
    rule_file_name(e.0) && e.1.name == e.0.take(e.0.len() - 3)
}

proof fn lemma_candidates_named(files: Seq<(Seq<char>, Seq<char>)>)
    ensures
        forall|i: int|
            0 <= i < candidates(files).len() ==> named_after_file(#[trigger] candidates(files)[i]),
    decreases files.len(),
{
    if files.len() > 0 {
        let rest = files.drop_last();
        lemma_candidates_named(rest);
        let c = candidates(files);
        let ft = files.last();
        match rule_of_file(ft.0, ft.1) {
            Some(r) => {
                assert(c == candidates(rest) + seq![(ft.0, r)]);
                assert forall|i: int| 0 <= i < c.len() implies named_after_file(#[trigger] c[i]) by {
                    if i < candidates(rest).len() {
                        assert(c[i] == candidates(rest)[i]);
                    }
                }
            },
            None => {
                assert(c == candidates(rest));
            },
        }
    }
}

/// Loaded rules have distinct names: when a project rule file has the name
/// of a user rule file, only one rule of that name is loaded.
pub proof fn loaded_rule_names_are_distinct(files: Seq<(Seq<char>, Seq<char>)>)
    ensures
        forall|i: int, j: int|
            0 <= i < j < load_rules_spec(files).len() ==> (#[trigger] load_rules_spec(files)[i]).name
                != (#[trigger] load_rules_spec(files)[j]).name,
{
    let c = candidates(files);
    let m = shadowed(c);
    lemma_candidates_named(files);
    lemma_shadowed_keeps(c, |e: (Seq<char>, RuleView)| named_after_file(e));
    lemma_shadowed_unique(c);
    let out = load_rules_spec(files);
    assert forall|i: int, j: int| 0 <= i < j < out.len() implies (#[trigger] out[i]).name != (
    #[trigger] out[j]).name by {
        let a = m[i];
        let b = m[j];
        assert(named_after_file(a) && named_after_file(b));
        assert(a.0 =~= a.0.take(a.0.len() - 3) + a.0.skip(a.0.len() - 3));
        assert(b.0 =~= b.0.take(b.0.len() - 3) + b.0.skip(b.0.len() - 3));
        assert(a.0 != b.0);
    }
}

/// Later files shadow earlier ones: the rule of the last rule file of each
/// name (so a project rule over a user rule of the same name) is loaded.
pub proof fn last_rule_file_of_a_name_is_loaded(files: Seq<(Seq<char>, Seq<char>)>, j: int)
    requires
        0 <= j < candidates(files).len(),
        forall|l: int|
            j < l < candidates(files).len() ==> (#[trigger] candidates(files)[l]).0
                != candidates(files)[j].0,
    ensures
        load_rules_spec(files).contains(candidates(files)[j].1),
{
    let c = candidates(files);
    lemma_shadowed_last(c, j);
    let m = shadowed(c);
    let x = choose|x: int| 0 <= x < m.len() && m[x] == c[j];
    assert(load_rules_spec(files)[x] == c[j].1);
}

/// `k` first occurs in `c` at `i`.
pub open spec fn first_occurrence<T>(c: Seq<(Seq<char>, T)>, i: int) -> bool {
    &&& 0 <= i < c.len()
    &&& forall|l: int| 0 <= l < i ==> (#[trigger] c[l]).0 != c[i].0
}

/// Shadowing keeps each key at the slot of its first occurrence: keys come
/// out in the order they first appeared.
proof fn lemma_shadowed_first_slots<T>(c: Seq<(Seq<char>, T)>, i: int, j: int)
    requires
        i < j,
        first_occurrence(c, i),
        first_occurrence(c, j),
    ensures
        key_index(shadowed(c), c[i].0) matches Some(x) && key_index(shadowed(c), c[j].0) matches Some(
            y,
        ) && x < y,
    decreases c.len(),
{
    let d = c.drop_last();
    let m = shadowed(d);
    let e = c.last();
    let r = shadowed(c);
    lemma_key_index_found(m, e.0);
    assert(d[i] == c[i]);
    if j < c.len() - 1 {
        assert(d[j] == c[j]);
        assert forall|l: int| 0 <= l < i implies (#[trigger] d[l]).0 != d[i].0 by {
            assert(d[l] == c[l]);
        }
        assert forall|l: int| 0 <= l < j implies (#[trigger] d[l]).0 != d[j].0 by {
            assert(d[l] == c[l]);
        }
        lemma_shadowed_first_slots(d, i, j);
        let x = key_index(m, c[i].0)->0;
        let y = key_index(m, c[j].0)->0;
        lemma_key_index_found(m, c[i].0);
        lemma_key_index_found(m, c[j].0);
        match key_index(m, e.0) {
            Some(z) => {
                assert(r == m.update(z, e));
                assert(r[x] == m[x] || (x == z && r[x].0 == m[x].0));
                assert forall|l: int| 0 <= l < r.len() implies #[trigger] r[l].0 == m[l].0 by {}
                lemma_key_index_found(r, c[i].0);
                lemma_key_index_found(r, c[j].0);
                assert(r[x].0 == c[i].0 && r[y].0 == c[j].0);
            },
            None => {
                assert(r == m.push(e));
                assert(r[x] == m[x] && r[y] == m[y]);
                lemma_key_index_found(r, c[i].0);
                lemma_key_index_found(r, c[j].0);
                assert forall|l: int| 0 <= l < m.len() implies #[trigger] r[l] == m[l] by {}
            },
        }
    } else {
        // c[j] is the last entry and its key is new: it is pushed after every slot.
        assert(e == c[j]);
        lemma_shadowed_keys_from(d, e.0);
        lemma_shadowed_keys_from(d, c[i].0);
        assert(key_index(m, e.0) is None);
        assert(r == m.push(e));
        assert(d.len() == j);
        let x = key_index(m, c[i].0)->0;
        lemma_key_index_found(m, c[i].0);
        assert(r[x] == m[x]);
        assert forall|l: int| 0 <= l < m.len() implies #[trigger] r[l] == m[l] by {}
        lemma_key_index_found(r, c[i].0);
        lemma_key_index_found(r, c[j].0);
        assert(r[m.len() as int] == e);
    }
}

/// The keys of `shadowed(c)` are exactly the keys of `c`.
proof fn lemma_shadowed_keys_from<T>(c: Seq<(Seq<char>, T)>, k: Seq<char>)
    ensures
        key_index(shadowed(c), k) is Some <==> exists|l: int| 0 <= l < c.len() && (#[trigger] c[l]).0 == k,
    decreases c.len(),
{
    let r = shadowed(c);
    lemma_key_index_found(r, k);
    if c.len() > 0 {
        let d = c.drop_last();
        let m = shadowed(d);
        let e = c.last();
        lemma_shadowed_keys_from(d, k);
        lemma_key_index_found(m, k);
        lemma_key_index_found(m, e.0);
        if exists|l: int| 0 <= l < c.len() && (#[trigger] c[l]).0 == k {
            let l = choose|l: int| 0 <= l < c.len() && (#[trigger] c[l]).0 == k;
            if l < d.len() {
                assert(d[l] == c[l]);
                let x = key_index(m, k)->0;
                match key_index(m, e.0) {
                    Some(z) => {
                        assert(r[x].0 == m[x].0);
                    },
                    None => {
                        assert(r[x] == m[x]);
                    },
                }
            } else {
                assert(c[l] == e);
                match key_index(m, e.0) {
                    Some(z) => {
                        assert(r[z] == e);
                    },
                    None => {
                        assert(r[m.len() as int] == e);
                    },
                }
            }
        } else {
            assert forall|l: int| 0 <= l < r.len() implies (#[trigger] r[l]).0 != k by {
                match key_index(m, e.0) {
                    Some(z) => {
                        if l == z {
                            assert(c[c.len() - 1] == e);
                        } else {
                            assert(r[l] == m[l]);
                        }
                    },
                    None => {
                        if l == m.len() {
                            assert(c[c.len() - 1] == e);
                        } else {
                            assert(r[l] == m[l]);
                        }
                    },
                }
            }
        }
    }
}

/// A shadowed rule keeps its first slot: rules are loaded in the order their
/// file names first appear (user directory first), so a project rule that
/// shadows a user rule takes the user rule's place, not a place at the end.
pub proof fn loaded_rules_keep_first_slots(files: Seq<(Seq<char>, Seq<char>)>, i: int, j: int)
    requires
        i < j,
        first_occurrence(candidates(files), i),
        first_occurrence(candidates(files), j),
    ensures
        ({
            let m = shadowed(candidates(files));
            let a = candidates(files)[i].0;
            let b = candidates(files)[j].0;
            key_index(m, a) matches Some(x) && key_index(m, b) matches Some(y) && x < y && m[x].0
                == a && m[y].0 == b
        }),
{
    let c = candidates(files);
    lemma_shadowed_first_slots(c, i, j);
    lemma_key_index_found(shadowed(c), c[i].0);
    lemma_key_index_found(shadowed(c), c[j].0);
}

/// The keys of a sequence of entries, in order.
pub open spec fn keys_of<T>(m: Seq<(Seq<char>, T)>) -> Seq<Seq<char>> {
    m.map_values(|e: (Seq<char>, T)| e.0)
}

/// The distinct keys of `c`, each once, in the order they first appear.
pub open spec fn first_keys<T>(c: Seq<(Seq<char>, T)>) -> Seq<Seq<char>>
    decreases c.len(),
{
    if c.len() == 0 {
        Seq::empty()
    } else {
        let r = first_keys(c.drop_last());
        if r.contains(c.last().0) {
            r
        } else {
            r.push(c.last().0)
        }
    }
}

/// The value of the last entry of `c` with key `k`.
pub open spec fn last_value<T>(c: Seq<(Seq<char>, T)>, k: Seq<char>) -> Option<T>
    decreases c.len(),
{
    if c.len() == 0 {
        None
    } else if c.last().0 == k {
        Some(c.last().1)
    } else {
        last_value(c.drop_last(), k)
    }
}

proof fn lemma_shadowed_is_first_keys_with_last_values<T>(c: Seq<(Seq<char>, T)>)
    ensures
        keys_of(shadowed(c)) == first_keys(c),
        forall|i: int|
            0 <= i < shadowed(c).len() ==> last_value(c, (#[trigger] shadowed(c)[i]).0) == Some(
                shadowed(c)[i].1,
            ),
    decreases c.len(),
{
    let r = shadowed(c);
    if c.len() == 0 {
        assert(keys_of(r) =~= first_keys(c));
    } else {
        let d = c.drop_last();
        let m = shadowed(d);
        let e = c.last();
        lemma_shadowed_is_first_keys_with_last_values(d);
        lemma_shadowed_unique(d);
        lemma_key_index_found(m, e.0);
        let fk = first_keys(d);
        assert(keys_of(m) == fk);
        assert forall|j: int| 0 <= j < m.len() implies #[trigger] fk[j] == m[j].0 by {}
        match key_index(m, e.0) {
            Some(x) => {
                assert(fk[x] == e.0);
                assert(fk.contains(e.0));
                assert(r == m.update(x, e));
                assert(keys_of(r) =~= fk);
                assert forall|i: int| 0 <= i < r.len() implies last_value(c, (#[trigger] r[i]).0)
                    == Some(r[i].1) by {
                    if i != x {
                        assert(r[i] == m[i]);
                        assert(m[i].0 != m[x].0);
                    }
                }
            },
            None => {
                assert(!fk.contains(e.0)) by {
                    if fk.contains(e.0) {
                        let j = choose|j: int| 0 <= j < fk.len() && fk[j] == e.0;
                        assert(m[j].0 == e.0);
                    }
                }
                assert(r == m.push(e));
                assert(keys_of(r) =~= fk.push(e.0));
                assert forall|i: int| 0 <= i < r.len() implies last_value(c, (#[trigger] r[i]).0)
                    == Some(r[i].1) by {
                    if i < m.len() {
                        assert(r[i] == m[i]);
                    }
                }
            },
        }
    }
}

/// The rules loaded, by file name: one rule per distinct name of a rule file
/// that defines a rule, in the order the names first appear (the user's
/// directory before the project's), each being the rule of the last file of
/// that name (a project file shadowing a user file of the same name).
pub proof fn loaded_rules_are_first_names_with_last_rules(files: Seq<(Seq<char>, Seq<char>)>)
    ensures
        ({
            let c = candidates(files);
            let names = first_keys(c);
            let out = load_rules_spec(files);
            &&& out.len() == names.len()
            &&& forall|i: int|
                0 <= i < out.len() ==> last_value(c, #[trigger] names[i]) == Some(out[i])
                    && out[i].name == names[i].take(names[i].len() - 3)
        }),
{
    let c = candidates(files);
    let m = shadowed(c);
    lemma_shadowed_is_first_keys_with_last_values(c);
    lemma_candidates_named(files);
    lemma_shadowed_keeps(c, |e: (Seq<char>, RuleView)| named_after_file(e));
    let names = first_keys(c);
    let out = load_rules_spec(files);
    assert(keys_of(m).len() == m.len());
    assert forall|i: int| 0 <= i < out.len() implies last_value(c, #[trigger] names[i]) == Some(
        out[i],
    ) && out[i].name == names[i].take(names[i].len() - 3) by {
        assert(names[i] == keys_of(m)[i]);
        assert(out[i] == m[i].1);
        assert(named_after_file(m[i]));
    }
}

/// The entry is the rule of one of the files.
pub open spec fn from_some_file(files: Seq<(Seq<char>, Seq<char>)>, e: (Seq<char>, RuleView)) -> bool {
    exists|j: int|
        0 <= j < files.len() && (#[trigger] files[j]).0 == e.0 && rule_of_file(files[j].0, files[j].1)
            == Some(e.1)
}

proof fn lemma_candidates_from_files(files: Seq<(Seq<char>, Seq<char>)>)
    ensures
        forall|i: int|
            0 <= i < candidates(files).len() ==> from_some_file(files, #[trigger] candidates(files)[i]),
    decreases files.len(),
{
    if files.len() > 0 {
        let rest = files.drop_last();
        lemma_candidates_from_files(rest);
        let c = candidates(files);
        let cr = candidates(rest);
        let ft = files.last();
        assert(ft == files[files.len() - 1]);
        assert forall|i: int| 0 <= i < cr.len() implies from_some_file(files, #[trigger] cr[i]) by {
            let j = choose|j: int|
                0 <= j < rest.len() && (#[trigger] rest[j]).0 == cr[i].0 && rule_of_file(
                    rest[j].0,
                    rest[j].1,
                ) == Some(cr[i].1);
            assert(files[j] == rest[j]);
        }
        match rule_of_file(ft.0, ft.1) {
            Some(r) => {
                assert(c == cr + seq![(ft.0, r)]);
                assert forall|i: int| 0 <= i < c.len() implies from_some_file(files, #[trigger] c[i]) by {
                    if i < cr.len() {
                        assert(c[i] == cr[i]);
                    }
                }
            },
            None => {
                assert(c == cr);
            },
        }
    }
}

/// Every loaded rule is the rule that one of the files defines (with the
/// field values `rule_of_file` gives), and no files load no rules.
pub proof fn loaded_rules_come_from_files(files: Seq<(Seq<char>, Seq<char>)>)
    ensures
        files.len() == 0 ==> load_rules_spec(files).len() == 0,
        forall|i: int|
            #![trigger load_rules_spec(files)[i]]
            0 <= i < load_rules_spec(files).len() ==> exists|j: int|
                0 <= j < files.len() && rule_of_file((#[trigger] files[j]).0, files[j].1) == Some(
                    load_rules_spec(files)[i],
                ),
{
    let c = candidates(files);
    lemma_candidates_from_files(files);
    lemma_shadowed_keeps(c, |e: (Seq<char>, RuleView)| from_some_file(files, e));
    let m = shadowed(c);
    if files.len() == 0 {
        assert(c.len() == 0);
    }
    assert forall|i: int|
        #![trigger load_rules_spec(files)[i]]
        0 <= i < load_rules_spec(files).len() implies exists|j: int|
        0 <= j < files.len() && rule_of_file((#[trigger] files[j]).0, files[j].1) == Some(
            load_rules_spec(files)[i],
        ) by {
        assert(from_some_file(files, m[i]));
        assert(load_rules_spec(files)[i] == m[i].1);
    }
}

/// `find_from` finds an occurrence at or after `from` whenever there is one.
proof fn lemma_find_from_complete(t: Seq<char>, pat: Seq<char>, from: int, i: int)
    requires
        0 <= from <= i,
        occurs_at(t, i, pat),
    ensures
        find_from(t, pat, from) is Some,
    decreases i - from,
{
    if !occurs_at(t, from, pat) {
        lemma_find_from_complete(t, pat, from + 1, i);
    }
}

/// A text has a frontmatter block exactly when it starts with "---" and a
/// "\n---" occurs at or after its fourth character.
pub proof fn frontmatter_present_iff_delimited(t: Seq<char>)
    ensures
        frontmatter_spec(t) is Some <==> (occurs_at(t, 0, seq!['-', '-', '-']) && exists|i: int|
            3 <= i && occurs_at(t, i, seq!['\n', '-', '-', '-'])),
{
    let marker = seq!['\n', '-', '-', '-'];
    lemma_find_from_found(t, marker, 3);
    if exists|i: int| 3 <= i && occurs_at(t, i, marker) {
        let i = choose|i: int| 3 <= i && occurs_at(t, i, marker);
        lemma_find_from_complete(t, marker, 3, i);
    }
}

/// A rule fires only when its scope admits the call, it is armed, and its
/// condition compiles with its flags and matches the content the call
/// introduces; the rule picked is the first in order for which all of this
/// holds, and none is picked when no rule qualifies or the call introduces
/// no content.
pub proof fn picked_rule_is_in_scope_armed_and_matching(
    rules: Seq<Rule>,
    tool: Seq<char>,
    input: JsonValue,
    calls: u64,
    fired: Map<Seq<char>, u64>,
)
    ensures
        ({
            let d = digest_spec(tool, input);
            let p = target_spec(tool, input);
            match evaluate_spec(rules, tool, input, calls, fired) {
                Some(i) => {
                    &&& d.len() > 0
                    &&& 0 <= i < rules.len()
                    &&& scope_allows_spec(rules[i].scope@, tool, p)
                    &&& is_armed_spec(rules[i], calls, fired)
                    &&& regex_compiles(rules[i].condition@, rules[i].flags@)
                    &&& regex_finds(rules[i].condition@, rules[i].flags@, d)
                    &&& forall|j: int|
                        0 <= j < i ==> !(scope_allows_spec((#[trigger] rules[j]).scope@, tool, p)
                            && is_armed_spec(rules[j], calls, fired) && regex_compiles(
                            rules[j].condition@,
                            rules[j].flags@,
                        ) && regex_finds(rules[j].condition@, rules[j].flags@, d))
                },
                None => d.len() == 0 || forall|j: int|
                    0 <= j < rules.len() ==> !(scope_allows_spec(
                        (#[trigger] rules[j]).scope@,
                        tool,
                        p,
                    ) && is_armed_spec(rules[j], calls, fired) && regex_compiles(
                        rules[j].condition@,
                        rules[j].flags@,
                    ) && regex_finds(rules[j].condition@, rules[j].flags@, d)),
            }
        }),
{
    evaluate_picks_first_firing_rule(rules, tool, input, calls, fired);
}

/// A rule scoped to other tools is never picked for a call: when every
/// entry of a non-empty scope names a tool other than the call's, the scope
/// admits nothing, so evaluation never picks that rule.
pub proof fn rule_scoped_to_other_tools_is_never_picked(
    rules: Seq<Rule>,
    i: int,
    tool: Seq<char>,
    input: JsonValue,
    calls: u64,
    fired: Map<Seq<char>, u64>,
)
    requires
        0 <= i < rules.len(),
        rules[i].scope@.len() > 0,
        forall|k: int| 0 <= k < rules[i].scope@.len() ==> (#[trigger] rules[i].scope@[k]).tool@ != tool,
    ensures
        !scope_allows_spec(rules[i].scope@, tool, target_spec(tool, input)),
        evaluate_spec(rules, tool, input, calls, fired) != Some(i),
{
    picked_rule_is_in_scope_armed_and_matching(rules, tool, input, calls, fired);
}

/// The path a call targets: for an object input, `notebook_path` for
/// NotebookEdit and `file_path` for every other tool, as `String(value)`
/// when that value is truthy, and no path otherwise.
pub proof fn target_path_is_file_path_except_for_notebooks(tool: Seq<char>, input: JsonValue)
    requires
        input is Object,
    ensures
        tool != "NotebookEdit"@ ==> (truthy_spec(json_get(input, "file_path"@)) ==> target_spec(
            tool,
            input,
        ) == Some(js_string(json_get(input, "file_path"@)->0))),
        tool != "NotebookEdit"@ ==> (!truthy_spec(json_get(input, "file_path"@)) ==> target_spec(
            tool,
            input,
        ) is None),
        tool == "NotebookEdit"@ ==> (truthy_spec(json_get(input, "notebook_path"@))
            ==> target_spec(tool, input) == Some(js_string(json_get(input, "notebook_path"@)->0))),
        tool == "NotebookEdit"@ ==> (!truthy_spec(json_get(input, "notebook_path"@))
            ==> target_spec(tool, input) is None),
{
}

/// `String(input[k] ?? "")` for an object input.
pub open spec fn prop_text(input: JsonValue, k: Seq<char>) -> Seq<char> {
    match json_get(input, k) {
        None => Seq::<char>::empty(),
        Some(JsonValue::Null) => Seq::<char>::empty(),
        Some(v) => js_string(v),
    }
}

/// The content a call introduces, for an object input: `String(x ?? "")` of
/// `new_string` for Edit, `content` for Write, `new_source` for
/// NotebookEdit and `command` for Bash; nothing for tools outside these and
/// MultiEdit.
pub proof fn digest_is_the_new_content(tool: Seq<char>, input: JsonValue)
    requires
        input is Object,
    ensures
        tool == "Edit"@ ==> digest_spec(tool, input) == prop_text(input, "new_string"@),
        tool == "Write"@ ==> digest_spec(tool, input) == prop_text(input, "content"@),
        tool == "NotebookEdit"@ ==> digest_spec(tool, input) == prop_text(input, "new_source"@),
        tool == "Bash"@ ==> digest_spec(tool, input) == prop_text(input, "command"@),
        (tool != "Edit"@ && tool != "Write"@ && tool != "MultiEdit"@ && tool != "NotebookEdit"@
            && tool != "Bash"@) ==> digest_spec(tool, input).len() == 0,
{
    reveal_strlit("Edit");
    reveal_strlit("Write");
    reveal_strlit("MultiEdit");
    reveal_strlit("NotebookEdit");
    reveal_strlit("Bash");
    assert("Edit"@ != "Write"@ && "Edit"@ != "MultiEdit"@ && "Edit"@ != "NotebookEdit"@ && "Edit"@ != "Bash"@) by {
        assert("Edit"@[0] != "Write"@[0]);
        assert("Edit"@[0] != "MultiEdit"@[0]);
        assert("Edit"@[0] != "NotebookEdit"@[0]);
        assert("Edit"@[0] != "Bash"@[0]);
    }
    assert("Write"@ != "MultiEdit"@ && "Write"@ != "NotebookEdit"@ && "Write"@ != "Bash"@) by {
        assert("Write"@[0] != "MultiEdit"@[0]);
        assert("Write"@[0] != "NotebookEdit"@[0]);
        assert("Write"@[0] != "Bash"@[0]);
    }
    assert("MultiEdit"@ != "NotebookEdit"@ && "MultiEdit"@ != "Bash"@) by {
        assert("MultiEdit"@[0] != "NotebookEdit"@[0]);
        assert("MultiEdit"@[0] != "Bash"@[0]);
    }
    assert("NotebookEdit"@ != "Bash"@) by {
        assert("NotebookEdit"@[0] != "Bash"@[0]);
    }
}

/// The fields of a loaded rule are read from its file's frontmatter: the
/// name is the file name without ".md"; `condition` is the (non-empty)
/// `condition` value; `flags` the `flags` value, "" when absent;
/// `description` likewise; `repeat` the `repeat` value when non-empty, else
/// "once"; `interrupt` is false only for the value "false"; the scope is
/// `scope_spec` of the `scope` value ("" when absent); the body is the
/// frontmatter's body. A file loads a rule exactly when its name ends in
/// ".md", it has a frontmatter block with a non-empty `condition`, and that
/// condition compiles with the flags.
pub proof fn loaded_rule_fields_come_from_frontmatter(f: Seq<char>, text: Seq<char>)
    ensures
        match frontmatter_spec(text) {
            None => rule_of_file(f, text) is None,
            Some((m, b)) => {
                let flags = if m.contains_key("flags"@) {
                    m["flags"@]
                } else {
                    Seq::<char>::empty()
                };
                let ok = f.len() >= 3 && f.skip(f.len() - 3) == ".md"@ && m.contains_key(
                    "condition"@,
                ) && m["condition"@].len() > 0 && regex_compiles(m["condition"@], flags);
                &&& rule_of_file(f, text) is Some <==> ok
                &&& ok ==> {
                    let r = rule_of_file(f, text)->0;
                    &&& r.name == f.take(f.len() - 3)
                    &&& r.condition == m["condition"@]
                    &&& r.flags == flags
                    &&& r.description == if m.contains_key("description"@) {
                        m["description"@]
                    } else {
                        Seq::<char>::empty()
                    }
                    &&& r.repeat == if m.contains_key("repeat"@) && m["repeat"@].len() > 0 {
                        m["repeat"@]
                    } else {
                        "once"@
                    }
                    &&& r.interrupt == !(m.contains_key("interrupt"@) && m["interrupt"@]
                        == "false"@)
                    &&& r.scope == scope_spec(
                        if m.contains_key("scope"@) {
                            m["scope"@]
                        } else {
                            Seq::<char>::empty()
                        },
                    )
                    &&& r.body == b
                }
            },
        },
{
    reveal_strlit(".md");
    assert(".md"@ =~= seq!['.', 'm', 'd']);
}

proof fn lemma_decimal_digits(n: nat)
    ensures
        decimal(n).len() > 0,
        forall|i: int| 0 <= i < decimal(n).len() ==> is_digit(#[trigger] decimal(n)[i]),
        digits_value(decimal(n)) == n,
    decreases n,
{
    let d = (n % 10) as nat;
    assert(digit_value(digit_char(d)) == d && is_digit(digit_char(d))) by {
        assert(d < 10);
    }
    if n >= 10 {
        lemma_decimal_digits(n / 10);
        let s = decimal(n);
        let t = decimal(n / 10);
        assert(s == t.push(digit_char(d)));
        assert(s.drop_last() =~= t);
        assert forall|i: int| 0 <= i < s.len() implies is_digit(#[trigger] s[i]) by {
            if i < t.len() {
                assert(s[i] == t[i]);
            }
        }
        assert(s.last() == digit_char(d));
        assert(digits_value(s) == digits_value(t) * 10 + digit_value(digit_char(d)));
        assert((n / 10) * 10 + d == n);
    } else {
        let s = decimal(n);
        assert(d == n);
        assert(s == seq![digit_char(n)]);
        assert(s.drop_last() =~= Seq::<char>::empty());
        assert(s.last() == digit_char(d));
        assert(digits_value(s) == digits_value(s.drop_last()) * 10 + digit_value(s.last()));
    }
}

/// `after-gap N`, written with one space and N in decimal, is read as the
/// gap N, for every N.
pub proof fn after_gap_reads_its_number(n: nat)
    ensures
        after_gap_spec("after-gap "@ + decimal(n)) == Some(n as int),
{
    reveal_strlit("after-gap ");
    let r = "after-gap "@ + decimal(n);
    let d = decimal(n);
    lemma_decimal_digits(n);
    assert(r.subrange(0, 9) =~= seq!['a', 'f', 't', 'e', 'r', '-', 'g', 'a', 'p']);
    assert(r[9] == ' ');
    assert(r[10] == d[0]);
    assert(!in_class(CharClass::Space, r[10]));
    lemma_class_end(r, 9, 10, CharClass::Space);
    assert forall|j: int| 10 <= j < r.len() implies in_class(CharClass::Digit, #[trigger] r[j]) by {
        assert(r[j] == d[j - 10]);
    }
    lemma_class_end(r, 10, r.len() as int, CharClass::Digit);
    assert(r.skip(10) =~= d);
}

} // verus!
