//! Structural outline of a source file: "LINE:signature" rows.
//!
//! Declarations are recognised by per-language ECMAScript regexes (run by
//! `regress`); line splitting, the whitespace class, UTF-16 lengths and the
//! rendering of rows follow JavaScript string semantics.
use vstd::prelude::*;
use crate::regex::{compile, regex_compiles, regex_finds, finds, Pattern};
use crate::text::{
    all_ws, all_ws_chars, base_name, base_name_bounds, chars_of, count_char, decimal,
    decimal_string, join, push_char, push_str, split_chars, split_on, str_eq, string_of,
    string_of_range, trim_end, trim_end_chars, utf16_units, utf16_prefix, utf16_width, views_of,
    lemma_split_on_len,
};

verus! {

/// The line count of a file and the outline rows found in it.
pub struct Outline {
    pub lines: usize,
    pub rows: Vec<String>,
}

// ------------------------------------------------------------ language table

/// Declaration patterns of each language family.
pub open spec fn lang_sources(lang: Seq<char>) -> Option<Seq<Seq<char>>> {
    if lang == "js"@ {
        Some(
            seq![
                r"^\s*(export\s+)?(default\s+)?(async\s+)?function\s*\*?\s*[\w$]+"@,
                r"^\s*(export\s+)?(abstract\s+)?class\s+[\w$]+"@,
                r"^\s*(export\s+)?(const|let|var)\s+[\w$]+\s*=\s*(async\s*)?(\([^)]*\)|[\w$]+)\s*=>"@,
                r"^\s*(export\s+)?(interface|type|enum)\s+[\w$]+"@,
                "^\\s*(describe|it|test|suite|context|bench)(\\.\\w+)?\\s*(\\([^)]*\\)\\s*)?\\(\\s*[`'\"]"@,
            ],
        )
    } else if lang == "py"@ {
        Some(seq![r"^\s*(async\s+)?def\s+\w+"@, r"^\s*class\s+\w+"@, r"^\s*@\w[\w.]*"@])
    } else if lang == "go"@ {
        Some(seq![r"^\s*func\s+"@, r"^\s*type\s+\w+"@, r"^\s*(var|const)\s*\("@])
    } else if lang == "rs"@ {
        Some(
            seq![
                r"^\s*(pub\s+)?(async\s+)?fn\s+\w+"@,
                r"^\s*(pub\s+)?(struct|enum|trait|impl|mod)\s"@,
                r"^\s*(pub\s+)?type\s+\w+"@,
            ],
        )
    } else if lang == "java"@ {
        Some(
            seq![
                r"^\s*(public|private|protected|static|final|abstract|\s)*(class|interface|enum|record)\s+\w+"@,
                r"^\s*(public|private|protected|static|final|abstract|synchronized|\s)+[\w<>\[\],.\s]+\s+\w+\s*\([^;]*\)\s*\{?\s*$"@,
            ],
        )
    } else if lang == "rb"@ {
        Some(seq![r"^\s*(def|class|module)\s+"@])
    } else if lang == "php"@ {
        Some(
            seq![
                r"^\s*(abstract\s+|final\s+)?(class|interface|trait)\s+\w+"@,
                r"^\s*(public|private|protected|static|\s)*function\s+\w+"@,
            ],
        )
    } else if lang == "sh"@ {
        Some(seq![r"^\s*(function\s+)?[\w-]+\s*\(\)\s*\{"@])
    } else if lang == "sql"@ {
        Some(seq![r"^\s*(CREATE|ALTER|DROP)\s+"@, r"^\s*(WITH|SELECT|INSERT|UPDATE|DELETE)\s"@])
    } else if lang == "swift"@ {
        Some(
            seq![
                r"^\s*(public\s+|private\s+|internal\s+|open\s+|fileprivate\s+)?(final\s+)?(func|class|struct|enum|protocol|extension|var|let)\s+\w+"@,
            ],
        )
    } else if lang == "c"@ {
        Some(
            seq![
                r"^\s*[\w*\s]+\s+\**\w+\s*\([^;]*\)\s*\{?\s*$"@,
                r"^\s*(typedef|struct|enum|union)\s+\w*"@,
                r"^\s*#(define|include)\s"@,
            ],
        )
    } else {
        None
    }
}

/// Regex flags of each language family: only SQL is case-insensitive.
pub open spec fn lang_flags(lang: Seq<char>) -> Seq<char> {
    if lang == "sql"@ {
        "i"@
    } else {
        ""@
    }
}

/// Every pattern compiles with the given flags.
pub open spec fn all_compile(srcs: Seq<Seq<char>>, flags: Seq<char>) -> bool {
    forall|i: int| 0 <= i < srcs.len() ==> regex_compiles(#[trigger] srcs[i], flags)
}

/// `v` holds one compiled regex per source, in order.
pub open spec fn compiled_from(v: Seq<Pattern>, srcs: Seq<Seq<char>>, flags: Seq<char>) -> bool {
    &&& v.len() == srcs.len()
    &&& forall|i: int|
        0 <= i < v.len() ==> (#[trigger] v[i]).source() == srcs[i] && v[i].flags() == flags
}

/// The extension table: lowercase extension to language family.
pub open spec fn ext_lang(ext: Seq<char>) -> Option<Seq<char>> {
    if ext == ".js"@ || ext == ".jsx"@ || ext == ".mjs"@ || ext == ".cjs"@ || ext == ".ts"@ || ext
        == ".tsx"@ {
        Some("js"@)
    } else if ext == ".py"@ {
        Some("py"@)
    } else if ext == ".go"@ {
        Some("go"@)
    } else if ext == ".rs"@ {
        Some("rs"@)
    } else if ext == ".java"@ || ext == ".kt"@ || ext == ".scala"@ || ext == ".cs"@ {
        Some("java"@)
    } else if ext == ".rb"@ {
        Some("rb"@)
    } else if ext == ".php"@ {
        Some("php"@)
    } else if ext == ".sh"@ || ext == ".bash"@ || ext == ".zsh"@ {
        Some("sh"@)
    } else if ext == ".sql"@ {
        Some("sql"@)
    } else if ext == ".swift"@ {
        Some("swift"@)
    } else if ext == ".c"@ || ext == ".h"@ || ext == ".cc"@ || ext == ".cpp"@ || ext == ".hpp"@ {
        Some("c"@)
    } else {
        None
    }
}

/// Index of the last '.' in `b`.
pub open spec fn last_dot(b: Seq<char>) -> Option<int>
    decreases b.len(),
{
    if b.len() == 0 {
        None
    } else if b.last() == '.' {
        Some(b.len() - 1)
    } else {
        last_dot(b.drop_last())
    }
}

/// Node's `path.posix.extname`: from the last '.' of the last component to
/// its end; empty when there is no dot, when the component starts with its
/// only leading dot (".bashrc"), and for "..".
pub open spec fn ext_name(p: Seq<char>) -> Seq<char> {
    let b = base_name(p);
    match last_dot(b) {
        None => Seq::<char>::empty(),
        Some(d) => if d == 0 || b == seq!['.', '.'] {
            Seq::<char>::empty()
        } else {
            b.skip(d)
        },
    }
}

/// Unicode lowercase mapping of a string (named result of `str::to_lowercase`).
pub uninterp spec fn lowercase(s: Seq<char>) -> Seq<char>;

/// Every character is ASCII.
pub open spec fn all_ascii(s: Seq<char>) -> bool {
    forall|i: int| 0 <= i < s.len() ==> (#[trigger] s[i] as u32) < 128
}

/// ASCII lowercase: 'A'..='Z' to 'a'..='z', everything else kept.
pub open spec fn ascii_lowercase(s: Seq<char>) -> Seq<char> {
    s.map_values(|c: char| if 'A' <= c && c <= 'Z' { ((c as u32) + 32) as char } else { c })
}

/// The language family of a path: its lowercased extension in the table.
pub open spec fn lang_of(p: Seq<char>) -> Option<Seq<char>> {
    let e = lowercase(ext_name(p));
    if e.len() == 0 {
        None
    } else {
        ext_lang(e)
    }
}

// -------------------------------------------------------------- outline spec

/// A line becomes a row: not blank, at most 400 UTF-16 units, and matched by
/// one of the patterns.
pub open spec fn line_is_row(line: Seq<char>, srcs: Seq<Seq<char>>, flags: Seq<char>) -> bool {
    &&& !all_ws(line)
    &&& utf16_units(line) <= 400
    &&& exists|j: int| 0 <= j < srcs.len() && regex_finds(#[trigger] srcs[j], flags, line)
}

/// "N:signature" for 0-based line index `k`: the 1-based number, a colon and
/// the line without trailing whitespace, cut to 160 UTF-16 units.
pub open spec fn row_text(k: nat, line: Seq<char>) -> Seq<char> {
    decimal(k + 1) + seq![':'] + utf16_prefix(trim_end(line), 160)
}

/// The rows found from line `k` on, at most `budget` of them.
pub open spec fn rows_from(
    lines: Seq<Seq<char>>,
    k: nat,
    srcs: Seq<Seq<char>>,
    flags: Seq<char>,
    budget: nat,
) -> Seq<Seq<char>>
    decreases lines.len() - k,
{
    if k >= lines.len() || budget == 0 {
        Seq::<Seq<char>>::empty()
    } else if line_is_row(lines[k as int], srcs, flags) {
        seq![row_text(k, lines[k as int])] + rows_from(
            lines,
            k + 1,
            srcs,
            flags,
            (budget - 1) as nat,
        )
    } else {
        rows_from(lines, k + 1, srcs, flags, budget)
    }
}

/// What `outline` returns: `None` only when the language's patterns fail to
/// compile; otherwise the line count (newlines + 1) and the rows.
pub open spec fn outline_spec(text: Seq<char>, path: Seq<char>, max_rows: nat) -> Option<
    (nat, Seq<Seq<char>>),
> {
    let lines = count_char(text, '\n') + 1;
    match lang_of(path) {
        None => Some((lines, Seq::<Seq<char>>::empty())),
        Some(lang) => match lang_sources(lang) {
            None => None,
            Some(srcs) => if all_compile(srcs, lang_flags(lang)) {
                Some((lines, rows_from(split_on(text, '\n'), 0, srcs, lang_flags(lang), max_rows)))
            } else {
                None
            },
        },
    }
}

/// The density gate: at least `max(4, lines / 80)` rows.
pub open spec fn covers_spec(lines: nat, row_count: nat) -> bool {
    row_count >= if lines / 80 > 4 { lines / 80 } else { 4 }
}

/// The fixed footer of a rendered outline.
pub open spec fn render_foot() -> Seq<char> {
    "\n\n[Re-read only what you need: Read(file_path, offset, limit) using the line numbers above. If you genuinely need the whole file, just call Read again on this path - it will go through.]"@
}

/// The rendered outline: a header naming the file and its line count, the
/// rows one per line, and the footer.
pub open spec fn render_spec(path: Seq<char>, lines: nat, rows: Seq<Seq<char>>) -> Seq<char> {
    "["@ + path + "] "@ + decimal(lines) + " lines - structural outline only, bodies elided."@
        + "\n\n"@ + join(rows, "\n"@) + render_foot()
}

/// The character sequences held by a sequence of strings.
pub open spec fn strings_view(v: Seq<String>) -> Seq<Seq<char>> {
    v.map_values(|s: String| s@)
}

// -------------------------------------------------------------- exec: table

/// The declaration patterns and flags of a language family.
fn pattern_sources(lang: &str) -> (r: Option<Vec<&'static str>>)
    ensures
        r is Some <==> lang_sources(lang@) is Some,
        r matches Some(v) ==> v@.map_values(|s: &str| s@) == lang_sources(lang@)->0,
{
    let r: Option<Vec<&'static str>> = if str_eq(lang, "js") {
        Some(
                vec![
                    r"^\s*(export\s+)?(default\s+)?(async\s+)?function\s*\*?\s*[\w$]+",
                    r"^\s*(export\s+)?(abstract\s+)?class\s+[\w$]+",
                    r"^\s*(export\s+)?(const|let|var)\s+[\w$]+\s*=\s*(async\s*)?(\([^)]*\)|[\w$]+)\s*=>",
                    r"^\s*(export\s+)?(interface|type|enum)\s+[\w$]+",
                    "^\\s*(describe|it|test|suite|context|bench)(\\.\\w+)?\\s*(\\([^)]*\\)\\s*)?\\(\\s*[`'\"]",
                ],
        )
    } else if str_eq(lang, "py") {
        Some(vec![r"^\s*(async\s+)?def\s+\w+", r"^\s*class\s+\w+", r"^\s*@\w[\w.]*"])
    } else if str_eq(lang, "go") {
        Some(vec![r"^\s*func\s+", r"^\s*type\s+\w+", r"^\s*(var|const)\s*\("])
    } else if str_eq(lang, "rs") {
        Some(
                vec![
                    r"^\s*(pub\s+)?(async\s+)?fn\s+\w+",
                    r"^\s*(pub\s+)?(struct|enum|trait|impl|mod)\s",
                    r"^\s*(pub\s+)?type\s+\w+",
                ],
        )
    } else if str_eq(lang, "java") {
        Some(
                vec![
                    r"^\s*(public|private|protected|static|final|abstract|\s)*(class|interface|enum|record)\s+\w+",
                    r"^\s*(public|private|protected|static|final|abstract|synchronized|\s)+[\w<>\[\],.\s]+\s+\w+\s*\([^;]*\)\s*\{?\s*$",
                ],
        )
    } else if str_eq(lang, "rb") {
        Some(vec![r"^\s*(def|class|module)\s+"])
    } else if str_eq(lang, "php") {
        Some(
                vec![
                    r"^\s*(abstract\s+|final\s+)?(class|interface|trait)\s+\w+",
                    r"^\s*(public|private|protected|static|\s)*function\s+\w+",
                ],
        )
    } else if str_eq(lang, "sh") {
        Some(vec![r"^\s*(function\s+)?[\w-]+\s*\(\)\s*\{"])
    } else if str_eq(lang, "sql") {
        Some(vec![r"^\s*(CREATE|ALTER|DROP)\s+", r"^\s*(WITH|SELECT|INSERT|UPDATE|DELETE)\s"])
    } else if str_eq(lang, "swift") {
        Some(
                vec![
                    r"^\s*(public\s+|private\s+|internal\s+|open\s+|fileprivate\s+)?(final\s+)?(func|class|struct|enum|protocol|extension|var|let)\s+\w+",
                ],
        )
    } else if str_eq(lang, "c") {
        Some(
                vec![
                    r"^\s*[\w*\s]+\s+\**\w+\s*\([^;]*\)\s*\{?\s*$",
                    r"^\s*(typedef|struct|enum|union)\s+\w*",
                    r"^\s*#(define|include)\s",
                ],
        )
    } else {
        None
    };
    proof {
        if r is Some {
            assert((r->0)@.map_values(|s: &str| s@) =~= lang_sources(lang@)->0);
        }
    }
    r
}

/// The regex flags of a language family.
fn lang_flags_of(lang: &str) -> (f: &'static str)
    ensures
        f@ == lang_flags(lang@),
{
    if str_eq(lang, "sql") {
        "i"
    } else {
        ""
    }
}

/// The compiled declaration patterns of a language family: `None` for an
/// unknown family, or when a pattern does not compile.
pub fn patterns(lang: &str) -> (r: Option<Vec<Pattern>>)
    ensures
        r is Some <==> (lang_sources(lang@) is Some && all_compile(
            lang_sources(lang@)->0,
            lang_flags(lang@),
        )),
        r matches Some(v) ==> compiled_from(v@, lang_sources(lang@)->0, lang_flags(lang@)),
{
    let srcs = match pattern_sources(lang) {
        Some(p) => p,
        None => return None,
    };
    let flags = lang_flags_of(lang);
    let ghost ss = lang_sources(lang@)->0;
    let mut out: Vec<Pattern> = Vec::new();
    let mut i: usize = 0;
    while i < srcs.len()
        invariant
            i <= srcs.len(),
            lang_sources(lang@) is Some,
            ss == lang_sources(lang@)->0,
            srcs@.map_values(|s: &str| s@) == ss,
            flags@ == lang_flags(lang@),
            compiled_from(out@, ss.take(i as int), flags@),
            forall|k: int| 0 <= k < i ==> regex_compiles(#[trigger] ss[k], flags@),
        decreases srcs.len() - i,
    {
        assert(ss[i as int] == srcs@[i as int]@);
        match compile(srcs[i], flags) {
            Some(p) => {
                out.push(p);
            },
            None => {
                assert(!all_compile(ss, flags@)) by {
                    assert(!regex_compiles(ss[i as int], flags@));
                }
                return None;
            },
        }
        i = i + 1;
    }
    assert(ss.take(srcs.len() as int) =~= ss);
    Some(out)
}

/// The language family of a lowercase extension.
fn ext_lang_of(ext: &str) -> (r: Option<&'static str>)
    ensures
        r is Some <==> ext_lang(ext@) is Some,
        r matches Some(l) ==> l@ == ext_lang(ext@)->0,
{
    if str_eq(ext, ".js") || str_eq(ext, ".jsx") || str_eq(ext, ".mjs") || str_eq(ext, ".cjs")
        || str_eq(ext, ".ts") || str_eq(ext, ".tsx") {
        Some("js")
    } else if str_eq(ext, ".py") {
        Some("py")
    } else if str_eq(ext, ".go") {
        Some("go")
    } else if str_eq(ext, ".rs") {
        Some("rs")
    } else if str_eq(ext, ".java") || str_eq(ext, ".kt") || str_eq(ext, ".scala") || str_eq(
        ext,
        ".cs",
    ) {
        Some("java")
    } else if str_eq(ext, ".rb") {
        Some("rb")
    } else if str_eq(ext, ".php") {
        Some("php")
    } else if str_eq(ext, ".sh") || str_eq(ext, ".bash") || str_eq(ext, ".zsh") {
        Some("sh")
    } else if str_eq(ext, ".sql") {
        Some("sql")
    } else if str_eq(ext, ".swift") {
        Some("swift")
    } else if str_eq(ext, ".c") || str_eq(ext, ".h") || str_eq(ext, ".cc") || str_eq(ext, ".cpp")
        || str_eq(ext, ".hpp") {
        Some("c")
    } else {
        None
    }
}

/// Unicode lowercase of a string.
/// Wraps `str::to_lowercase`; its result is named `lowercase`. On ASCII text
/// the Unicode lowercase mapping is ASCII lowercasing, which is stated too.
#[verifier::external_body]
fn to_lowercase(s: &str) -> (r: String)
    ensures
        r@ == lowercase(s@),
        all_ascii(s@) ==> r@ == ascii_lowercase(s@),
{
    s.to_lowercase()
}

/// Node's `path.posix.extname`.
pub fn extname(p: &str) -> (r: String)
    ensures
        r@ == ext_name(p@),
{
    let v = chars_of(p);
    let (s, e) = base_name_bounds(&v);
    let ghost b = v@.subrange(s as int, e as int);
    let mut d = e;
    while d > s && v[d - 1] != '.'
        invariant
            s <= d <= e <= v.len(),
            b == v@.subrange(s as int, e as int),
            forall|k: int| d <= k < e ==> #[trigger] v@[k] != '.',
            last_dot(b) == last_dot(v@.subrange(s as int, d as int)),
        decreases d,
    {
        assert(v@.subrange(s as int, d as int).drop_last() =~= v@.subrange(s as int, d - 1));
        d = d - 1;
    }
    if d == s {
        assert(v@.subrange(s as int, d as int).len() == 0);
        return String::new();
    }
    let dot = d - 1;
    assert(v@.subrange(s as int, d as int).last() == '.');
    assert(last_dot(b) == Some(dot - s));
    if dot == s || (e - s == 2 && v[s] == '.' && v[s + 1] == '.') {
        proof {
            if e - s == 2 && v@[s as int] == '.' && v@[s + 1] == '.' {
                assert(b =~= seq!['.', '.']);
            }
        }
        return String::new();
    }
    proof {
        if b == seq!['.', '.'] {
            assert(b[0] == v@[s as int]);
            assert(b[1] == v@[s + 1]);
        }
        assert(b.skip(dot - s) =~= v@.subrange(dot as int, e as int));
    }
    string_of_range(&v, dot, e)
}

/// The language family of a path, by its lowercased extension.
pub fn lang_for(file_path: &str) -> (r: Option<&'static str>)
    ensures
        r is Some <==> lang_of(file_path@) is Some,
        r matches Some(l) ==> l@ == lang_of(file_path@)->0,
        all_ascii(ext_name(file_path@)) ==> lowercase(ext_name(file_path@)) == ascii_lowercase(
            ext_name(file_path@),
        ),
{
    let ext = extname(file_path);
    let lower = to_lowercase(ext.as_str());
    if lower.as_str().is_empty() {
        return None;
    }
    ext_lang_of(lower.as_str())
}

/// Whether the path has a recognised source extension.
pub fn is_source(file_path: &str) -> (b: bool)
    ensures
        b == (lang_of(file_path@) is Some),
{
    lang_for(file_path).is_some()
}

/// JS `String.length` of a string: its UTF-16 code units.
pub fn utf16_len(s: &str) -> (n: usize)
    requires
        s@.len() <= usize::MAX / 2,
    ensures
        n == utf16_units(s@),
{
    let v = chars_of(s);
    let mut n: usize = 0;
    let mut i: usize = 0;
    while i < v.len()
        invariant
            i <= v.len(),
            v@.len() <= usize::MAX / 2,
            n == utf16_units(v@.take(i as int)),
            n <= 2 * i,
        decreases v.len() - i,
    {
        assert(v@.take(i + 1).drop_last() =~= v@.take(i as int));
        if (v[i] as u32) >= 0x10000 {
            n = n + 2;
        } else {
            n = n + 1;
        }
        i = i + 1;
    }
    assert(v@.take(v.len() as int) =~= v@);
    n
}

proof fn lemma_utf16_len_prefix(s: Seq<char>, i: int)
    requires
        0 <= i <= s.len(),
    ensures
        utf16_units(s.take(i)) <= utf16_units(s),
    decreases s.len(),
{
    if i < s.len() {
        assert(s.drop_last().take(i) =~= s.take(i));
        lemma_utf16_len_prefix(s.drop_last(), i);
    } else {
        assert(s.take(i) =~= s);
    }
}

/// Whether a line is longer than `limit` UTF-16 code units.
fn utf16_len_gt(v: &Vec<char>, limit: usize) -> (b: bool)
    requires
        limit < usize::MAX - 2,
    ensures
        b == (utf16_units(v@) > limit),
{
    let mut n: usize = 0;
    let mut i: usize = 0;
    while i < v.len()
        invariant
            i <= v.len(),
            limit < usize::MAX - 2,
            n == utf16_units(v@.take(i as int)),
            n <= limit,
        decreases v.len() - i,
    {
        assert(v@.take(i + 1).drop_last() =~= v@.take(i as int));
        if (v[i] as u32) >= 0x10000 {
            n = n + 2;
        } else {
            n = n + 1;
        }
        i = i + 1;
        if n > limit {
            proof {
                lemma_utf16_len_prefix(v@, i as int);
            }
            return true;
        }
    }
    assert(v@.take(v.len() as int) =~= v@);
    false
}

/// JS `.slice(0, max)` in UTF-16 code units; a character that would straddle
/// the cut is dropped whole.
pub fn slice_utf16(s: &str, max: usize) -> (r: String)
    ensures
        r@ == utf16_prefix(s@, max as nat),
{
    let v = chars_of(s);
    let mut units: usize = 0;
    let mut i: usize = 0;
    assert(v@.skip(0) =~= v@);
    assert(v@.take(0) =~= Seq::<char>::empty());
    while i < v.len()
        invariant
            i <= v.len(),
            v@ == s@,
            units <= max,
            utf16_prefix(v@, max as nat) == v@.take(i as int) + utf16_prefix(
                v@.skip(i as int),
                (max - units) as nat,
            ),
        decreases v.len() - i,
    {
        let w: usize = if (v[i] as u32) >= 0x10000 {
            2
        } else {
            1
        };
        let ghost rest = v@.skip(i as int);
        assert(rest[0] == v@[i as int]);
        if w > max - units {
            assert(utf16_prefix(rest, (max - units) as nat) =~= Seq::<char>::empty());
            assert(v@.take(i as int) + Seq::<char>::empty() =~= v@.subrange(0, i as int));
            return string_of_range(&v, 0, i);
        }
        assert(rest.drop_first() =~= v@.skip(i + 1));
        assert(v@.take(i as int) + seq![v@[i as int]] =~= v@.take(i + 1));
        assert(v@.take(i as int) + (seq![v@[i as int]] + utf16_prefix(
            v@.skip(i + 1),
            (max - units - w) as nat,
        )) =~= v@.take(i + 1) + utf16_prefix(v@.skip(i + 1), (max - units - w) as nat));
        units = units + w;
        i = i + 1;
    }
    assert(v@.skip(v.len() as int) =~= Seq::<char>::empty());
    assert(v@.take(v.len() as int) + Seq::<char>::empty() =~= v@);
    string_of(&v)
}

/// Number of newlines in the text.
fn bytecount_nl(v: &Vec<char>) -> (n: usize)
    ensures
        n == count_char(v@, '\n'),
{
    let mut n: usize = 0;
    let mut i: usize = 0;
    while i < v.len()
        invariant
            i <= v.len(),
            n == count_char(v@.take(i as int), '\n'),
            n <= i,
        decreases v.len() - i,
    {
        assert(v@.take(i + 1).drop_last() =~= v@.take(i as int));
        if v[i] == '\n' {
            n = n + 1;
        }
        i = i + 1;
    }
    assert(v@.take(v.len() as int) =~= v@);
    n
}

/// Whether one of the compiled patterns matches somewhere in the line.
fn any_match(pats: &Vec<Pattern>, line: &str) -> (b: bool)
    ensures
        b == exists|j: int|
            0 <= j < pats@.len() && regex_finds(
                (#[trigger] pats@[j]).source(),
                pats@[j].flags(),
                line@,
            ),
{
    let mut j: usize = 0;
    while j < pats.len()
        invariant
            j <= pats.len(),
            forall|k: int|
                0 <= k < j ==> !regex_finds((#[trigger] pats@[k]).source(), pats@[k].flags(), line@),
        decreases pats.len() - j,
    {
        if finds(&pats[j], line) {
            return true;
        }
        j = j + 1;
    }
    false
}

/// Outlines a source file: its line count (newlines + 1, like JS `split`)
/// and, for a recognised language, up to `max_rows` rows "N:signature" for
/// the declaration lines. `None` only when the language's patterns do not
/// compile.
pub fn outline(text: &str, file_path: &str, max_rows: usize) -> (r: Option<Outline>)
    ensures
        match outline_spec(text@, file_path@, max_rows as nat) {
            None => r is None,
            Some((lines, rows)) => r matches Some(o) && o.lines == lines && strings_view(o.rows@)
                == rows,
        },
{
    let v = chars_of(text);
    let lines_v = split_chars(&v, '\n');
    proof {
        lemma_split_on_len(v@, '\n');
    }
    let n = bytecount_nl(&v);
    assert(views_of(lines_v@).len() == lines_v@.len());
    let lines = n + 1;
    let lang = match lang_for(file_path) {
        Some(l) => l,
        None => {
            let o = Outline { lines, rows: Vec::new() };
            assert(strings_view(o.rows@) =~= Seq::<Seq<char>>::empty());
            return Some(o);
        },
    };
    let pats = match patterns(lang) {
        Some(p) => p,
        None => return None,
    };
    let ghost ll = split_on(v@, '\n');
    let ghost srcs = lang_sources(lang@)->0;
    let ghost flags = lang_flags(lang@);
    let mut rows: Vec<String> = Vec::new();
    let mut i: usize = 0;
    assert(strings_view(rows@) + rows_from(ll, 0, srcs, flags, max_rows as nat) =~= rows_from(
        ll,
        0,
        srcs,
        flags,
        max_rows as nat,
    ));
    while i < lines_v.len() && rows.len() < max_rows
        invariant
            i <= lines_v.len(),
            rows.len() <= max_rows,
            views_of(lines_v@) == ll,
            compiled_from(pats@, srcs, flags),
            strings_view(rows@) + rows_from(ll, i as nat, srcs, flags, (max_rows - rows.len()) as nat)
                == rows_from(ll, 0, srcs, flags, max_rows as nat),
        decreases lines_v.len() - i,
    {
        let line = &lines_v[i];
        assert(line@ == ll[i as int]);
        let ghost budget = (max_rows - rows.len()) as nat;
        let blank = all_ws_chars(line);
        let long = if blank {
            false
        } else {
            utf16_len_gt(line, 400)
        };
        let hit = if blank || long {
            false
        } else {
            let line_str = string_of(line);
            let m = any_match(&pats, line_str.as_str());
            proof {
                if m {
                    let j = choose|j: int|
                        0 <= j < pats@.len() && regex_finds(
                            (#[trigger] pats@[j]).source(),
                            pats@[j].flags(),
                            line@,
                        );
                    assert(regex_finds(srcs[j], flags, ll[i as int]));
                } else {
                    assert forall|j: int| 0 <= j < srcs.len() implies !regex_finds(
                        #[trigger] srcs[j],
                        flags,
                        ll[i as int],
                    ) by {
                        assert(pats@[j].source() == srcs[j]);
                    }
                }
            }
            m
        };
        assert(hit == line_is_row(ll[i as int], srcs, flags));
        if hit {
            let trimmed = trim_end_chars(line);
            let sig = slice_utf16(trimmed.as_str(), 160);
            let mut row = decimal_string((i + 1) as u64);
            push_char(&mut row, ':');
            push_str(&mut row, sig.as_str());
            assert(row@ == row_text(i as nat, ll[i as int]));
            let ghost before = strings_view(rows@);
            rows.push(row);
            assert(strings_view(rows@) =~= before.push(row_text(i as nat, ll[i as int])));
            assert(before + rows_from(ll, i as nat, srcs, flags, budget) =~= strings_view(rows@)
                + rows_from(ll, (i + 1) as nat, srcs, flags, (budget - 1) as nat));
        }
        i = i + 1;
    }
    proof {
        let budget = (max_rows - rows.len()) as nat;
        assert(rows_from(ll, i as nat, srcs, flags, budget) =~= Seq::<Seq<char>>::empty());
        assert(strings_view(rows@) + Seq::<Seq<char>>::empty() =~= strings_view(rows@));
    }
    Some(Outline { lines, rows })
}

/// Whether an outline is dense enough to stand for the file: at least
/// `max(4, lines / 80)` rows.
pub fn covers(lines: usize, row_count: usize) -> (b: bool)
    ensures
        b == covers_spec(lines as nat, row_count as nat),
{
    let floor = if lines / 80 > 4 {
        lines / 80
    } else {
        4
    };
    row_count >= floor
}

/// Renders an outline as the denial reason: header, rows, and a footer that
/// teaches the ranged re-read.
pub fn render(file_path: &str, lines: usize, rows: &[String]) -> (r: String)
    ensures
        r@ == render_spec(file_path@, lines as nat, rows@.map_values(|s: String| s@)),
{
    let mut out = String::new();
    push_str(&mut out, "[");
    push_str(&mut out, file_path);
    push_str(&mut out, "] ");
    let n = decimal_string(lines as u64);
    push_str(&mut out, n.as_str());
    push_str(&mut out, " lines - structural outline only, bodies elided.");
    push_str(&mut out, "\n\n");
    let ghost head = out@;
    let ghost parts = rows@.map_values(|s: String| s@);
    let mut i: usize = 0;
    while i < rows.len()
        invariant
            i <= rows@.len(),
            parts == rows@.map_values(|s: String| s@),
            out@ == head + join(parts.take(i as int), "\n"@),
        decreases rows.len() - i,
    {
        let ghost before = out@;
        if i > 0 {
            push_str(&mut out, "\n");
        }
        push_str(&mut out, rows[i].as_str());
        proof {
            let t = parts.take(i + 1);
            assert(t.drop_last() =~= parts.take(i as int));
            assert(t.last() == rows@[i as int]@);
            if i == 0 {
                assert(t.len() == 1);
                assert(parts.take(0).len() == 0);
                assert(join(parts.take(0), "\n"@) =~= Seq::<char>::empty());
                assert(out@ =~= head + join(t, "\n"@));
            } else {
                assert(out@ =~= head + join(t, "\n"@));
            }
        }
        i = i + 1;
    }
    assert(parts.take(rows@.len() as int) =~= parts);
    push_str(
        &mut out,
        "\n\n[Re-read only what you need: Read(file_path, offset, limit) using the line numbers above. If you genuinely need the whole file, just call Read again on this path - it will go through.]",
    );
    out
}

} // verus!

verus! {

// --------------------------------------------------------------- properties

proof fn lemma_rows_from_within_budget(
    lines: Seq<Seq<char>>,
    k: nat,
    srcs: Seq<Seq<char>>,
    flags: Seq<char>,
    budget: nat,
)
    ensures
        rows_from(lines, k, srcs, flags, budget).len() <= budget,
    decreases lines.len() - k,
{
    if k < lines.len() && budget > 0 {
        if line_is_row(lines[k as int], srcs, flags) {
            lemma_rows_from_within_budget(lines, k + 1, srcs, flags, (budget - 1) as nat);
        } else {
            lemma_rows_from_within_budget(lines, k + 1, srcs, flags, budget);
        }
    }
}

/// An outline has at most `max_rows` rows, and counts at least one line
/// (the newlines plus one).
pub proof fn outline_rows_within_max(text: Seq<char>, path: Seq<char>, max_rows: nat)
    ensures
        outline_spec(text, path, max_rows) matches Some((lines, rows)) ==> {
            &&& rows.len() <= max_rows
            &&& lines == count_char(text, '\n') + 1
        },
{
    match lang_of(path) {
        Some(lang) => match lang_sources(lang) {
            Some(srcs) => lemma_rows_from_within_budget(
                split_on(text, '\n'),
                0,
                srcs,
                lang_flags(lang),
                max_rows,
            ),
            None => {},
        },
        None => {},
    }
}

/// A file that is not source code outlines to no rows.
pub proof fn non_source_outline_is_empty(text: Seq<char>, path: Seq<char>, max_rows: nat)
    requires
        lang_of(path) is None,
    ensures
        outline_spec(text, path, max_rows) == Some((count_char(text, '\n') + 1, Seq::<Seq<char>>::empty())),
{
}

/// The density gate is monotone: more rows never make an outline that
/// covers its file stop covering it.
pub proof fn covers_is_monotone(lines: nat, rows: nat, more: nat)
    requires
        covers_spec(lines, rows),
        rows <= more,
    ensures
        covers_spec(lines, more),
{
}

proof fn lemma_rows_from_prefix(
    lines: Seq<Seq<char>>,
    k: nat,
    srcs: Seq<Seq<char>>,
    flags: Seq<char>,
    b1: nat,
    b2: nat,
)
    requires
        b1 <= b2,
    ensures
        ({
            let r1 = rows_from(lines, k, srcs, flags, b1);
            let r2 = rows_from(lines, k, srcs, flags, b2);
            &&& r1.len() <= r2.len()
            &&& r1 == r2.take(r1.len() as int)
            &&& r1.len() < b1 ==> r1 == r2
        }),
    decreases lines.len() - k,
{
    let r1 = rows_from(lines, k, srcs, flags, b1);
    let r2 = rows_from(lines, k, srcs, flags, b2);
    if k >= lines.len() {
        assert(r2.take(0) =~= r1);
    } else if b1 == 0 {
        assert(r2.take(0) =~= r1);
    } else if line_is_row(lines[k as int], srcs, flags) {
        lemma_rows_from_prefix(lines, k + 1, srcs, flags, (b1 - 1) as nat, (b2 - 1) as nat);
        let row = seq![row_text(k, lines[k as int])];
        let t1 = rows_from(lines, k + 1, srcs, flags, (b1 - 1) as nat);
        let t2 = rows_from(lines, k + 1, srcs, flags, (b2 - 1) as nat);
        assert(r1 == row + t1);
        assert(r2 == row + t2);
        assert(r2.take(r1.len() as int) =~= row + t2.take(t1.len() as int));
    } else {
        lemma_rows_from_prefix(lines, k + 1, srcs, flags, b1, b2);
    }
}

/// A smaller row limit gives a prefix of the outline a larger one gives:
/// the same line count, at most `m1` rows, the first rows of the larger
/// outline, and all of them when fewer than `m1` were found.
pub proof fn outline_rows_prefix_of_larger_limit(text: Seq<char>, path: Seq<char>, m1: nat, m2: nat)
    requires
        m1 <= m2,
        outline_spec(text, path, m1) is Some,
    ensures
        outline_spec(text, path, m2) matches Some((lines2, rows2)) && {
            let (lines1, rows1) = outline_spec(text, path, m1)->0;
            &&& lines1 == lines2
            &&& rows1.len() <= m1
            &&& rows1 == rows2.take(rows1.len() as int)
            &&& rows1.len() < m1 ==> rows1 == rows2
        },
{
    outline_rows_within_max(text, path, m1);
    match lang_of(path) {
        Some(lang) => {
            let srcs = lang_sources(lang)->0;
            lemma_rows_from_prefix(split_on(text, '\n'), 0, srcs, lang_flags(lang), m1, m2);
        },
        None => {
            assert(Seq::<Seq<char>>::empty().take(0) =~= Seq::<Seq<char>>::empty());
        },
    }
}

/// The 0-based indices, from `k` on and in ascending order, of the lines
/// that become rows.
pub open spec fn row_indices(lines: Seq<Seq<char>>, k: nat, srcs: Seq<Seq<char>>, flags: Seq<char>) -> Seq<nat>
    decreases lines.len() - k,
{
    if k >= lines.len() {
        Seq::empty()
    } else if line_is_row(lines[k as int], srcs, flags) {
        seq![k] + row_indices(lines, k + 1, srcs, flags)
    } else {
        row_indices(lines, k + 1, srcs, flags)
    }
}

proof fn lemma_rows_from_indices(
    lines: Seq<Seq<char>>,
    k: nat,
    srcs: Seq<Seq<char>>,
    flags: Seq<char>,
    budget: nat,
)
    ensures
        ({
            let q = row_indices(lines, k, srcs, flags);
            let n = if q.len() < budget { q.len() } else { budget };
            &&& rows_from(lines, k, srcs, flags, budget) == q.take(n as int).map_values(
                |j: nat| row_text(j, lines[j as int]),
            )
        }),
    decreases lines.len() - k,
{
    let q = row_indices(lines, k, srcs, flags);
    let f = |j: nat| row_text(j, lines[j as int]);
    if k >= lines.len() {
        assert(q.take(0).map_values(f) =~= Seq::<Seq<char>>::empty());
    } else {
        let q1 = row_indices(lines, k + 1, srcs, flags);
        if line_is_row(lines[k as int], srcs, flags) {
            assert(q == seq![k] + q1);
            if budget == 0 {
                assert(q.take(0).map_values(f) =~= Seq::<Seq<char>>::empty());
            } else {
                lemma_rows_from_indices(lines, k + 1, srcs, flags, (budget - 1) as nat);
                let n1 = if q1.len() < budget - 1 { q1.len() } else { (budget - 1) as nat };
                assert(q.take(n1 + 1int) =~= seq![k] + q1.take(n1 as int));
                assert(q.take(n1 + 1int).map_values(f) =~= seq![f(k)] + q1.take(n1 as int).map_values(f));
            }
        } else {
            lemma_rows_from_indices(lines, k + 1, srcs, flags, budget);
            if budget == 0 {
                assert(q.take(0).map_values(f) =~= Seq::<Seq<char>>::empty());
                assert(q1.take(0).map_values(f) =~= Seq::<Seq<char>>::empty());
            }
        }
    }
}

/// The outline of a source file, by lines: with the text split on '\n', the
/// rows are, for the first `max_rows` lines in ascending order that are not
/// blank, have at most 400 UTF-16 units and are matched by a pattern of the
/// file's language, the 1-based line number, ':' and the line without
/// trailing whitespace cut to 160 units.
pub proof fn outline_rows_are_the_first_declaration_lines(text: Seq<char>, path: Seq<char>, max_rows: nat)
    requires
        lang_of(path) is Some,
        outline_spec(text, path, max_rows) is Some,
    ensures
        ({
            let lang = lang_of(path)->0;
            let lines = split_on(text, '\n');
            let q = row_indices(lines, 0, lang_sources(lang)->0, lang_flags(lang));
            let n = if q.len() < max_rows { q.len() } else { max_rows };
            let (count, rows) = outline_spec(text, path, max_rows)->0;
            &&& count == lines.len()
            &&& forall|i: int| 0 <= i < q.len() ==> line_is_row(
                #[trigger] lines[q[i] as int],
                lang_sources(lang)->0,
                lang_flags(lang),
            )
            &&& rows.len() == n
            &&& forall|i: int|
                0 <= i < n ==> #[trigger] rows[i] == decimal(q[i] + 1) + seq![':'] + utf16_prefix(
                    trim_end(lines[q[i] as int]),
                    160,
                )
        }),
{
    let lang = lang_of(path)->0;
    let lines = split_on(text, '\n');
    let srcs = lang_sources(lang)->0;
    let flags = lang_flags(lang);
    lemma_split_on_len(text, '\n');
    lemma_rows_from_indices(lines, 0, srcs, flags, max_rows);
    lemma_row_indices_are_rows(lines, 0, srcs, flags);
}

proof fn lemma_row_indices_are_rows(lines: Seq<Seq<char>>, k: nat, srcs: Seq<Seq<char>>, flags: Seq<char>)
    ensures
        forall|i: int|
            0 <= i < row_indices(lines, k, srcs, flags).len() ==> {
                let j = #[trigger] row_indices(lines, k, srcs, flags)[i];
                k <= j < lines.len() && line_is_row(lines[j as int], srcs, flags)
            },
    decreases lines.len() - k,
{
    if k < lines.len() {
        lemma_row_indices_are_rows(lines, k + 1, srcs, flags);
        let q = row_indices(lines, k, srcs, flags);
        let q1 = row_indices(lines, k + 1, srcs, flags);
        if line_is_row(lines[k as int], srcs, flags) {
            assert forall|i: int| 0 <= i < q.len() implies {
                let j = #[trigger] q[i];
                k <= j < lines.len() && line_is_row(lines[j as int], srcs, flags)
            } by {
                if i > 0 {
                    assert(q[i] == q1[i - 1]);
                }
            }
        }
    }
}

/// The declaration patterns of each language family: a line of a file of
/// the family becomes an outline row exactly when it is not blank, has at
/// most 400 UTF-16 units, and one of the family's ECMAScript patterns (SQL's
/// case-insensitively) matches somewhere in it. With
/// `outline_rows_are_the_first_declaration_lines` this fixes the rows of
/// every outline, e.g. `function foo() {` is a row of a `.js` file.
pub proof fn declaration_patterns_of_each_family(lang: Seq<char>, line: Seq<char>)
    ensures
        lang == "js"@ ==> (line_is_row(line, lang_sources(lang)->0, lang_flags(lang)) <==> (
            !all_ws(line) && utf16_units(line) <= 400 && (regex_finds(r"^\s*(export\s+)?(default\s+)?(async\s+)?function\s*\*?\s*[\w$]+"@, ""@, line) || regex_finds(r"^\s*(export\s+)?(abstract\s+)?class\s+[\w$]+"@, ""@, line) || regex_finds(r"^\s*(export\s+)?(const|let|var)\s+[\w$]+\s*=\s*(async\s*)?(\([^)]*\)|[\w$]+)\s*=>"@, ""@, line) || regex_finds(r"^\s*(export\s+)?(interface|type|enum)\s+[\w$]+"@, ""@, line) || regex_finds("^\\s*(describe|it|test|suite|context|bench)(\\.\\w+)?\\s*(\\([^)]*\\)\\s*)?\\(\\s*[`'\"]"@, ""@, line)))),
        lang == "py"@ ==> (line_is_row(line, lang_sources(lang)->0, lang_flags(lang)) <==> (
            !all_ws(line) && utf16_units(line) <= 400 && (regex_finds(r"^\s*(async\s+)?def\s+\w+"@, ""@, line) || regex_finds(r"^\s*class\s+\w+"@, ""@, line) || regex_finds(r"^\s*@\w[\w.]*"@, ""@, line)))),
        lang == "go"@ ==> (line_is_row(line, lang_sources(lang)->0, lang_flags(lang)) <==> (
            !all_ws(line) && utf16_units(line) <= 400 && (regex_finds(r"^\s*func\s+"@, ""@, line) || regex_finds(r"^\s*type\s+\w+"@, ""@, line) || regex_finds(r"^\s*(var|const)\s*\("@, ""@, line)))),
        lang == "rs"@ ==> (line_is_row(line, lang_sources(lang)->0, lang_flags(lang)) <==> (
            !all_ws(line) && utf16_units(line) <= 400 && (regex_finds(r"^\s*(pub\s+)?(async\s+)?fn\s+\w+"@, ""@, line) || regex_finds(r"^\s*(pub\s+)?(struct|enum|trait|impl|mod)\s"@, ""@, line) || regex_finds(r"^\s*(pub\s+)?type\s+\w+"@, ""@, line)))),
        lang == "java"@ ==> (line_is_row(line, lang_sources(lang)->0, lang_flags(lang)) <==> (
            !all_ws(line) && utf16_units(line) <= 400 && (regex_finds(r"^\s*(public|private|protected|static|final|abstract|\s)*(class|interface|enum|record)\s+\w+"@, ""@, line) || regex_finds(r"^\s*(public|private|protected|static|final|abstract|synchronized|\s)+[\w<>\[\],.\s]+\s+\w+\s*\([^;]*\)\s*\{?\s*$"@, ""@, line)))),
        lang == "rb"@ ==> (line_is_row(line, lang_sources(lang)->0, lang_flags(lang)) <==> (
            !all_ws(line) && utf16_units(line) <= 400 && (regex_finds(r"^\s*(def|class|module)\s+"@, ""@, line)))),
        lang == "php"@ ==> (line_is_row(line, lang_sources(lang)->0, lang_flags(lang)) <==> (
            !all_ws(line) && utf16_units(line) <= 400 && (regex_finds(r"^\s*(abstract\s+|final\s+)?(class|interface|trait)\s+\w+"@, ""@, line) || regex_finds(r"^\s*(public|private|protected|static|\s)*function\s+\w+"@, ""@, line)))),
        lang == "sh"@ ==> (line_is_row(line, lang_sources(lang)->0, lang_flags(lang)) <==> (
            !all_ws(line) && utf16_units(line) <= 400 && (regex_finds(r"^\s*(function\s+)?[\w-]+\s*\(\)\s*\{"@, ""@, line)))),
        lang == "sql"@ ==> (line_is_row(line, lang_sources(lang)->0, lang_flags(lang)) <==> (
            !all_ws(line) && utf16_units(line) <= 400 && (regex_finds(r"^\s*(CREATE|ALTER|DROP)\s+"@, "i"@, line) || regex_finds(r"^\s*(WITH|SELECT|INSERT|UPDATE|DELETE)\s"@, "i"@, line)))),
        lang == "swift"@ ==> (line_is_row(line, lang_sources(lang)->0, lang_flags(lang)) <==> (
            !all_ws(line) && utf16_units(line) <= 400 && (regex_finds(r"^\s*(public\s+|private\s+|internal\s+|open\s+|fileprivate\s+)?(final\s+)?(func|class|struct|enum|protocol|extension|var|let)\s+\w+"@, ""@, line)))),
        lang == "c"@ ==> (line_is_row(line, lang_sources(lang)->0, lang_flags(lang)) <==> (
            !all_ws(line) && utf16_units(line) <= 400 && (regex_finds(r"^\s*[\w*\s]+\s+\**\w+\s*\([^;]*\)\s*\{?\s*$"@, ""@, line) || regex_finds(r"^\s*(typedef|struct|enum|union)\s+\w*"@, ""@, line) || regex_finds(r"^\s*#(define|include)\s"@, ""@, line)))),
{
    reveal_strlit("js");
    reveal_strlit("py");
    reveal_strlit("go");
    reveal_strlit("rs");
    reveal_strlit("java");
    reveal_strlit("rb");
    reveal_strlit("php");
    reveal_strlit("sh");
    reveal_strlit("sql");
    reveal_strlit("swift");
    reveal_strlit("c");
    reveal_strlit("i");
    assert("js"@[0] != "py"@[0]);
    assert("js"@[0] != "go"@[0]);
    assert("js"@[0] != "rs"@[0]);
    assert("js"@.len() != "java"@.len());
    assert("js"@[0] != "rb"@[0]);
    assert("js"@.len() != "php"@.len());
    assert("js"@[0] != "sh"@[0]);
    assert("js"@.len() != "sql"@.len());
    assert("js"@.len() != "swift"@.len());
    assert("js"@.len() != "c"@.len());
    assert("py"@[0] != "go"@[0]);
    assert("py"@[0] != "rs"@[0]);
    assert("py"@.len() != "java"@.len());
    assert("py"@[0] != "rb"@[0]);
    assert("py"@.len() != "php"@.len());
    assert("py"@[0] != "sh"@[0]);
    assert("py"@.len() != "sql"@.len());
    assert("py"@.len() != "swift"@.len());
    assert("py"@.len() != "c"@.len());
    assert("go"@[0] != "rs"@[0]);
    assert("go"@.len() != "java"@.len());
    assert("go"@[0] != "rb"@[0]);
    assert("go"@.len() != "php"@.len());
    assert("go"@[0] != "sh"@[0]);
    assert("go"@.len() != "sql"@.len());
    assert("go"@.len() != "swift"@.len());
    assert("go"@.len() != "c"@.len());
    assert("rs"@.len() != "java"@.len());
    assert("rs"@[1] != "rb"@[1]);
    assert("rs"@.len() != "php"@.len());
    assert("rs"@[0] != "sh"@[0]);
    assert("rs"@.len() != "sql"@.len());
    assert("rs"@.len() != "swift"@.len());
    assert("rs"@.len() != "c"@.len());
    assert("java"@.len() != "rb"@.len());
    assert("java"@.len() != "php"@.len());
    assert("java"@.len() != "sh"@.len());
    assert("java"@.len() != "sql"@.len());
    assert("java"@.len() != "swift"@.len());
    assert("java"@.len() != "c"@.len());
    assert("rb"@.len() != "php"@.len());
    assert("rb"@[0] != "sh"@[0]);
    assert("rb"@.len() != "sql"@.len());
    assert("rb"@.len() != "swift"@.len());
    assert("rb"@.len() != "c"@.len());
    assert("php"@.len() != "sh"@.len());
    assert("php"@[0] != "sql"@[0]);
    assert("php"@.len() != "swift"@.len());
    assert("php"@.len() != "c"@.len());
    assert("sh"@.len() != "sql"@.len());
    assert("sh"@.len() != "swift"@.len());
    assert("sh"@.len() != "c"@.len());
    assert("sql"@.len() != "swift"@.len());
    assert("sql"@.len() != "c"@.len());
    assert("swift"@.len() != "c"@.len());
    if lang == "js"@ {
        let srcs = lang_sources(lang)->0;
        let flags = lang_flags(lang);
        assert(flags == ""@);
        assert(srcs.len() == 5 && srcs[0] == r"^\s*(export\s+)?(default\s+)?(async\s+)?function\s*\*?\s*[\w$]+"@ && srcs[1] == r"^\s*(export\s+)?(abstract\s+)?class\s+[\w$]+"@ && srcs[2] == r"^\s*(export\s+)?(const|let|var)\s+[\w$]+\s*=\s*(async\s*)?(\([^)]*\)|[\w$]+)\s*=>"@ && srcs[3] == r"^\s*(export\s+)?(interface|type|enum)\s+[\w$]+"@ && srcs[4] == "^\\s*(describe|it|test|suite|context|bench)(\\.\\w+)?\\s*(\\([^)]*\\)\\s*)?\\(\\s*[`'\"]"@);
        if exists|j: int| 0 <= j < srcs.len() && regex_finds(#[trigger] srcs[j], flags, line) {
            let j = choose|j: int| 0 <= j < srcs.len() && regex_finds(#[trigger] srcs[j], flags, line);
            assert(j == 0 || j == 1 || j == 2 || j == 3 || j == 4);
        }
        if regex_finds(r"^\s*(export\s+)?(default\s+)?(async\s+)?function\s*\*?\s*[\w$]+"@, ""@, line) {
            assert(regex_finds(srcs[0], flags, line));
        }
        if regex_finds(r"^\s*(export\s+)?(abstract\s+)?class\s+[\w$]+"@, ""@, line) {
            assert(regex_finds(srcs[1], flags, line));
        }
        if regex_finds(r"^\s*(export\s+)?(const|let|var)\s+[\w$]+\s*=\s*(async\s*)?(\([^)]*\)|[\w$]+)\s*=>"@, ""@, line) {
            assert(regex_finds(srcs[2], flags, line));
        }
        if regex_finds(r"^\s*(export\s+)?(interface|type|enum)\s+[\w$]+"@, ""@, line) {
            assert(regex_finds(srcs[3], flags, line));
        }
        if regex_finds("^\\s*(describe|it|test|suite|context|bench)(\\.\\w+)?\\s*(\\([^)]*\\)\\s*)?\\(\\s*[`'\"]"@, ""@, line) {
            assert(regex_finds(srcs[4], flags, line));
        }
    }
    if lang == "py"@ {
        let srcs = lang_sources(lang)->0;
        let flags = lang_flags(lang);
        assert(flags == ""@);
        assert(srcs.len() == 3 && srcs[0] == r"^\s*(async\s+)?def\s+\w+"@ && srcs[1] == r"^\s*class\s+\w+"@ && srcs[2] == r"^\s*@\w[\w.]*"@);
        if exists|j: int| 0 <= j < srcs.len() && regex_finds(#[trigger] srcs[j], flags, line) {
            let j = choose|j: int| 0 <= j < srcs.len() && regex_finds(#[trigger] srcs[j], flags, line);
            assert(j == 0 || j == 1 || j == 2);
        }
        if regex_finds(r"^\s*(async\s+)?def\s+\w+"@, ""@, line) {
            assert(regex_finds(srcs[0], flags, line));
        }
        if regex_finds(r"^\s*class\s+\w+"@, ""@, line) {
            assert(regex_finds(srcs[1], flags, line));
        }
        if regex_finds(r"^\s*@\w[\w.]*"@, ""@, line) {
            assert(regex_finds(srcs[2], flags, line));
        }
    }
    if lang == "go"@ {
        let srcs = lang_sources(lang)->0;
        let flags = lang_flags(lang);
        assert(flags == ""@);
        assert(srcs.len() == 3 && srcs[0] == r"^\s*func\s+"@ && srcs[1] == r"^\s*type\s+\w+"@ && srcs[2] == r"^\s*(var|const)\s*\("@);
        if exists|j: int| 0 <= j < srcs.len() && regex_finds(#[trigger] srcs[j], flags, line) {
            let j = choose|j: int| 0 <= j < srcs.len() && regex_finds(#[trigger] srcs[j], flags, line);
            assert(j == 0 || j == 1 || j == 2);
        }
        if regex_finds(r"^\s*func\s+"@, ""@, line) {
            assert(regex_finds(srcs[0], flags, line));
        }
        if regex_finds(r"^\s*type\s+\w+"@, ""@, line) {
            assert(regex_finds(srcs[1], flags, line));
        }
        if regex_finds(r"^\s*(var|const)\s*\("@, ""@, line) {
            assert(regex_finds(srcs[2], flags, line));
        }
    }
    if lang == "rs"@ {
        let srcs = lang_sources(lang)->0;
        let flags = lang_flags(lang);
        assert(flags == ""@);
        assert(srcs.len() == 3 && srcs[0] == r"^\s*(pub\s+)?(async\s+)?fn\s+\w+"@ && srcs[1] == r"^\s*(pub\s+)?(struct|enum|trait|impl|mod)\s"@ && srcs[2] == r"^\s*(pub\s+)?type\s+\w+"@);
        if exists|j: int| 0 <= j < srcs.len() && regex_finds(#[trigger] srcs[j], flags, line) {
            let j = choose|j: int| 0 <= j < srcs.len() && regex_finds(#[trigger] srcs[j], flags, line);
            assert(j == 0 || j == 1 || j == 2);
        }
        if regex_finds(r"^\s*(pub\s+)?(async\s+)?fn\s+\w+"@, ""@, line) {
            assert(regex_finds(srcs[0], flags, line));
        }
        if regex_finds(r"^\s*(pub\s+)?(struct|enum|trait|impl|mod)\s"@, ""@, line) {
            assert(regex_finds(srcs[1], flags, line));
        }
        if regex_finds(r"^\s*(pub\s+)?type\s+\w+"@, ""@, line) {
            assert(regex_finds(srcs[2], flags, line));
        }
    }
    if lang == "java"@ {
        let srcs = lang_sources(lang)->0;
        let flags = lang_flags(lang);
        assert(flags == ""@);
        assert(srcs.len() == 2 && srcs[0] == r"^\s*(public|private|protected|static|final|abstract|\s)*(class|interface|enum|record)\s+\w+"@ && srcs[1] == r"^\s*(public|private|protected|static|final|abstract|synchronized|\s)+[\w<>\[\],.\s]+\s+\w+\s*\([^;]*\)\s*\{?\s*$"@);
        if exists|j: int| 0 <= j < srcs.len() && regex_finds(#[trigger] srcs[j], flags, line) {
            let j = choose|j: int| 0 <= j < srcs.len() && regex_finds(#[trigger] srcs[j], flags, line);
            assert(j == 0 || j == 1);
        }
        if regex_finds(r"^\s*(public|private|protected|static|final|abstract|\s)*(class|interface|enum|record)\s+\w+"@, ""@, line) {
            assert(regex_finds(srcs[0], flags, line));
        }
        if regex_finds(r"^\s*(public|private|protected|static|final|abstract|synchronized|\s)+[\w<>\[\],.\s]+\s+\w+\s*\([^;]*\)\s*\{?\s*$"@, ""@, line) {
            assert(regex_finds(srcs[1], flags, line));
        }
    }
    if lang == "rb"@ {
        let srcs = lang_sources(lang)->0;
        let flags = lang_flags(lang);
        assert(flags == ""@);
        assert(srcs.len() == 1 && srcs[0] == r"^\s*(def|class|module)\s+"@);
        if exists|j: int| 0 <= j < srcs.len() && regex_finds(#[trigger] srcs[j], flags, line) {
            let j = choose|j: int| 0 <= j < srcs.len() && regex_finds(#[trigger] srcs[j], flags, line);
            assert(j == 0);
        }
        if regex_finds(r"^\s*(def|class|module)\s+"@, ""@, line) {
            assert(regex_finds(srcs[0], flags, line));
        }
    }
    if lang == "php"@ {
        let srcs = lang_sources(lang)->0;
        let flags = lang_flags(lang);
        assert(flags == ""@);
        assert(srcs.len() == 2 && srcs[0] == r"^\s*(abstract\s+|final\s+)?(class|interface|trait)\s+\w+"@ && srcs[1] == r"^\s*(public|private|protected|static|\s)*function\s+\w+"@);
        if exists|j: int| 0 <= j < srcs.len() && regex_finds(#[trigger] srcs[j], flags, line) {
            let j = choose|j: int| 0 <= j < srcs.len() && regex_finds(#[trigger] srcs[j], flags, line);
            assert(j == 0 || j == 1);
        }
        if regex_finds(r"^\s*(abstract\s+|final\s+)?(class|interface|trait)\s+\w+"@, ""@, line) {
            assert(regex_finds(srcs[0], flags, line));
        }
        if regex_finds(r"^\s*(public|private|protected|static|\s)*function\s+\w+"@, ""@, line) {
            assert(regex_finds(srcs[1], flags, line));
        }
    }
    if lang == "sh"@ {
        let srcs = lang_sources(lang)->0;
        let flags = lang_flags(lang);
        assert(flags == ""@);
        assert(srcs.len() == 1 && srcs[0] == r"^\s*(function\s+)?[\w-]+\s*\(\)\s*\{"@);
        if exists|j: int| 0 <= j < srcs.len() && regex_finds(#[trigger] srcs[j], flags, line) {
            let j = choose|j: int| 0 <= j < srcs.len() && regex_finds(#[trigger] srcs[j], flags, line);
            assert(j == 0);
        }
        if regex_finds(r"^\s*(function\s+)?[\w-]+\s*\(\)\s*\{"@, ""@, line) {
            assert(regex_finds(srcs[0], flags, line));
        }
    }
    if lang == "sql"@ {
        let srcs = lang_sources(lang)->0;
        let flags = lang_flags(lang);
        assert(flags == "i"@);
        assert(srcs.len() == 2 && srcs[0] == r"^\s*(CREATE|ALTER|DROP)\s+"@ && srcs[1] == r"^\s*(WITH|SELECT|INSERT|UPDATE|DELETE)\s"@);
        if exists|j: int| 0 <= j < srcs.len() && regex_finds(#[trigger] srcs[j], flags, line) {
            let j = choose|j: int| 0 <= j < srcs.len() && regex_finds(#[trigger] srcs[j], flags, line);
            assert(j == 0 || j == 1);
        }
        if regex_finds(r"^\s*(CREATE|ALTER|DROP)\s+"@, "i"@, line) {
            assert(regex_finds(srcs[0], flags, line));
        }
        if regex_finds(r"^\s*(WITH|SELECT|INSERT|UPDATE|DELETE)\s"@, "i"@, line) {
            assert(regex_finds(srcs[1], flags, line));
        }
    }
    if lang == "swift"@ {
        let srcs = lang_sources(lang)->0;
        let flags = lang_flags(lang);
        assert(flags == ""@);
        assert(srcs.len() == 1 && srcs[0] == r"^\s*(public\s+|private\s+|internal\s+|open\s+|fileprivate\s+)?(final\s+)?(func|class|struct|enum|protocol|extension|var|let)\s+\w+"@);
        if exists|j: int| 0 <= j < srcs.len() && regex_finds(#[trigger] srcs[j], flags, line) {
            let j = choose|j: int| 0 <= j < srcs.len() && regex_finds(#[trigger] srcs[j], flags, line);
            assert(j == 0);
        }
        if regex_finds(r"^\s*(public\s+|private\s+|internal\s+|open\s+|fileprivate\s+)?(final\s+)?(func|class|struct|enum|protocol|extension|var|let)\s+\w+"@, ""@, line) {
            assert(regex_finds(srcs[0], flags, line));
        }
    }
    if lang == "c"@ {
        let srcs = lang_sources(lang)->0;
        let flags = lang_flags(lang);
        assert(flags == ""@);
        assert(srcs.len() == 3 && srcs[0] == r"^\s*[\w*\s]+\s+\**\w+\s*\([^;]*\)\s*\{?\s*$"@ && srcs[1] == r"^\s*(typedef|struct|enum|union)\s+\w*"@ && srcs[2] == r"^\s*#(define|include)\s"@);
        if exists|j: int| 0 <= j < srcs.len() && regex_finds(#[trigger] srcs[j], flags, line) {
            let j = choose|j: int| 0 <= j < srcs.len() && regex_finds(#[trigger] srcs[j], flags, line);
            assert(j == 0 || j == 1 || j == 2);
        }
        if regex_finds(r"^\s*[\w*\s]+\s+\**\w+\s*\([^;]*\)\s*\{?\s*$"@, ""@, line) {
            assert(regex_finds(srcs[0], flags, line));
        }
        if regex_finds(r"^\s*(typedef|struct|enum|union)\s+\w*"@, ""@, line) {
            assert(regex_finds(srcs[1], flags, line));
        }
        if regex_finds(r"^\s*#(define|include)\s"@, ""@, line) {
            assert(regex_finds(srcs[2], flags, line));
        }
    }
}

/// The language family of a path by its lowercased extension: the 25
/// source extensions map to their families, and any other extension (or
/// none) to no family.
pub proof fn source_extensions_and_their_families(p: Seq<char>)
    ensures
        lowercase(ext_name(p)) == ".js"@ ==> lang_of(p) == Some("js"@),
        lowercase(ext_name(p)) == ".jsx"@ ==> lang_of(p) == Some("js"@),
        lowercase(ext_name(p)) == ".mjs"@ ==> lang_of(p) == Some("js"@),
        lowercase(ext_name(p)) == ".cjs"@ ==> lang_of(p) == Some("js"@),
        lowercase(ext_name(p)) == ".ts"@ ==> lang_of(p) == Some("js"@),
        lowercase(ext_name(p)) == ".tsx"@ ==> lang_of(p) == Some("js"@),
        lowercase(ext_name(p)) == ".py"@ ==> lang_of(p) == Some("py"@),
        lowercase(ext_name(p)) == ".go"@ ==> lang_of(p) == Some("go"@),
        lowercase(ext_name(p)) == ".rs"@ ==> lang_of(p) == Some("rs"@),
        lowercase(ext_name(p)) == ".java"@ ==> lang_of(p) == Some("java"@),
        lowercase(ext_name(p)) == ".kt"@ ==> lang_of(p) == Some("java"@),
        lowercase(ext_name(p)) == ".scala"@ ==> lang_of(p) == Some("java"@),
        lowercase(ext_name(p)) == ".cs"@ ==> lang_of(p) == Some("java"@),
        lowercase(ext_name(p)) == ".rb"@ ==> lang_of(p) == Some("rb"@),
        lowercase(ext_name(p)) == ".php"@ ==> lang_of(p) == Some("php"@),
        lowercase(ext_name(p)) == ".sh"@ ==> lang_of(p) == Some("sh"@),
        lowercase(ext_name(p)) == ".bash"@ ==> lang_of(p) == Some("sh"@),
        lowercase(ext_name(p)) == ".zsh"@ ==> lang_of(p) == Some("sh"@),
        lowercase(ext_name(p)) == ".sql"@ ==> lang_of(p) == Some("sql"@),
        lowercase(ext_name(p)) == ".swift"@ ==> lang_of(p) == Some("swift"@),
        lowercase(ext_name(p)) == ".c"@ ==> lang_of(p) == Some("c"@),
        lowercase(ext_name(p)) == ".h"@ ==> lang_of(p) == Some("c"@),
        lowercase(ext_name(p)) == ".cc"@ ==> lang_of(p) == Some("c"@),
        lowercase(ext_name(p)) == ".cpp"@ ==> lang_of(p) == Some("c"@),
        lowercase(ext_name(p)) == ".hpp"@ ==> lang_of(p) == Some("c"@),
        ({
            let e = lowercase(ext_name(p));
            e != ".js"@ && e != ".jsx"@ && e != ".mjs"@ && e != ".cjs"@ && e != ".ts"@ && e != ".tsx"@ && e != ".py"@ && e != ".go"@ && e != ".rs"@ && e != ".java"@ && e != ".kt"@ && e != ".scala"@ && e != ".cs"@ && e != ".rb"@ && e != ".php"@ && e != ".sh"@ && e != ".bash"@ && e != ".zsh"@ && e != ".sql"@ && e != ".swift"@ && e != ".c"@ && e != ".h"@ && e != ".cc"@ && e != ".cpp"@ && e != ".hpp"@
        }) ==> lang_of(p) is None,
{
    reveal_strlit(".js");
    reveal_strlit(".jsx");
    reveal_strlit(".mjs");
    reveal_strlit(".cjs");
    reveal_strlit(".ts");
    reveal_strlit(".tsx");
    reveal_strlit(".py");
    reveal_strlit(".go");
    reveal_strlit(".rs");
    reveal_strlit(".java");
    reveal_strlit(".kt");
    reveal_strlit(".scala");
    reveal_strlit(".cs");
    reveal_strlit(".rb");
    reveal_strlit(".php");
    reveal_strlit(".sh");
    reveal_strlit(".bash");
    reveal_strlit(".zsh");
    reveal_strlit(".sql");
    reveal_strlit(".swift");
    reveal_strlit(".c");
    reveal_strlit(".h");
    reveal_strlit(".cc");
    reveal_strlit(".cpp");
    reveal_strlit(".hpp");
    assert(".js"@[1] != ".ts"@[1]);
    assert(".js"@[1] != ".py"@[1]);
    assert(".js"@[1] != ".go"@[1]);
    assert(".js"@[1] != ".rs"@[1]);
    assert(".js"@[1] != ".kt"@[1]);
    assert(".js"@[1] != ".cs"@[1]);
    assert(".js"@[1] != ".rb"@[1]);
    assert(".js"@[1] != ".sh"@[1]);
    assert(".js"@[1] != ".cc"@[1]);
    assert(".jsx"@[1] != ".mjs"@[1]);
    assert(".jsx"@[1] != ".cjs"@[1]);
    assert(".jsx"@[1] != ".tsx"@[1]);
    assert(".jsx"@[1] != ".php"@[1]);
    assert(".jsx"@[1] != ".zsh"@[1]);
    assert(".jsx"@[1] != ".sql"@[1]);
    assert(".jsx"@[1] != ".cpp"@[1]);
    assert(".jsx"@[1] != ".hpp"@[1]);
    assert(".mjs"@[1] != ".cjs"@[1]);
    assert(".mjs"@[1] != ".tsx"@[1]);
    assert(".mjs"@[1] != ".php"@[1]);
    assert(".mjs"@[1] != ".zsh"@[1]);
    assert(".mjs"@[1] != ".sql"@[1]);
    assert(".mjs"@[1] != ".cpp"@[1]);
    assert(".mjs"@[1] != ".hpp"@[1]);
    assert(".cjs"@[1] != ".tsx"@[1]);
    assert(".cjs"@[1] != ".php"@[1]);
    assert(".cjs"@[1] != ".zsh"@[1]);
    assert(".cjs"@[1] != ".sql"@[1]);
    assert(".cjs"@[2] != ".cpp"@[2]);
    assert(".cjs"@[1] != ".hpp"@[1]);
    assert(".ts"@[1] != ".py"@[1]);
    assert(".ts"@[1] != ".go"@[1]);
    assert(".ts"@[1] != ".rs"@[1]);
    assert(".ts"@[1] != ".kt"@[1]);
    assert(".ts"@[1] != ".cs"@[1]);
    assert(".ts"@[1] != ".rb"@[1]);
    assert(".ts"@[1] != ".sh"@[1]);
    assert(".ts"@[1] != ".cc"@[1]);
    assert(".tsx"@[1] != ".php"@[1]);
    assert(".tsx"@[1] != ".zsh"@[1]);
    assert(".tsx"@[1] != ".sql"@[1]);
    assert(".tsx"@[1] != ".cpp"@[1]);
    assert(".tsx"@[1] != ".hpp"@[1]);
    assert(".py"@[1] != ".go"@[1]);
    assert(".py"@[1] != ".rs"@[1]);
    assert(".py"@[1] != ".kt"@[1]);
    assert(".py"@[1] != ".cs"@[1]);
    assert(".py"@[1] != ".rb"@[1]);
    assert(".py"@[1] != ".sh"@[1]);
    assert(".py"@[1] != ".cc"@[1]);
    assert(".go"@[1] != ".rs"@[1]);
    assert(".go"@[1] != ".kt"@[1]);
    assert(".go"@[1] != ".cs"@[1]);
    assert(".go"@[1] != ".rb"@[1]);
    assert(".go"@[1] != ".sh"@[1]);
    assert(".go"@[1] != ".cc"@[1]);
    assert(".rs"@[1] != ".kt"@[1]);
    assert(".rs"@[1] != ".cs"@[1]);
    assert(".rs"@[2] != ".rb"@[2]);
    assert(".rs"@[1] != ".sh"@[1]);
    assert(".rs"@[1] != ".cc"@[1]);
    assert(".java"@[1] != ".bash"@[1]);
    assert(".kt"@[1] != ".cs"@[1]);
    assert(".kt"@[1] != ".rb"@[1]);
    assert(".kt"@[1] != ".sh"@[1]);
    assert(".kt"@[1] != ".cc"@[1]);
    assert(".scala"@[2] != ".swift"@[2]);
    assert(".cs"@[1] != ".rb"@[1]);
    assert(".cs"@[1] != ".sh"@[1]);
    assert(".cs"@[2] != ".cc"@[2]);
    assert(".rb"@[1] != ".sh"@[1]);
    assert(".rb"@[1] != ".cc"@[1]);
    assert(".php"@[1] != ".zsh"@[1]);
    assert(".php"@[1] != ".sql"@[1]);
    assert(".php"@[1] != ".cpp"@[1]);
    assert(".php"@[1] != ".hpp"@[1]);
    assert(".sh"@[1] != ".cc"@[1]);
    assert(".zsh"@[1] != ".sql"@[1]);
    assert(".zsh"@[1] != ".cpp"@[1]);
    assert(".zsh"@[1] != ".hpp"@[1]);
    assert(".sql"@[1] != ".cpp"@[1]);
    assert(".sql"@[1] != ".hpp"@[1]);
    assert(".c"@[1] != ".h"@[1]);
    assert(".cpp"@[1] != ".hpp"@[1]);
}

/// The density gate: an outline covers a file of `lines` lines when it has
/// at least 4 rows and at least one row per 80 lines, rounded down.
pub proof fn covers_means_four_rows_and_one_per_80_lines(lines: nat, rows: nat)
    ensures
        covers_spec(lines, rows) <==> (rows >= 4 && rows * 80 + 80 > lines),
{
    assert(rows * 80 + 80 > lines <==> rows >= lines / 80) by (nonlinear_arith);
}

} // verus!
