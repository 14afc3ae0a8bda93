//! Character-level helpers shared by the outline and rule code: the
//! ECMAScript whitespace class, trimming, splitting, UTF-16 lengths and
//! decimal rendering.
use vstd::prelude::*;
use vstd::string::StringExecFns;

verus! {

// ------------------------------------------------------------------ specs

/// ECMAScript WhiteSpace + LineTerminator: the set that `String.prototype.trim`
/// and the regex class `\s` use.
pub open spec fn js_ws(c: char) -> bool {
    ||| c == '\u{9}'
    ||| c == '\u{a}'
    ||| c == '\u{b}'
    ||| c == '\u{c}'
    ||| c == '\u{d}'
    ||| c == '\u{20}'
    ||| c == '\u{a0}'
    ||| c == '\u{1680}'
    ||| ('\u{2000}' <= c && c <= '\u{200a}')
    ||| c == '\u{2028}'
    ||| c == '\u{2029}'
    ||| c == '\u{202f}'
    ||| c == '\u{205f}'
    ||| c == '\u{3000}'
    ||| c == '\u{feff}'
}

/// ECMAScript LineTerminator: the characters that `.` does not match.
pub open spec fn js_line_terminator(c: char) -> bool {
    c == '\n' || c == '\r' || c == '\u{2028}' || c == '\u{2029}'
}

/// `s` with its leading JS whitespace removed.
pub open spec fn trim_start(s: Seq<char>) -> Seq<char>
    decreases s.len(),
{
    if s.len() > 0 && js_ws(s[0]) {
        trim_start(s.drop_first())
    } else {
        s
    }
}

/// `s` with its trailing JS whitespace removed.
pub open spec fn trim_end(s: Seq<char>) -> Seq<char>
    decreases s.len(),
{
    if s.len() > 0 && js_ws(s.last()) {
        trim_end(s.drop_last())
    } else {
        s
    }
}

/// JS `String.prototype.trim`.
pub open spec fn js_trim(s: Seq<char>) -> Seq<char> {
    trim_end(trim_start(s))
}

/// Every character of `s` is JS whitespace (true of the empty sequence).
pub open spec fn all_ws(s: Seq<char>) -> bool {
    forall|i: int| 0 <= i < s.len() ==> js_ws(#[trigger] s[i])
}

/// JS `s.split(sep)` for a one-character separator: never empty, and one
/// piece more than there are separators.
pub open spec fn split_on(s: Seq<char>, sep: char) -> Seq<Seq<char>>
    decreases s.len(),
{
    if s.len() == 0 {
        seq![Seq::<char>::empty()]
    } else {
        let r = split_on(s.drop_last(), sep);
        if s.last() == sep {
            r.push(Seq::<char>::empty())
        } else {
            r.update(r.len() - 1, r.last().push(s.last()))
        }
    }
}

/// Number of occurrences of `c` in `s`.
pub open spec fn count_char(s: Seq<char>, c: char) -> nat
    decreases s.len(),
{
    if s.len() == 0 {
        0
    } else {
        count_char(s.drop_last(), c) + if s.last() == c { 1nat } else { 0nat }
    }
}

/// UTF-16 code units of one character.
pub open spec fn utf16_width(c: char) -> nat {
    if (c as u32) >= 0x10000 { 2 } else { 1 }
}

/// JS `String.length`: UTF-16 code units.
pub open spec fn utf16_units(s: Seq<char>) -> nat
    decreases s.len(),
{
    if s.len() == 0 {
        0
    } else {
        utf16_units(s.drop_last()) + utf16_width(s.last())
    }
}

/// The longest prefix of `s` whose UTF-16 length is at most `max`: JS
/// `.slice(0, max)`, except that a character that would straddle the cut is
/// dropped whole.
pub open spec fn utf16_prefix(s: Seq<char>, max: nat) -> Seq<char>
    decreases s.len(),
{
    if s.len() == 0 {
        s
    } else if utf16_width(s[0]) > max {
        Seq::<char>::empty()
    } else {
        seq![s[0]] + utf16_prefix(s.drop_first(), (max - utf16_width(s[0])) as nat)
    }
}

/// The ASCII digit for `d < 10`.
pub open spec fn digit_char(d: nat) -> char {
    if d == 0 {
        '0'
    } else if d == 1 {
        '1'
    } else if d == 2 {
        '2'
    } else if d == 3 {
        '3'
    } else if d == 4 {
        '4'
    } else if d == 5 {
        '5'
    } else if d == 6 {
        '6'
    } else if d == 7 {
        '7'
    } else if d == 8 {
        '8'
    } else {
        '9'
    }
}

/// The decimal rendering of `n`, without leading zeros.
pub open spec fn decimal(n: nat) -> Seq<char>
    decreases n,
{
    if n < 10 {
        seq![digit_char(n)]
    } else {
        decimal(n / 10).push(digit_char(n % 10))
    }
}

/// Sequences joined with a separator between neighbours.
pub open spec fn join(parts: Seq<Seq<char>>, sep: Seq<char>) -> Seq<char>
    decreases parts.len(),
{
    if parts.len() == 0 {
        Seq::<char>::empty()
    } else if parts.len() == 1 {
        parts[0]
    } else {
        join(parts.drop_last(), sep) + sep + parts.last()
    }
}

/// `p` without its trailing '/' characters.
pub open spec fn strip_trailing_slashes(p: Seq<char>) -> Seq<char>
    decreases p.len(),
{
    if p.len() > 0 && p.last() == '/' {
        strip_trailing_slashes(p.drop_last())
    } else {
        p
    }
}

/// The characters after the last '/' of `q`.
pub open spec fn last_segment(q: Seq<char>) -> Seq<char>
    decreases q.len(),
{
    if q.len() == 0 || q.last() == '/' {
        Seq::<char>::empty()
    } else {
        last_segment(q.drop_last()).push(q.last())
    }
}

/// Node's `path.posix.basename`: the last path component, trailing slashes
/// ignored; empty for "" and "/".
pub open spec fn base_name(p: Seq<char>) -> Seq<char> {
    last_segment(strip_trailing_slashes(p))
}

// ----------------------------------------------------------------- lemmas

pub proof fn lemma_split_on_len(s: Seq<char>, sep: char)
    ensures
        split_on(s, sep).len() == count_char(s, sep) + 1,
    decreases s.len(),
{
    if s.len() > 0 {
        lemma_split_on_len(s.drop_last(), sep);
    }
}

proof fn lemma_trim_start_at(s: Seq<char>, i: int)
    requires
        0 <= i <= s.len(),
        forall|k: int| 0 <= k < i ==> js_ws(#[trigger] s[k]),
        i == s.len() || !js_ws(s[i]),
    ensures
        trim_start(s) == s.skip(i),
    decreases i,
{
    if i == 0 {
        assert(s.skip(0) =~= s);
    } else {
        let t = s.drop_first();
        assert forall|k: int| 0 <= k < i - 1 implies js_ws(#[trigger] t[k]) by {
            assert(t[k] == s[k + 1]);
        }
        if i - 1 < t.len() {
            assert(t[i - 1] == s[i]);
        }
        lemma_trim_start_at(t, i - 1);
        assert(t.skip(i - 1) =~= s.skip(i));
    }
}

proof fn lemma_trim_end_at(s: Seq<char>, j: int)
    requires
        0 <= j <= s.len(),
        forall|k: int| j <= k < s.len() ==> js_ws(#[trigger] s[k]),
        j == 0 || !js_ws(s[j - 1]),
    ensures
        trim_end(s) == s.take(j),
    decreases s.len() - j,
{
    if j == s.len() {
        assert(s.take(j) =~= s);
    } else {
        let t = s.drop_last();
        assert forall|k: int| j <= k < t.len() implies js_ws(#[trigger] t[k]) by {
            assert(t[k] == s[k]);
        }
        if j > 0 {
            assert(t[j - 1] == s[j - 1]);
        }
        lemma_trim_end_at(t, j);
        assert(t.take(j) =~= s.take(j));
    }
}

proof fn lemma_strip_trailing_at(p: Seq<char>, e: int)
    requires
        0 <= e <= p.len(),
        forall|k: int| e <= k < p.len() ==> #[trigger] p[k] == '/',
        e == 0 || p[e - 1] != '/',
    ensures
        strip_trailing_slashes(p) == p.take(e),
    decreases p.len() - e,
{
    if e == p.len() {
        assert(p.take(e) =~= p);
    } else {
        let t = p.drop_last();
        assert forall|k: int| e <= k < t.len() implies #[trigger] t[k] == '/' by {
            assert(t[k] == p[k]);
        }
        if e > 0 {
            assert(t[e - 1] == p[e - 1]);
        }
        lemma_strip_trailing_at(t, e);
        assert(t.take(e) =~= p.take(e));
    }
}

proof fn lemma_last_segment_at(q: Seq<char>, s: int)
    requires
        0 <= s <= q.len(),
        forall|k: int| s <= k < q.len() ==> #[trigger] q[k] != '/',
        s == 0 || q[s - 1] == '/',
    ensures
        last_segment(q) == q.skip(s),
    decreases q.len() - s,
{
    if s == q.len() {
        assert(q.skip(s) =~= Seq::<char>::empty());
        if q.len() > 0 {
            assert(q.last() == '/');
        }
    } else {
        let t = q.drop_last();
        assert forall|k: int| s <= k < t.len() implies #[trigger] t[k] != '/' by {
            assert(t[k] == q[k]);
        }
        if s > 0 {
            assert(t[s - 1] == q[s - 1]);
        }
        assert(q[q.len() - 1] != '/');
        lemma_last_segment_at(t, s);
        assert(t.skip(s).push(q.last()) =~= q.skip(s));
    }
}

// ------------------------------------------------------------- exec helpers

/// Appends one character to a `String`.
/// Wraps `String::push`, which std documents as appending the given char
/// to the end of the string.
#[verifier::external_body]
pub(crate) fn push_char(s: &mut String, c: char)
    ensures
        final(s)@ == old(s)@.push(c),
{
    s.push(c);
}

/// Appends a string slice to a `String`.
pub fn push_str(s: &mut String, t: &str)
    ensures
        final(s)@ == old(s)@ + t@,
{
    s.append(t);
}

/// The characters of a string slice, in order.
pub fn chars_of(s: &str) -> (v: Vec<char>)
    ensures
        v@ == s@,
{
    let mut v: Vec<char> = Vec::new();
    for c in it: s.chars()
        invariant
            v@ == it.seq().take(it.index() as int),
    {
        v.push(c);
    }
    v
}

/// The string made of `v[lo..hi]`.
pub fn string_of_range(v: &Vec<char>, lo: usize, hi: usize) -> (s: String)
    requires
        lo <= hi <= v.len(),
    ensures
        s@ == v@.subrange(lo as int, hi as int),
{
    let mut s = String::new();
    let mut i = lo;
    while i < hi
        invariant
            lo <= i <= hi <= v.len(),
            s@ == v@.subrange(lo as int, i as int),
        decreases hi - i,
    {
        push_char(&mut s, v[i]);
        assert(v@.subrange(lo as int, i + 1) =~= v@.subrange(lo as int, i as int).push(v@[i as int]));
        i = i + 1;
    }
    s
}

/// The characters `v[lo..hi]`.
pub fn sub_vec(v: &Vec<char>, lo: usize, hi: usize) -> (r: Vec<char>)
    requires
        lo <= hi <= v.len(),
    ensures
        r@ == v@.subrange(lo as int, hi as int),
{
    let mut r: Vec<char> = Vec::new();
    let mut i = lo;
    while i < hi
        invariant
            lo <= i <= hi <= v.len(),
            r@ == v@.subrange(lo as int, i as int),
        decreases hi - i,
    {
        r.push(v[i]);
        assert(v@.subrange(lo as int, i + 1) =~= v@.subrange(lo as int, i as int).push(v@[i as int]));
        i = i + 1;
    }
    r
}

/// The string made of all of `v`.
pub fn string_of(v: &Vec<char>) -> (s: String)
    ensures
        s@ == v@,
{
    let s = string_of_range(v, 0, v.len());
    assert(v@.subrange(0, v@.len() as int) =~= v@);
    s
}

/// Equality of the characters of two string slices.
pub fn str_eq(a: &str, b: &str) -> (r: bool)
    ensures
        r == (a@ == b@),
{
    let x: String = a.to_owned();
    let y: String = b.to_owned();
    x == y
}

/// JS whitespace test.
pub fn is_js_ws(c: char) -> (b: bool)
    ensures
        b == js_ws(c),
{
    c == '\u{9}' || c == '\u{a}' || c == '\u{b}' || c == '\u{c}' || c == '\u{d}' || c == '\u{20}'
        || c == '\u{a0}' || c == '\u{1680}' || ('\u{2000}' <= c && c <= '\u{200a}') || c
        == '\u{2028}' || c == '\u{2029}' || c == '\u{202f}' || c == '\u{205f}' || c == '\u{3000}'
        || c == '\u{feff}'
}

/// Index of the first non-whitespace character (or the length).
pub fn ws_prefix_len(v: &Vec<char>, from: usize) -> (i: usize)
    requires
        from <= v.len(),
    ensures
        from <= i <= v.len(),
        forall|k: int| from <= k < i ==> js_ws(#[trigger] v@[k]),
        i == v.len() || !js_ws(v@[i as int]),
{
    let mut i = from;
    while i < v.len() && is_js_ws(v[i])
        invariant
            from <= i <= v.len(),
            forall|k: int| from <= k < i ==> js_ws(#[trigger] v@[k]),
        decreases v.len() - i,
    {
        i = i + 1;
    }
    i
}

/// One past the last non-whitespace character at or after `lo` (or `lo`).
pub fn ws_suffix_start(v: &Vec<char>, lo: usize) -> (j: usize)
    requires
        lo <= v.len(),
    ensures
        lo <= j <= v.len(),
        forall|k: int| j <= k < v.len() ==> js_ws(#[trigger] v@[k]),
        j == lo || !js_ws(v@[j - 1]),
{
    let mut j = v.len();
    while j > lo && is_js_ws(v[j - 1])
        invariant
            lo <= j <= v.len(),
            forall|k: int| j <= k < v.len() ==> js_ws(#[trigger] v@[k]),
        decreases j,
    {
        j = j - 1;
    }
    j
}

/// Bounds `(s, e)` of the last path component of `v`, as Node's `basename`
/// finds it.
pub fn base_name_bounds(v: &Vec<char>) -> (r: (usize, usize))
    ensures
        r.0 <= r.1 <= v.len(),
        base_name(v@) == v@.subrange(r.0 as int, r.1 as int),
{
    let mut e = v.len();
    while e > 0 && v[e - 1] == '/'
        invariant
            e <= v.len(),
            forall|k: int| e <= k < v.len() ==> #[trigger] v@[k] == '/',
        decreases e,
    {
        e = e - 1;
    }
    let mut s = e;
    while s > 0 && v[s - 1] != '/'
        invariant
            s <= e <= v.len(),
            forall|k: int| s <= k < e ==> #[trigger] v@[k] != '/',
        decreases s,
    {
        s = s - 1;
    }
    proof {
        lemma_strip_trailing_at(v@, e as int);
        let q = v@.take(e as int);
        assert forall|k: int| s <= k < q.len() implies #[trigger] q[k] != '/' by {
            assert(q[k] == v@[k]);
        }
        if s > 0 {
            assert(q[s - 1] == v@[s - 1]);
        }
        lemma_last_segment_at(q, s as int);
        assert(q.skip(s as int) =~= v@.subrange(s as int, e as int));
    }
    (s, e)
}

/// JS `trim` of a character sequence.
pub fn trim_chars(v: &Vec<char>) -> (s: String)
    ensures
        s@ == js_trim(v@),
{
    let i = ws_prefix_len(v, 0);
    let j = ws_suffix_start(v, i);
    proof {
        lemma_trim_start_at(v@, i as int);
        let t = v@.skip(i as int);
        assert forall|k: int| j - i <= k < t.len() implies js_ws(#[trigger] t[k]) by {
            assert(t[k] == v@[k + i]);
        }
        if j > i {
            assert(t[j - i - 1] == v@[j - 1]);
        }
        lemma_trim_end_at(t, j - i);
        assert(t.take(j - i) =~= v@.subrange(i as int, j as int));
    }
    string_of_range(v, i, j)
}

/// JS `trim` of a string slice.
pub fn js_trim_str(s: &str) -> (r: String)
    ensures
        r@ == js_trim(s@),
{
    let v = chars_of(s);
    trim_chars(&v)
}

/// JS `trimEnd` of a character sequence.
pub fn trim_end_chars(v: &Vec<char>) -> (s: String)
    ensures
        s@ == trim_end(v@),
{
    let j = ws_suffix_start(v, 0);
    proof {
        lemma_trim_end_at(v@, j as int);
        assert(v@.take(j as int) =~= v@.subrange(0, j as int));
    }
    string_of_range(v, 0, j)
}

/// Whether every character is JS whitespace.
pub fn all_ws_chars(v: &Vec<char>) -> (b: bool)
    ensures
        b == all_ws(v@),
{
    let i = ws_prefix_len(v, 0);
    i == v.len()
}

/// The character sequences held by a vector of character vectors.
pub open spec fn views_of(v: Seq<Vec<char>>) -> Seq<Seq<char>> {
    v.map_values(|x: Vec<char>| x@)
}

/// Splits on one separator character, like JS `split`.
pub fn split_chars(v: &Vec<char>, sep: char) -> (r: Vec<Vec<char>>)
    ensures
        views_of(r@) == split_on(v@, sep),
{
    let mut out: Vec<Vec<char>> = Vec::new();
    let mut cur: Vec<char> = Vec::new();
    let mut i: usize = 0;
    assert(v@.take(0) =~= Seq::<char>::empty());
    while i < v.len()
        invariant
            i <= v.len(),
            views_of(out@).push(cur@) == split_on(v@.take(i as int), sep),
        decreases v.len() - i,
    {
        let ghost before = views_of(out@).push(cur@);
        proof {
            assert(v@.take(i + 1).drop_last() =~= v@.take(i as int));
            assert(v@.take(i + 1).last() == v@[i as int]);
        }
        if v[i] == sep {
            let ghost old_out = out@;
            out.push(cur);
            cur = Vec::new();
            assert(views_of(out@) =~= views_of(old_out).push(before.last()));
            assert(views_of(out@).push(cur@) =~= before.push(Seq::<char>::empty()));
        } else {
            cur.push(v[i]);
            assert(views_of(out@).push(cur@) =~= before.update(
                before.len() - 1,
                before.last().push(v@[i as int]),
            ));
        }
        i = i + 1;
    }
    let ghost old_out = out@;
    let ghost last = cur@;
    out.push(cur);
    assert(views_of(out@) =~= views_of(old_out).push(last));
    assert(v@.take(v.len() as int) =~= v@);
    out
}

/// The ASCII digit for `d < 10`.
pub fn digit(d: u64) -> (c: char)
    requires
        d < 10,
    ensures
        c == digit_char(d as nat),
{
    if d == 0 {
        '0'
    } else if d == 1 {
        '1'
    } else if d == 2 {
        '2'
    } else if d == 3 {
        '3'
    } else if d == 4 {
        '4'
    } else if d == 5 {
        '5'
    } else if d == 6 {
        '6'
    } else if d == 7 {
        '7'
    } else if d == 8 {
        '8'
    } else {
        '9'
    }
}

/// Decimal rendering of an integer, as `format!("{}", n)` gives it.
pub fn decimal_string(n: u64) -> (s: String)
    ensures
        s@ == decimal(n as nat),
    decreases n,
{
    if n < 10 {
        let mut s = String::new();
        push_char(&mut s, digit(n));
        s
    } else {
        let mut s = decimal_string(n / 10);
        push_char(&mut s, digit(n % 10));
        s
    }
}

// ------------------------------------------------------- Rust's str::trim

/// Unicode White_Space, the characters Rust's `str::trim` strips.
pub open spec fn unicode_ws(c: char) -> bool {
    ||| ('\u{9}' <= c && c <= '\u{d}')
    ||| c == '\u{20}'
    ||| c == '\u{85}'
    ||| c == '\u{a0}'
    ||| c == '\u{1680}'
    ||| ('\u{2000}' <= c && c <= '\u{200a}')
    ||| c == '\u{2028}'
    ||| c == '\u{2029}'
    ||| c == '\u{202f}'
    ||| c == '\u{205f}'
    ||| c == '\u{3000}'
}

/// `s` without its leading Unicode whitespace.
pub open spec fn unicode_trim_start(s: Seq<char>) -> Seq<char>
    decreases s.len(),
{
    if s.len() > 0 && unicode_ws(s[0]) {
        unicode_trim_start(s.drop_first())
    } else {
        s
    }
}

/// `s` without its trailing Unicode whitespace.
pub open spec fn unicode_trim_end(s: Seq<char>) -> Seq<char>
    decreases s.len(),
{
    if s.len() > 0 && unicode_ws(s.last()) {
        unicode_trim_end(s.drop_last())
    } else {
        s
    }
}

/// Rust's `str::trim`.
pub open spec fn unicode_trim(s: Seq<char>) -> Seq<char> {
    unicode_trim_end(unicode_trim_start(s))
}

fn is_unicode_ws(c: char) -> (b: bool)
    ensures
        b == unicode_ws(c),
{
    ('\u{9}' <= c && c <= '\u{d}') || c == '\u{20}' || c == '\u{85}' || c == '\u{a0}' || c
        == '\u{1680}' || ('\u{2000}' <= c && c <= '\u{200a}') || c == '\u{2028}' || c
        == '\u{2029}' || c == '\u{202f}' || c == '\u{205f}' || c == '\u{3000}'
}

proof fn lemma_unicode_trim_start_at(s: Seq<char>, i: int)
    requires
        0 <= i <= s.len(),
        forall|k: int| 0 <= k < i ==> unicode_ws(#[trigger] s[k]),
        i == s.len() || !unicode_ws(s[i]),
    ensures
        unicode_trim_start(s) == s.skip(i),
    decreases i,
{
    if i == 0 {
        assert(s.skip(0) =~= s);
    } else {
        let t = s.drop_first();
        assert forall|k: int| 0 <= k < i - 1 implies unicode_ws(#[trigger] t[k]) by {
            assert(t[k] == s[k + 1]);
        }
        if i - 1 < t.len() {
            assert(t[i - 1] == s[i]);
        }
        lemma_unicode_trim_start_at(t, i - 1);
        assert(t.skip(i - 1) =~= s.skip(i));
    }
}

proof fn lemma_unicode_trim_end_at(s: Seq<char>, j: int)
    requires
        0 <= j <= s.len(),
        forall|k: int| j <= k < s.len() ==> unicode_ws(#[trigger] s[k]),
        j == 0 || !unicode_ws(s[j - 1]),
    ensures
        unicode_trim_end(s) == s.take(j),
    decreases s.len() - j,
{
    if j == s.len() {
        assert(s.take(j) =~= s);
    } else {
        let t = s.drop_last();
        assert forall|k: int| j <= k < t.len() implies unicode_ws(#[trigger] t[k]) by {
            assert(t[k] == s[k]);
        }
        if j > 0 {
            assert(t[j - 1] == s[j - 1]);
        }
        lemma_unicode_trim_end_at(t, j);
        assert(t.take(j) =~= s.take(j));
    }
}

/// Rust's `str::trim` of a character sequence.
pub fn unicode_trim_chars(v: &Vec<char>) -> (r: Vec<char>)
    ensures
        r@ == unicode_trim(v@),
{
    let mut i: usize = 0;
    while i < v.len() && is_unicode_ws(v[i])
        invariant
            i <= v.len(),
            forall|k: int| 0 <= k < i ==> unicode_ws(#[trigger] v@[k]),
        decreases v.len() - i,
    {
        i = i + 1;
    }
    let mut j: usize = v.len();
    while j > i && is_unicode_ws(v[j - 1])
        invariant
            i <= j <= v.len(),
            forall|k: int| j <= k < v.len() ==> unicode_ws(#[trigger] v@[k]),
        decreases j - i,
    {
        j = j - 1;
    }
    proof {
        lemma_unicode_trim_start_at(v@, i as int);
        let t = v@.skip(i as int);
        assert forall|k: int| j - i <= k < t.len() implies unicode_ws(#[trigger] t[k]) by {
            assert(t[k] == v@[k + i]);
        }
        if j > i {
            assert(t[j - i - 1] == v@[j - 1]);
        }
        lemma_unicode_trim_end_at(t, j - i);
        assert(t.take(j - i) =~= v@.subrange(i as int, j as int));
    }
    sub_vec(v, i, j)
}

} // verus!

verus! {

// --------------------------------------------------------------- properties

proof fn lemma_utf16_units_cons(c: char, t: Seq<char>)
    ensures
        utf16_units(seq![c] + t) == utf16_width(c) + utf16_units(t),
    decreases t.len(),
{
    let s = seq![c] + t;
    assert(s.len() == t.len() + 1);
    if t.len() == 0 {
        assert(s.drop_last() =~= Seq::<char>::empty());
        assert(s.last() == c);
        assert(utf16_units(s) == utf16_units(s.drop_last()) + utf16_width(c));
    } else {
        lemma_utf16_units_cons(c, t.drop_last());
        assert(s.drop_last() =~= seq![c] + t.drop_last());
        assert(s.last() == t.last());
        assert(utf16_units(s) == utf16_units(s.drop_last()) + utf16_width(s.last()));
    }
}

/// Cutting to `max` UTF-16 units keeps a prefix of at most `max` units, the
/// whole text when it fits, and drops a character only when it would cross
/// the cut.
pub proof fn utf16_prefix_is_longest_fitting_prefix(s: Seq<char>, max: nat)
    ensures
        ({
            let p = utf16_prefix(s, max);
            &&& p.len() <= s.len()
            &&& p == s.take(p.len() as int)
            &&& utf16_units(p) <= max
            &&& p.len() < s.len() ==> utf16_units(p) + utf16_width(s[p.len() as int]) > max
            &&& utf16_units(s) <= max ==> p == s
        }),
    decreases s.len(),
{
    if s.len() > 0 {
        let t = s.drop_first();
        assert(s =~= seq![s[0]] + t);
        lemma_utf16_units_cons(s[0], t);
        if utf16_width(s[0]) <= max {
            let r = (max - utf16_width(s[0])) as nat;
            utf16_prefix_is_longest_fitting_prefix(t, r);
            let q = utf16_prefix(t, r);
            let p = utf16_prefix(s, max);
            assert(p == seq![s[0]] + q);
            lemma_utf16_units_cons(s[0], q);
            assert(p =~= s.take(p.len() as int));
            if p.len() < s.len() {
                assert(s[p.len() as int] == t[q.len() as int]);
            }
        } else {
            assert(utf16_prefix(s, max) =~= Seq::<char>::empty());
            assert(utf16_units(Seq::<char>::empty()) == 0);
        }
    } else {
        assert(s.take(0) =~= s);
    }
}

} // verus!
