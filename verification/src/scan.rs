//! Scanning helpers for the small grammars of rule files: runs of a
//! character class and substring search.
use vstd::prelude::*;
use crate::text::{is_js_ws, js_ws};

verus! {

/// The character classes the rule grammars are made of.
pub enum CharClass {
    /// JS whitespace, the regex class `\s`.
    Space,
    /// `[A-Za-z0-9_-]`: characters of a frontmatter key after the first.
    KeyChar,
    /// `[A-Za-z0-9_]`: characters of a tool name after the first.
    IdentChar,
    /// `[0-9]`: the regex class `\d`.
    Digit,
}

/// ASCII letter.
pub open spec fn is_letter(c: char) -> bool {
    ('A' <= c && c <= 'Z') || ('a' <= c && c <= 'z')
}

/// ASCII digit.
pub open spec fn is_digit(c: char) -> bool {
    '0' <= c && c <= '9'
}

/// Membership of a character in a class.
pub open spec fn in_class(k: CharClass, c: char) -> bool {
    match k {
        CharClass::Space => js_ws(c),
        CharClass::KeyChar => is_letter(c) || is_digit(c) || c == '_' || c == '-',
        CharClass::IdentChar => is_letter(c) || is_digit(c) || c == '_',
        CharClass::Digit => is_digit(c),
    }
}

/// End of the longest run of class `k` starting at `from`.
pub open spec fn class_end(s: Seq<char>, from: int, k: CharClass) -> int
    decreases s.len() - from,
{
    if 0 <= from < s.len() && in_class(k, s[from]) {
        class_end(s, from + 1, k)
    } else {
        from
    }
}

/// `pat` occurs in `t` at `i`.
pub open spec fn occurs_at(t: Seq<char>, i: int, pat: Seq<char>) -> bool {
    0 <= i && i + pat.len() <= t.len() && t.subrange(i, i + pat.len()) == pat
}

/// The first occurrence of `pat` in `t` at or after `from`.
pub open spec fn find_from(t: Seq<char>, pat: Seq<char>, from: int) -> Option<int>
    decreases t.len() + 1 - from,
{
    if from < 0 || from + pat.len() > t.len() {
        None
    } else if occurs_at(t, from, pat) {
        Some(from)
    } else {
        find_from(t, pat, from + 1)
    }
}

pub proof fn lemma_class_end(s: Seq<char>, from: int, i: int, k: CharClass)
    requires
        0 <= from <= i <= s.len(),
        forall|j: int| from <= j < i ==> in_class(k, #[trigger] s[j]),
        i == s.len() || !in_class(k, s[i]),
    ensures
        class_end(s, from, k) == i,
    decreases i - from,
{
    if from < i {
        lemma_class_end(s, from + 1, i, k);
    }
}

pub proof fn lemma_find_from_found(t: Seq<char>, pat: Seq<char>, from: int)
    ensures
        find_from(t, pat, from) matches Some(i) ==> from <= i && occurs_at(t, i, pat),
    decreases t.len() + 1 - from,
{
    if !(from < 0 || from + pat.len() > t.len()) && !occurs_at(t, from, pat) {
        lemma_find_from_found(t, pat, from + 1);
    }
}

/// Whether `c` belongs to class `k`.
pub fn in_class_exec(k: &CharClass, c: char) -> (b: bool)
    ensures
        b == in_class(*k, c),
{
    match k {
        CharClass::Space => is_js_ws(c),
        CharClass::KeyChar => ('A' <= c && c <= 'Z') || ('a' <= c && c <= 'z') || ('0' <= c && c
            <= '9') || c == '_' || c == '-',
        CharClass::IdentChar => ('A' <= c && c <= 'Z') || ('a' <= c && c <= 'z') || ('0' <= c
            && c <= '9') || c == '_',
        CharClass::Digit => '0' <= c && c <= '9',
    }
}

/// End of the longest run of class `k` starting at `from`.
pub fn class_end_exec(v: &Vec<char>, from: usize, k: CharClass) -> (i: usize)
    requires
        from <= v.len(),
    ensures
        from <= i <= v.len(),
        i == class_end(v@, from as int, k),
        forall|j: int| from <= j < i ==> in_class(k, #[trigger] v@[j]),
        i == v.len() || !in_class(k, v@[i as int]),
{
    let mut i = from;
    while i < v.len() && in_class_exec(&k, v[i])
        invariant
            from <= i <= v.len(),
            forall|j: int| from <= j < i ==> in_class(k, #[trigger] v@[j]),
        decreases v.len() - i,
    {
        i = i + 1;
    }
    proof {
        lemma_class_end(v@, from as int, i as int, k);
    }
    i
}

/// Whether `pat` occurs in `v` at `i`.
pub fn occurs_at_exec(v: &Vec<char>, i: usize, pat: &Vec<char>) -> (b: bool)
    ensures
        b == occurs_at(v@, i as int, pat@),
{
    if i > v.len() || pat.len() > v.len() - i {
        return false;
    }
    let mut j: usize = 0;
    while j < pat.len()
        invariant
            i + pat.len() <= v.len(),
            j <= pat.len(),
            forall|k: int| 0 <= k < j ==> v@[i + k] == pat@[k],
        decreases pat.len() - j,
    {
        if v[i + j] != pat[j] {
            assert(v@.subrange(i as int, i + pat.len())[j as int] != pat@[j as int]);
            return false;
        }
        j = j + 1;
    }
    assert(v@.subrange(i as int, i + pat.len()) =~= pat@);
    true
}

/// The first occurrence of `pat` in `v` at or after `from`.
pub fn find_from_exec(v: &Vec<char>, pat: &Vec<char>, from: usize) -> (r: Option<usize>)
    ensures
        r matches Some(i) ==> from <= i && occurs_at(v@, i as int, pat@),
        r matches Some(i) ==> find_from(v@, pat@, from as int) == Some(i as int),
        r is None ==> find_from(v@, pat@, from as int) is None,
{
    proof {
        lemma_find_from_found(v@, pat@, from as int);
    }
    if from > v.len() {
        return None;
    }
    let mut i = from;
    while i < v.len()
        invariant
            from <= i <= v.len(),
            find_from(v@, pat@, from as int) == find_from(v@, pat@, i as int),
        decreases v.len() - i,
    {
        if pat.len() > v.len() - i {
            return None;
        }
        if occurs_at_exec(v, i, pat) {
            return Some(i);
        }
        i = i + 1;
    }
    if occurs_at_exec(v, i, pat) {
        Some(i)
    } else {
        assert(find_from(v@, pat@, i + 1) is None);
        None
    }
}

/// The value of an ASCII digit.
pub open spec fn digit_value(c: char) -> int {
    (c as int) - ('0' as int)
}

/// The value of a string of decimal digits.
pub open spec fn digits_value(s: Seq<char>) -> int
    decreases s.len(),
{
    if s.len() == 0 {
        0
    } else {
        digits_value(s.drop_last()) * 10 + digit_value(s.last())
    }
}

pub proof fn lemma_digits_value_prefix(s: Seq<char>, j: int)
    requires
        0 <= j <= s.len(),
        forall|k: int| 0 <= k < s.len() ==> is_digit(#[trigger] s[k]),
    ensures
        digits_value(s.take(j)) <= digits_value(s),
        digits_value(s) >= 0,
    decreases s.len(),
{
    if s.len() > 0 {
        let t = s.drop_last();
        assert forall|k: int| 0 <= k < t.len() implies is_digit(#[trigger] t[k]) by {
            assert(t[k] == s[k]);
        }
        if j < s.len() {
            assert(t.take(j) =~= s.take(j));
            lemma_digits_value_prefix(t, j);
        } else {
            assert(s.take(j) =~= s);
            lemma_digits_value_prefix(t, 0);
        }
        assert(is_digit(s.last()));
    } else {
        assert(s.take(j) =~= s);
    }
}

/// The value of the digits `v[from..]`, or `None` when it exceeds `u64`.
pub fn digits_u64(v: &Vec<char>, from: usize) -> (r: Option<u64>)
    requires
        from <= v.len(),
        forall|k: int| from <= k < v.len() ==> is_digit(#[trigger] v@[k]),
    ensures
        digits_value(v@.skip(from as int)) >= 0,
        r matches Some(n) ==> n == digits_value(v@.skip(from as int)),
        r is None ==> digits_value(v@.skip(from as int)) > u64::MAX,
{
    let ghost ds = v@.skip(from as int);
    assert forall|k: int| 0 <= k < ds.len() implies is_digit(#[trigger] ds[k]) by {
        assert(ds[k] == v@[k + from]);
    }
    proof {
        lemma_digits_value_prefix(ds, 0);
    }
    let mut acc: u128 = 0;
    let mut i = from;
    assert(v@.subrange(from as int, from as int) =~= Seq::<char>::empty());
    #[verifier::loop_isolation(false)]
    while i < v.len()
        invariant
            from <= i <= v.len(),
            ds == v@.skip(from as int),
            forall|k: int| 0 <= k < ds.len() ==> is_digit(#[trigger] ds[k]),
            acc == digits_value(v@.subrange(from as int, i as int)),
            acc <= u64::MAX,
        decreases v.len() - i,
    {
        let ghost sub = v@.subrange(from as int, i + 1);
        assert(sub.drop_last() =~= v@.subrange(from as int, i as int));
        assert(sub.last() == v@[i as int]);
        assert(ds[i - from] == v@[i as int]);
        let dv = (v[i] as u32 - '0' as u32) as u128;
        acc = acc * 10 + dv;
        i = i + 1;
        if acc > u64::MAX as u128 {
            proof {
                assert(sub =~= ds.take(i - from));
                lemma_digits_value_prefix(ds, i - from);
            }
            return None;
        }
    }
    assert(v@.subrange(from as int, i as int) =~= ds);
    Some(acc as u64)
}

} // verus!
