//! Sorting file names the way JavaScript's `Array.prototype.sort` does by
//! default: by their UTF-16 code units.
use vstd::prelude::*;
use crate::text::chars_of;

verus! {

/// The UTF-16 code units of a character folded into one number whose order
/// is the order of the unit sequences: `first * 0x10000 + second`, where a
/// character below U+10000 is one unit (second = 0) and any other is a
/// surrogate pair 0xD800 + (x >> 10), 0xDC00 + (x & 0x3FF) with
/// x = c - 0x10000.
pub open spec fn utf16_key(c: char) -> int {
    let u = c as u32;
    if u < 0x10000 {
        (u as int) * 0x10000
    } else {
        let x = (u as int) - 0x10000;
        (0xD800 + x / 0x400) * 0x10000 + (0xDC00 + x % 0x400)
    }
}

/// `a` is at most `b` in UTF-16 code unit order (lexicographic).
pub open spec fn utf16_le(a: Seq<char>, b: Seq<char>) -> bool
    decreases a.len(),
{
    if a.len() == 0 {
        true
    } else if b.len() == 0 {
        false
    } else if utf16_key(a[0]) != utf16_key(b[0]) {
        utf16_key(a[0]) < utf16_key(b[0])
    } else {
        utf16_le(a.drop_first(), b.drop_first())
    }
}

/// Sorted by UTF-16 code units.
pub open spec fn sorted_utf16(s: Seq<Seq<char>>) -> bool {
    forall|i: int, j: int| 0 <= i < j < s.len() ==> utf16_le(#[trigger] s[i], #[trigger] s[j])
}

/// The characters held by a sequence of strings.
pub open spec fn names_view(s: Seq<String>) -> Seq<Seq<char>> {
    s.map_values(|x: String| x@)
}

/// UTF-16 code unit order is total.
pub proof fn lemma_utf16_le_total(a: Seq<char>, b: Seq<char>)
    ensures
        utf16_le(a, b) || utf16_le(b, a),
    decreases a.len(),
{
    if a.len() > 0 && b.len() > 0 && utf16_key(a[0]) == utf16_key(b[0]) {
        lemma_utf16_le_total(a.drop_first(), b.drop_first());
    }
}

/// UTF-16 code unit order is transitive.
pub proof fn lemma_utf16_le_trans(a: Seq<char>, b: Seq<char>, c: Seq<char>)
    requires
        utf16_le(a, b),
        utf16_le(b, c),
    ensures
        utf16_le(a, c),
    decreases a.len(),
{
    if a.len() > 0 && b.len() > 0 && c.len() > 0 {
        if utf16_key(a[0]) == utf16_key(b[0]) && utf16_key(b[0]) == utf16_key(c[0]) {
            lemma_utf16_le_trans(a.drop_first(), b.drop_first(), c.drop_first());
        }
    }
}

/// The folded UTF-16 key of a character.
fn key_of(c: char) -> (k: u64)
    ensures
        k == utf16_key(c),
{
    let u = c as u32;
    if u < 0x10000 {
        (u as u64) * 0x10000
    } else {
        let x = (u - 0x10000) as u64;
        (0xD800 + x / 0x400) * 0x10000 + (0xDC00 + x % 0x400)
    }
}

/// Whether `a` is at most `b` in UTF-16 code unit order.
pub fn utf16_le_exec(a: &Vec<char>, b: &Vec<char>) -> (r: bool)
    ensures
        r == utf16_le(a@, b@),
{
    let mut i: usize = 0;
    assert(a@.skip(0) =~= a@);
    assert(b@.skip(0) =~= b@);
    while i < a.len() && i < b.len()
        invariant
            i <= a.len(),
            i <= b.len(),
            utf16_le(a@, b@) == utf16_le(a@.skip(i as int), b@.skip(i as int)),
        decreases a.len() - i,
    {
        let ka = key_of(a[i]);
        let kb = key_of(b[i]);
        assert(a@.skip(i as int)[0] == a@[i as int]);
        assert(b@.skip(i as int)[0] == b@[i as int]);
        if ka != kb {
            return ka < kb;
        }
        assert(a@.skip(i as int).drop_first() =~= a@.skip(i + 1));
        assert(b@.skip(i as int).drop_first() =~= b@.skip(i + 1));
        i = i + 1;
    }
    i == a.len()
}

/// The first position in a sorted list whose name is above `x`.
fn insertion_point(out: &Vec<String>, x: &Vec<char>) -> (p: usize)
    ensures
        p <= out@.len(),
        forall|k: int| 0 <= k < p ==> utf16_le(#[trigger] names_view(out@)[k], x@),
        p < out@.len() ==> !utf16_le(names_view(out@)[p as int], x@),
{
    let mut p: usize = 0;
    while p < out.len()
        invariant
            p <= out@.len(),
            forall|k: int| 0 <= k < p ==> utf16_le(#[trigger] names_view(out@)[k], x@),
        decreases out.len() - p,
    {
        let ov_p = chars_of(out[p].as_str());
        if !utf16_le_exec(&ov_p, x) {
            return p;
        }
        p = p + 1;
    }
    p
}

/// Sorts names by their UTF-16 code units, as JavaScript's default sort does.
pub fn sort_utf16(names: Vec<String>) -> (r: Vec<String>)
    ensures
        sorted_utf16(names_view(r@)),
        names_view(r@).to_multiset() == names_view(names@).to_multiset(),
{
    let mut out: Vec<String> = Vec::new();
    let mut i: usize = 0;
    assert(names_view(names@).take(0) =~= Seq::<Seq<char>>::empty());
    assert(names_view(out@) =~= Seq::<Seq<char>>::empty());
    while i < names.len()
        invariant
            i <= names@.len(),
            sorted_utf16(names_view(out@)),
            names_view(out@).to_multiset() == names_view(names@).take(i as int).to_multiset(),
        decreases names.len() - i,
    {
        let x = names[i].clone();
        let xv = chars_of(x.as_str());
        let ghost ov = names_view(out@);
        let p = insertion_point(&out, &xv);
        proof {
            if p < ov.len() {
                lemma_utf16_le_total(ov[p as int], x@);
            }
        }
        out.insert(p, x);
        proof {
            let nv = names_view(out@);
            assert(nv =~= ov.insert(p as int, x@));
            assert forall|a: int, b: int| 0 <= a < b < nv.len() implies utf16_le(
                #[trigger] nv[a],
                #[trigger] nv[b],
            ) by {
                if b < p {
                    assert(nv[a] == ov[a] && nv[b] == ov[b]);
                } else if b == p {
                    assert(nv[a] == ov[a]);
                } else if a < p {
                    assert(nv[a] == ov[a] && nv[b] == ov[b - 1]);
                    assert(utf16_le(ov[a], x@));
                    lemma_utf16_le_trans(ov[a], x@, ov[p as int]);
                    if b - 1 > p {
                        lemma_utf16_le_trans(ov[a], ov[p as int], ov[b - 1]);
                    }
                } else if a == p {
                    assert(nv[b] == ov[b - 1]);
                    if b - 1 > p {
                        lemma_utf16_le_trans(x@, ov[p as int], ov[b - 1]);
                    }
                } else {
                    assert(nv[a] == ov[a - 1] && nv[b] == ov[b - 1]);
                }
            }
            let tk = names_view(names@).take(i as int);
            assert(names_view(names@)[i as int] == x@);
            assert(names_view(names@).take(i + 1) =~= tk.push(x@));
            vstd::seq_lib::to_multiset_build(tk, x@);
            vstd::seq_lib::to_multiset_insert(ov, p as int, x@);
        }
        i = i + 1;
    }
    assert(names_view(names@).take(names@.len() as int) =~= names_view(names@));
    out
}

} // verus!
