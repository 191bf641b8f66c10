//! Text operations on the characters of strings.

use vstd::prelude::*;
use crate::path::chars_of;

verus! {

/// `s` ends with `t`.
pub open spec fn spec_ends_with(s: Seq<char>, t: Seq<char>) -> bool {
    t.len() <= s.len() && s.subrange(s.len() - t.len(), s.len() as int) == t
}

/// `s` starts with `t`.
pub open spec fn spec_starts_with_text(s: Seq<char>, t: Seq<char>) -> bool {
    t.len() <= s.len() && s.subrange(0, t.len() as int) == t
}

/// The index of the first occurrence of `c` in `s`, if any.
pub open spec fn first_index_of(s: Seq<char>, c: char) -> Option<int> {
    if exists|i: int| 0 <= i < s.len() && s[i] == c {
        Some(choose|i: int| 0 <= i < s.len() && s[i] == c && (forall|j: int| 0 <= j < i ==> s[j] != c))
    } else {
        None
    }
}

/// Whether `s` ends with `t`.
pub fn ends_with(s: &str, t: &str) -> (res: bool)
    ensures
        res == spec_ends_with(s@, t@),
{
    let sc = chars_of(s);
    let tc = chars_of(t);
    if tc.len() > sc.len() {
        return false;
    }
    let off = sc.len() - tc.len();
    let mut i: usize = 0;
    while i < tc.len()
        invariant
            sc@ == s@,
            tc@ == t@,
            off == sc.len() - tc.len(),
            i <= tc.len(),
            forall|j: int| 0 <= j < i ==> sc@[off + j] == tc@[j],
        decreases tc.len() - i,
    {
        if sc[off + i] != tc[i] {
            assert(s@.subrange(s@.len() - t@.len(), s@.len() as int)[i as int] != t@[i as int]);
            return false;
        }
        i = i + 1;
    }
    assert(s@.subrange(s@.len() - t@.len(), s@.len() as int) =~= t@);
    true
}

/// Whether `s` starts with `t`.
pub fn starts_with(s: &str, t: &str) -> (res: bool)
    ensures
        res == spec_starts_with_text(s@, t@),
{
    let sc = chars_of(s);
    let tc = chars_of(t);
    if tc.len() > sc.len() {
        return false;
    }
    let mut i: usize = 0;
    while i < tc.len()
        invariant
            sc@ == s@,
            tc@ == t@,
            tc.len() <= sc.len(),
            i <= tc.len(),
            forall|j: int| 0 <= j < i ==> sc@[j] == tc@[j],
        decreases tc.len() - i,
    {
        if sc[i] != tc[i] {
            assert(s@.subrange(0, t@.len() as int)[i as int] != t@[i as int]);
            return false;
        }
        i = i + 1;
    }
    assert(s@.subrange(0, t@.len() as int) =~= t@);
    true
}

/// `s` without its last `t.len()` characters, when `s` ends with `t`.
pub fn strip_suffix<'a>(s: &'a str, t: &str) -> (res: Option<&'a str>)
    ensures
        res matches Some(r) ==> spec_ends_with(s@, t@) && r@ == s@.subrange(
            0,
            s@.len() - t@.len(),
        ),
        res is None ==> !spec_ends_with(s@, t@),
{
    if ends_with(s, t) {
        let n = s.unicode_len();
        let m = t.unicode_len();
        Some(s.substring_char(0, n - m))
    } else {
        None
    }
}

/// The parts of `s` before and after its first `c`, if `s` holds `c`.
pub fn split_once_char<'a>(s: &'a str, c: char) -> (res: Option<(&'a str, &'a str)>)
    ensures
        res is None <==> first_index_of(s@, c) is None,
        res matches Some(p) ==> ({
            let i = first_index_of(s@, c)->0;
            &&& p.0@ == s@.subrange(0, i)
            &&& p.1@ == s@.subrange(i + 1, s@.len() as int)
        }),
{
    let sc = chars_of(s);
    let mut i: usize = 0;
    while i < sc.len()
        invariant
            sc@ == s@,
            i <= sc.len(),
            forall|j: int| 0 <= j < i ==> sc@[j] != c,
        decreases sc.len() - i,
    {
        if sc[i] == c {
            proof {
                let k = choose|k: int|
                    0 <= k < s@.len() && s@[k] == c && (forall|j: int| 0 <= j < k ==> s@[j] != c);
                assert(0 <= k < s@.len() && s@[k] == c && (forall|j: int| 0 <= j < k ==> s@[j] != c));
                if k < i {
                } else if k > i {
                    assert(s@[i as int] == c);
                }
                assert(k == i);
            }
            return Some((s.substring_char(0, i), s.substring_char(i + 1, sc.len())));
        }
        i = i + 1;
    }
    None
}


/// Whether `a` and `b` hold the same text.
pub fn text_eq(a: &str, b: &str) -> (res: bool)
    ensures
        res == (a@ == b@),
{
    let ac = chars_of(a);
    let bc = chars_of(b);
    if ac.len() != bc.len() {
        return false;
    }
    let mut i: usize = 0;
    while i < ac.len()
        invariant
            ac@ == a@,
            bc@ == b@,
            ac.len() == bc.len(),
            i <= ac.len(),
            forall|j: int| 0 <= j < i ==> ac@[j] == bc@[j],
        decreases ac.len() - i,
    {
        if ac[i] != bc[i] {
            return false;
        }
        i = i + 1;
    }
    assert(a@ =~= b@);
    true
}

/// The pieces of `s` between occurrences of `c`, empty ones included.
pub open spec fn split_on(s: Seq<char>, c: char) -> Seq<Seq<char>>
    decreases s.len(),
{
    if s.len() == 0 {
        seq![Seq::<char>::empty()]
    } else {
        let prev = split_on(s.drop_last(), c);
        if s.last() == c {
            prev.push(Seq::<char>::empty())
        } else {
            prev.update(prev.len() - 1, prev.last().push(s.last()))
        }
    }
}

/// The pieces of `s` between occurrences of `c` (see `split_on`).
pub fn split_char(s: &str, c: char) -> (res: Vec<String>)
    ensures
        res@.map_values(|p: String| p@) == split_on(s@, c),
{
    let chars = chars_of(s);
    let ghost text = s@;
    let mut pieces: Vec<String> = Vec::new();
    let mut start: usize = 0;
    let mut i: usize = 0;
    proof {
        assert(text.take(0) =~= Seq::<char>::empty());
    }
    while i < chars.len()
        invariant
            chars@ == text,
            text == s@,
            start <= i <= chars.len(),
            ({
                let segs = split_on(text.take(i as int), c);
                &&& segs.len() >= 1
                &&& segs.last() == text.subrange(start as int, i as int)
                &&& pieces@.map_values(|p: String| p@) == segs.drop_last()
            }),
        decreases chars.len() - i,
    {
        let ghost segs = split_on(text.take(i as int), c);
        assert(text.take(i + 1).drop_last() =~= text.take(i as int));
        if chars[i] == c {
            let piece = s.substring_char(start, i);
            let ghost before = pieces@;
            pieces.push(piece.to_owned());
            proof {
                let segs2 = split_on(text.take(i + 1), c);
                assert(segs2 == segs.push(Seq::<char>::empty()));
                assert(segs2.drop_last() =~= segs);
                assert(segs =~= segs.drop_last().push(segs.last()));
                assert(pieces@.map_values(|p: String| p@) =~= before.map_values(|p: String| p@).push(piece@));
                assert(text.subrange(i + 1, i + 1) =~= Seq::<char>::empty());
            }
            start = i + 1;
        } else {
            proof {
                let segs2 = split_on(text.take(i + 1), c);
                assert(segs2 == segs.update(segs.len() - 1, segs.last().push(text[i as int])));
                assert(segs2.drop_last() =~= segs.drop_last());
                assert(segs2.last() =~= text.subrange(start as int, i + 1));
            }
        }
        i = i + 1;
    }
    let piece = s.substring_char(start, i);
    let ghost before = pieces@;
    pieces.push(piece.to_owned());
    proof {
        assert(text.take(text.len() as int) =~= text);
        let segs = split_on(text, c);
        assert(segs =~= segs.drop_last().push(segs.last()));
        assert(pieces@.map_values(|p: String| p@) =~= before.map_values(|p: String| p@).push(piece@));
    }
    pieces
}

/// Splitting cuts at every `c` and nowhere else: a text without `c` is one
/// piece, no piece holds `c`, and splitting `a`, `c`, `b` gives the pieces
/// of `a` followed by those of `b`.
pub proof fn lemma_split_on_law(a: Seq<char>, b: Seq<char>, c: char)
    ensures
        (forall|i: int| 0 <= i < a.len() ==> a[i] != c) ==> split_on(a, c) == seq![a],
        forall|k: int, i: int|
            0 <= k < split_on(a, c).len() && 0 <= i < split_on(a, c)[k].len() ==> #[trigger] split_on(a, c)[k][i] != c,
        split_on(a.push(c) + b, c) == split_on(a, c) + split_on(b, c),
{
    lemma_split_no_sep(a, c);
    lemma_split_pieces(a, c);
    lemma_split_concat(a, b, c);
}

proof fn lemma_split_no_sep(a: Seq<char>, c: char)
    ensures
        (forall|i: int| 0 <= i < a.len() ==> a[i] != c) ==> split_on(a, c) == seq![a],
    decreases a.len(),
{
    if a.len() > 0 && forall|i: int| 0 <= i < a.len() ==> a[i] != c {
        lemma_split_no_sep(a.drop_last(), c);
        assert(a.drop_last().push(a.last()) =~= a);
        assert(split_on(a, c) =~= seq![a]);
    } else if a.len() == 0 {
        assert(a =~= Seq::<char>::empty());
    }
}

proof fn lemma_split_pieces(a: Seq<char>, c: char)
    ensures
        split_on(a, c).len() > 0,
        forall|k: int, i: int|
            0 <= k < split_on(a, c).len() && 0 <= i < split_on(a, c)[k].len() ==> #[trigger] split_on(a, c)[k][i] != c,
    decreases a.len(),
{
    if a.len() > 0 {
        lemma_split_pieces(a.drop_last(), c);
        let prev = split_on(a.drop_last(), c);
        let r = split_on(a, c);
        assert forall|k: int, i: int| 0 <= k < r.len() && 0 <= i < r[k].len() implies #[trigger] r[k][i] != c by {
            if a.last() == c {
                if k < prev.len() {
                    assert(r[k] == prev[k]);
                }
            } else {
                if k < prev.len() - 1 {
                    assert(r[k] == prev[k]);
                } else {
                    assert(r[k] == prev.last().push(a.last()));
                    if i < prev.last().len() {
                        assert(r[k][i] == prev[prev.len() - 1][i]);
                    }
                }
            }
        }
    }
}

proof fn lemma_split_concat(a: Seq<char>, b: Seq<char>, c: char)
    ensures
        split_on(a.push(c) + b, c) == split_on(a, c) + split_on(b, c),
    decreases b.len(),
{
    if b.len() == 0 {
        assert(a.push(c) + b =~= a.push(c));
        assert((a.push(c)).drop_last() =~= a);
        assert(split_on(b, c) =~= seq![Seq::<char>::empty()]);
        assert(split_on(a, c).push(Seq::<char>::empty()) =~= split_on(a, c) + split_on(b, c));
    } else {
        let s = a.push(c) + b;
        lemma_split_concat(a, b.drop_last(), c);
        assert(s.drop_last() =~= a.push(c) + b.drop_last());
        assert(s.last() == b.last());
        lemma_split_pieces(b.drop_last(), c);
        let pa = split_on(a, c);
        let pb = split_on(b.drop_last(), c);
        assert(split_on(s.drop_last(), c) == pa + pb);
        if b.last() == c {
            assert((pa + pb).push(Seq::<char>::empty()) =~= pa + pb.push(Seq::<char>::empty()));
        } else {
            let x = pa + pb;
            assert(x.update(x.len() - 1, x.last().push(b.last())) =~= pa + pb.update(pb.len() - 1, pb.last().push(b.last())));
        }
    }
}

} // verus!
