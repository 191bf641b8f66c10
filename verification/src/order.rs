//! The order of texts (the order of Rust strings) and sorting without
//! duplicates.

use vstd::prelude::*;
use crate::path::{chars_of, copy_string};

verus! {

/// `a` comes strictly before `b`: at the first position where they differ
/// `a` has the smaller character, or `a` is a proper prefix of `b`.
pub open spec fn text_lt(a: Seq<char>, b: Seq<char>) -> bool
    decreases a.len(),
{
    if b.len() == 0 {
        false
    } else if a.len() == 0 {
        true
    } else if a[0] != b[0] {
        (a[0] as int) < (b[0] as int)
    } else {
        text_lt(a.drop_first(), b.drop_first())
    }
}

pub proof fn lemma_text_lt_irreflexive(a: Seq<char>)
    ensures
        !text_lt(a, a),
    decreases a.len(),
{
    if a.len() > 0 {
        lemma_text_lt_irreflexive(a.drop_first());
    }
}

pub proof fn lemma_text_lt_total(a: Seq<char>, b: Seq<char>)
    ensures
        a == b || text_lt(a, b) || text_lt(b, a),
        !(text_lt(a, b) && text_lt(b, a)),
    decreases a.len(),
{
    if a.len() > 0 && b.len() > 0 {
        if a[0] == b[0] {
            lemma_text_lt_total(a.drop_first(), b.drop_first());
            if a.drop_first() == b.drop_first() {
                assert(a =~= seq![a[0]] + a.drop_first());
                assert(b =~= seq![b[0]] + b.drop_first());
            }
        }
    } else if a.len() == 0 && b.len() == 0 {
        assert(a =~= b);
    }
}

pub proof fn lemma_text_lt_transitive(a: Seq<char>, b: Seq<char>, c: Seq<char>)
    requires
        text_lt(a, b),
        text_lt(b, c),
    ensures
        text_lt(a, c),
    decreases a.len(),
{
    if a.len() > 0 && b.len() > 0 && c.len() > 0 {
        if a[0] == b[0] && b[0] == c[0] {
            lemma_text_lt_transitive(a.drop_first(), b.drop_first(), c.drop_first());
        }
    }
}

/// `s` is in strictly increasing order.
pub open spec fn strictly_sorted(s: Seq<Seq<char>>) -> bool {
    forall|i: int, j: int| 0 <= i < j < s.len() ==> text_lt(s[i], s[j])
}

/// Whether `a` comes strictly before `b`.
pub fn text_less(a: &str, b: &str) -> (res: bool)
    ensures
        res == text_lt(a@, b@),
{
    let ac = chars_of(a);
    let bc = chars_of(b);
    let mut i: usize = 0;
    proof {
        assert(a@.skip(0) =~= a@);
        assert(b@.skip(0) =~= b@);
    }
    while i < ac.len() && i < bc.len()
        invariant
            ac@ == a@,
            bc@ == b@,
            i <= ac.len(),
            i <= bc.len(),
            text_lt(a@, b@) == text_lt(a@.skip(i as int), b@.skip(i as int)),
        decreases ac.len() - i,
    {
        proof {
            assert(a@.skip(i as int)[0] == ac@[i as int]);
            assert(b@.skip(i as int)[0] == bc@[i as int]);
        }
        if ac[i] != bc[i] {
            return ac[i] < bc[i];
        }
        proof {
            assert(a@.skip(i as int).drop_first() =~= a@.skip(i + 1));
            assert(b@.skip(i as int).drop_first() =~= b@.skip(i + 1));
        }
        i = i + 1;
    }
    i < bc.len()
}

pub open spec fn texts_of(v: Seq<String>) -> Seq<Seq<char>> {
    v.map_values(|s: String| s@)
}

/// The set of texts in `s`.
pub open spec fn text_set(s: Seq<Seq<char>>) -> Set<Seq<char>> {
    Set::new(|x: Seq<char>| s.contains(x))
}

/// The texts of `v` in increasing order, each once: the same set of texts,
/// strictly sorted.
pub fn sort_dedup(v: &Vec<String>) -> (res: Vec<String>)
    ensures
        strictly_sorted(texts_of(res@)),
        text_set(texts_of(res@)) == text_set(texts_of(v@)),
{
    let mut res: Vec<String> = Vec::new();
    let mut i: usize = 0;
    while i < v.len()
        invariant
            i <= v.len(),
            strictly_sorted(texts_of(res@)),
            text_set(texts_of(res@)) == text_set(texts_of(v@).take(i as int)),
        decreases v.len() - i,
    {
        let x = &v[i];
        let ghost old_res = texts_of(res@);
        // find the position of x
        let mut pos: usize = 0;
        while pos < res.len() && text_less(res[pos].as_str(), x.as_str())
            invariant
                pos <= res.len(),
                texts_of(res@) == old_res,
                forall|k: int| 0 <= k < pos ==> text_lt(old_res[k], x@),
            decreases res.len() - pos,
        {
            pos = pos + 1;
        }
        let present = pos < res.len() && res[pos] == *x;
        if !present {
            res.insert(pos, copy_string(x));
            proof {
                let new_res = texts_of(res@);
                assert(new_res =~= old_res.insert(pos as int, x@));
                if pos < old_res.len() {
                    lemma_text_lt_total(old_res[pos as int], x@);
                }
                assert forall|a: int, b: int| 0 <= a < b < new_res.len() implies text_lt(new_res[a], new_res[b]) by {
                    if b < pos {
                    } else if b == pos {
                    } else if a < pos {
                        assert(new_res[b] == old_res[b - 1]);
                        assert(new_res[a] == old_res[a]);
                    } else if a == pos {
                        assert(new_res[b] == old_res[b - 1]);
                        if b - 1 > pos {
                            lemma_text_lt_transitive(x@, old_res[pos as int], old_res[b - 1]);
                        }
                    } else {
                        assert(new_res[b] == old_res[b - 1]);
                        assert(new_res[a] == old_res[a - 1]);
                    }
                }
            }
        }
        proof {
            let new_res = texts_of(res@);
            let take1 = texts_of(v@).take(i + 1);
            assert(take1 =~= texts_of(v@).take(i as int).push(x@));
            assert forall|y: Seq<char>| new_res.contains(y) == take1.contains(y) by {
                if new_res.contains(y) {
                    let k = choose|k: int| 0 <= k < new_res.len() && new_res[k] == y;
                    if y != x@ {
                        if !present {
                            if k < pos {
                                assert(old_res[k] == y);
                            } else {
                                assert(old_res[k - 1] == y);
                            }
                        } else {
                            assert(old_res[k] == y);
                        }
                        assert(old_res.contains(y));
                        assert(text_set(old_res).contains(y));
                        assert(texts_of(v@).take(i as int).contains(y));
                        let m = choose|m: int| 0 <= m < i && texts_of(v@).take(i as int)[m] == y;
                        assert(take1[m] == y);
                    } else {
                        assert(take1[i as int] == y);
                    }
                }
                if take1.contains(y) {
                    let m = choose|m: int| 0 <= m < take1.len() && take1[m] == y;
                    if m < i {
                        assert(texts_of(v@).take(i as int)[m] == y);
                        assert(text_set(texts_of(v@).take(i as int)).contains(y));
                        assert(old_res.contains(y));
                        let k = choose|k: int| 0 <= k < old_res.len() && old_res[k] == y;
                        if !present {
                            if k < pos {
                                assert(new_res[k] == y);
                            } else {
                                assert(new_res[k + 1] == y);
                            }
                        } else {
                            assert(new_res[k] == y);
                        }
                    } else {
                        if !present {
                            assert(new_res[pos as int] == y);
                        } else {
                            assert(new_res[pos as int] == y);
                        }
                    }
                }
            }
            assert(text_set(new_res) =~= text_set(take1));
        }
        i = i + 1;
    }
    proof {
        assert(texts_of(v@).take(v.len() as int) =~= texts_of(v@));
    }
    res
}

} // verus!
