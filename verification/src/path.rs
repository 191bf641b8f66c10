//! A component-wise model of filesystem paths.
//!
//! A path is a flag telling whether it starts at the filesystem root and the
//! list of its components. Comparisons (`starts_with`, `strip_prefix`) work on
//! whole components, never on partial names.

use vstd::prelude::*;

verus! {

/// What a path is: whether it starts at the filesystem root, and its
/// components in order.
pub struct PathView {
    pub absolute: bool,
    pub parts: Seq<Seq<char>>,
}

/// A filesystem path held as its components.
pub struct FsPath {
    pub absolute: bool,
    pub parts: Vec<String>,
}

pub open spec fn parts_view(parts: Seq<String>) -> Seq<Seq<char>> {
    parts.map_values(|s: String| s@)
}

impl View for FsPath {
    type V = PathView;

    open spec fn view(&self) -> PathView {
        PathView { absolute: self.absolute, parts: parts_view(self.parts@) }
    }
}

/// `p` starts with `base`, component by component.
pub open spec fn spec_starts_with(p: PathView, base: PathView) -> bool {
    &&& p.absolute == base.absolute
    &&& base.parts.len() <= p.parts.len()
    &&& p.parts.subrange(0, base.parts.len() as int) == base.parts
}

/// The rest of `p` after `base`, as a relative path, when `p` starts with `base`.
pub open spec fn spec_strip_prefix(p: PathView, base: PathView) -> Option<PathView> {
    if spec_starts_with(p, base) {
        Some(PathView { absolute: false, parts: p.parts.skip(base.parts.len() as int) })
    } else {
        None
    }
}

/// `q` appended to `p`; an absolute `q` replaces `p`.
pub open spec fn spec_join(p: PathView, q: PathView) -> PathView {
    if q.absolute {
        q
    } else {
        PathView { absolute: p.absolute, parts: p.parts + q.parts }
    }
}

/// `p` with one more component.
pub open spec fn spec_push(p: PathView, part: Seq<char>) -> PathView {
    PathView { absolute: p.absolute, parts: p.parts.push(part) }
}

pub open spec fn dot() -> Seq<char> {
    seq!['.']
}

pub open spec fn dot_dot() -> Seq<char> {
    seq!['.', '.']
}

/// A component that names an entry: not empty, not `.` and not `..`.
pub open spec fn is_normal_part(part: Seq<char>) -> bool {
    part.len() > 0 && part != dot() && part != dot_dot()
}

/// The last component of `p`, unless there is none or it is `..`.
pub open spec fn spec_file_name(p: PathView) -> Option<Seq<char>> {
    if p.parts.len() > 0 && p.parts.last() != dot_dot() {
        Some(p.parts.last())
    } else {
        None
    }
}

/// The pieces of `s` between `/` separators, empty ones included.
pub open spec fn split_on_slash(s: Seq<char>) -> Seq<Seq<char>>
    decreases s.len(),
{
    if s.len() == 0 {
        seq![Seq::<char>::empty()]
    } else {
        let prev = split_on_slash(s.drop_last());
        if s.last() == '/' {
            prev.push(Seq::<char>::empty())
        } else {
            prev.update(prev.len() - 1, prev.last().push(s.last()))
        }
    }
}

/// A piece of a path string that is kept as a component.
pub open spec fn kept_segment(seg: Seq<char>) -> bool {
    seg.len() > 0 && seg != dot()
}

/// The path that the string `s` denotes: absolute when it starts with `/`,
/// its components being the `/`-separated pieces that are neither empty nor `.`.
pub open spec fn spec_parse(s: Seq<char>) -> PathView {
    PathView {
        absolute: s.len() > 0 && s[0] == '/',
        parts: split_on_slash(s).filter(|seg: Seq<char>| kept_segment(seg)),
    }
}

/// The components of `parts` joined by `/`.
pub open spec fn join_parts(parts: Seq<Seq<char>>) -> Seq<char>
    decreases parts.len(),
{
    if parts.len() == 0 {
        Seq::<char>::empty()
    } else if parts.len() == 1 {
        parts[0]
    } else {
        join_parts(parts.drop_last()) + seq!['/'] + parts.last()
    }
}

/// The text of a path: a leading `/` when it is absolute, then its
/// components joined by `/`.
pub open spec fn spec_display(p: PathView) -> Seq<char> {
    if p.absolute {
        seq!['/'] + join_parts(p.parts)
    } else {
        join_parts(p.parts)
    }
}

/// Filtering a sequence with one more element at its end.
pub proof fn lemma_filter_push<A>(s: Seq<A>, f: spec_fn(A) -> bool, x: A)
    ensures
        f(x) ==> s.push(x).filter(f) == s.filter(f).push(x),
        !f(x) ==> s.push(x).filter(f) == s.filter(f),
{
    reveal(Seq::filter);
    assert(s.push(x).drop_last() =~= s);
}

/// Cloning a string keeps its text.
pub fn copy_string(s: &String) -> (res: String)
    ensures
        res@ == s@,
{
    s.clone()
}

/// A copy of a vector of strings with the same texts.
pub fn copy_strings(v: &Vec<String>) -> (res: Vec<String>)
    ensures
        parts_view(res@) == parts_view(v@),
        res@.len() == v@.len(),
        forall|i: int| 0 <= i < v@.len() ==> #[trigger] res@[i]@ == v@[i]@,
{
    let mut res: Vec<String> = Vec::new();
    let mut i: usize = 0;
    while i < v.len()
        invariant
            i <= v.len(),
            res@.len() == i,
            forall|j: int| 0 <= j < i ==> #[trigger] res@[j]@ == v@[j]@,
        decreases v.len() - i,
    {
        res.push(v[i].clone());
        i = i + 1;
    }
    assert(parts_view(res@) =~= parts_view(v@));
    res
}

/// The characters of `s`.
pub fn chars_of(s: &str) -> (res: Vec<char>)
    ensures
        res@ == s@,
{
    let mut res: Vec<char> = Vec::new();
    for c in it: s.chars()
        invariant
            res@ == it.seq().take(it.index()),
            it.seq() == s@,
    {
        res.push(c);
    }
    res
}

impl FsPath {
    /// The filesystem root `/`.
    pub fn root() -> (res: FsPath)
        ensures
            res@ == (PathView { absolute: true, parts: Seq::<Seq<char>>::empty() }),
    {
        let res = FsPath { absolute: true, parts: Vec::new() };
        assert(res@.parts =~= Seq::<Seq<char>>::empty());
        res
    }

    /// A copy of this path.
    pub fn duplicate(&self) -> (res: FsPath)
        ensures
            res@ == self@,
    {
        FsPath { absolute: self.absolute, parts: copy_strings(&self.parts) }
    }

    /// Whether both paths have the same components and the same start.
    pub fn same_as(&self, other: &FsPath) -> (res: bool)
        ensures
            res == (self@ == other@),
    {
        if self.absolute != other.absolute || self.parts.len() != other.parts.len() {
            assert(self@.parts.len() == self.parts@.len());
            assert(other@.parts.len() == other.parts@.len());
            return false;
        }
        let mut i: usize = 0;
        while i < self.parts.len()
            invariant
                i <= self.parts.len() == other.parts.len(),
                forall|j: int| 0 <= j < i ==> self.parts@[j]@ == other.parts@[j]@,
            decreases self.parts.len() - i,
        {
            if self.parts[i] != other.parts[i] {
                assert(self@.parts[i as int] != other@.parts[i as int]);
                return false;
            }
            i = i + 1;
        }
        assert(self@.parts =~= other@.parts);
        true
    }

    /// Whether this path starts with `base`, component by component.
    pub fn starts_with(&self, base: &FsPath) -> (res: bool)
        ensures
            res == spec_starts_with(self@, base@),
    {
        if self.absolute != base.absolute || base.parts.len() > self.parts.len() {
            return false;
        }
        let mut i: usize = 0;
        while i < base.parts.len()
            invariant
                i <= base.parts.len() <= self.parts.len(),
                self.absolute == base.absolute,
                forall|j: int| 0 <= j < i ==> self.parts@[j]@ == base.parts@[j]@,
            decreases base.parts.len() - i,
        {
            if self.parts[i] != base.parts[i] {
                assert(self@.parts[i as int] != base@.parts[i as int]);
                return false;
            }
            i = i + 1;
        }
        assert(self@.parts.subrange(0, base@.parts.len() as int) =~= base@.parts);
        true
    }

    /// The rest of this path after `base`, as a relative path.
    pub fn strip_prefix(&self, base: &FsPath) -> (res: Option<FsPath>)
        ensures
            res matches Some(r) ==> spec_strip_prefix(self@, base@) == Some(r@),
            res is None ==> spec_strip_prefix(self@, base@) is None,
    {
        if !self.starts_with(base) {
            return None;
        }
        let mut parts: Vec<String> = Vec::new();
        let mut i: usize = base.parts.len();
        while i < self.parts.len()
            invariant
                base.parts.len() <= i <= self.parts.len(),
                parts@.len() == i - base.parts.len(),
                forall|j: int|
                    0 <= j < parts@.len() ==> #[trigger] parts@[j]@ == self.parts@[j
                        + base.parts.len()]@,
            decreases self.parts.len() - i,
        {
            parts.push(self.parts[i].clone());
            i = i + 1;
        }
        let res = FsPath { absolute: false, parts };
        assert(res@.parts =~= self@.parts.skip(base@.parts.len() as int));
        Some(res)
    }

    /// This path with one more component `part`.
    pub fn push_part(&self, part: &str) -> (res: FsPath)
        ensures
            res@ == spec_push(self@, part@),
    {
        let mut parts = copy_strings(&self.parts);
        parts.push(part.to_owned());
        let res = FsPath { absolute: self.absolute, parts };
        assert(res@.parts =~= self@.parts.push(part@));
        res
    }

    /// `other` appended to this path; an absolute `other` replaces it.
    pub fn join(&self, other: &FsPath) -> (res: FsPath)
        ensures
            res@ == spec_join(self@, other@),
    {
        if other.absolute {
            return other.duplicate();
        }
        let mut parts = copy_strings(&self.parts);
        let ghost start = parts@;
        let mut i: usize = 0;
        while i < other.parts.len()
            invariant
                i <= other.parts.len(),
                parts@.len() == self.parts@.len() + i,
                forall|j: int|
                    0 <= j < self.parts@.len() ==> #[trigger] parts@[j]@ == self.parts@[j]@,
                forall|j: int|
                    0 <= j < i ==> #[trigger] parts@[self.parts@.len() + j]@
                        == other.parts@[j]@,
            decreases other.parts.len() - i,
        {
            parts.push(other.parts[i].clone());
            i = i + 1;
        }
        let res = FsPath { absolute: self.absolute, parts };
        assert(res@.parts =~= self@.parts + other@.parts) by {
            assert forall|j: int| 0 <= j < res@.parts.len() implies res@.parts[j] == (
            self@.parts + other@.parts)[j] by {
                if j >= self.parts@.len() {
                    let k = j - self.parts@.len();
                    assert(parts@[self.parts@.len() + k]@ == other.parts@[k]@);
                }
            }
        }
        res
    }

    /// The path that the text `s` denotes (see `spec_parse`), joined to this path.
    pub fn join_str(&self, s: &str) -> (res: FsPath)
        ensures
            res@ == spec_join(self@, spec_parse(s@)),
    {
        self.join(&FsPath::parse(s))
    }

    /// The path that the text `s` denotes: pieces between `/` separators,
    /// leaving out empty pieces and `.`.
    pub fn parse(s: &str) -> (res: FsPath)
        ensures
            res@ == spec_parse(s@),
    {
        let chars = chars_of(s);
        let ghost text = s@;
        let mut parts: Vec<String> = Vec::new();
        let mut start: usize = 0;
        let mut i: usize = 0;
        proof {
            assert(text.take(0) =~= Seq::<char>::empty());
        }
        while i < chars.len()
            invariant
                chars@ == text,
                text == s@,
                start <= i <= chars.len(),
                ({
                    let segs = split_on_slash(text.take(i as int));
                    &&& segs.len() >= 1
                    &&& segs.last() == text.subrange(start as int, i as int)
                    &&& parts_view(parts@) == segs.drop_last().filter(
                        |seg: Seq<char>| kept_segment(seg),
                    )
                }),
            decreases chars.len() - i,
        {
            let ghost segs = split_on_slash(text.take(i as int));
            assert(text.take(i + 1).drop_last() =~= text.take(i as int));
            if chars[i] == '/' {
                let piece = s.substring_char(start, i);
                let keep = piece.unicode_len() > 0 && !(piece.unicode_len() == 1
                    && piece.get_char(0) == '.');
                let ghost old_parts = parts@;
                if keep {
                    parts.push(piece.to_owned());
                }
                proof {
                    let segs2 = split_on_slash(text.take(i + 1));
                    assert(segs2 == segs.push(Seq::<char>::empty()));
                    assert(segs2.drop_last() =~= segs);
                    assert(segs =~= segs.drop_last().push(segs.last()));
                    let f = |seg: Seq<char>| kept_segment(seg);
                    lemma_filter_push(segs.drop_last(), f, segs.last());
                    assert(piece@ == segs.last());
                    if keep {
                        assert(kept_segment(piece@)) by {
                            if piece@ == dot() {
                                assert(piece@.len() == 1);
                            }
                        }
                        assert(parts_view(parts@) =~= parts_view(old_parts).push(piece@));
                    } else {
                        assert(!kept_segment(piece@)) by {
                            if piece@.len() == 1 {
                                assert(piece@ =~= dot());
                            }
                        }
                        assert(parts_view(parts@) =~= parts_view(old_parts));
                    }
                    assert(text.subrange(i + 1, i + 1) =~= Seq::<char>::empty());
                }
                start = i + 1;
            } else {
                proof {
                    let segs2 = split_on_slash(text.take(i + 1));
                    assert(segs2 == segs.update(segs.len() - 1, segs.last().push(text[i as int])));
                    assert(segs2.drop_last() =~= segs.drop_last());
                    assert(segs2.last() =~= text.subrange(start as int, i + 1));
                }
            }
            i = i + 1;
        }
        let piece = s.substring_char(start, i);
        let keep = piece.unicode_len() > 0 && !(piece.unicode_len() == 1 && piece.get_char(0)
            == '.');
        let ghost old_parts = parts@;
        if keep {
            parts.push(piece.to_owned());
        }
        let absolute = chars.len() > 0 && chars[0] == '/';
        let res = FsPath { absolute, parts };
        proof {
            assert(text.take(text.len() as int) =~= text);
            let segs = split_on_slash(text);
            assert(segs =~= segs.drop_last().push(segs.last()));
            let f = |seg: Seq<char>| kept_segment(seg);
            lemma_filter_push(segs.drop_last(), f, segs.last());
            if keep {
                assert(kept_segment(piece@)) by {
                    if piece@ == dot() {
                        assert(piece@.len() == 1);
                    }
                }
                assert(parts_view(parts@) =~= parts_view(old_parts).push(piece@));
            } else {
                assert(!kept_segment(piece@)) by {
                    if piece@.len() == 1 {
                        assert(piece@ =~= dot());
                    }
                }
                assert(parts_view(parts@) =~= parts_view(old_parts));
            }
        }
        res
    }

    /// The last component, unless the path has none or it is `..`.
    pub fn file_name(&self) -> (res: Option<String>)
        ensures
            res matches Some(n) ==> spec_file_name(self@) == Some(n@),
            res is None ==> spec_file_name(self@) is None,
    {
        let n = self.parts.len();
        if n == 0 {
            return None;
        }
        let last = &self.parts[n - 1];
        if last.as_str().unicode_len() == 2 && last.as_str().get_char(0) == '.'
            && last.as_str().get_char(1) == '.' {
            assert(last@ =~= dot_dot());
            return None;
        }
        proof {
            if last@ == dot_dot() {
                assert(last@.len() == 2);
            }
        }
        Some(last.clone())
    }

    /// The text of this path: a leading `/` when absolute, then the
    /// components joined by `/`.
    pub fn display_string(&self) -> (res: String)
        ensures
            res@ == spec_display(self@),
    {
        let mut text = String::new();
        let mut i: usize = 0;
        while i < self.parts.len()
            invariant
                i <= self.parts.len(),
                text@ == join_parts(self@.parts.take(i as int)),
            decreases self.parts.len() - i,
        {
            proof {
                assert(self@.parts.take(i + 1).drop_last() =~= self@.parts.take(i as int));
            }
            if i > 0 {
                text.append("/");
                proof {
                    reveal_strlit("/");
                }
            }
            text.append(self.parts[i].as_str());
            proof {
                if i == 0 {
                    assert(self@.parts.take(1) =~= seq![self@.parts[0]]);
                    assert(text@ =~= self@.parts[0]);
                } else {
                    assert(text@ =~= join_parts(self@.parts.take(i as int)) + seq!['/']
                        + self@.parts[i as int]);
                }
            }
            i = i + 1;
        }
        assert(self@.parts.take(self.parts.len() as int) =~= self@.parts);
        if self.absolute {
            let mut full = String::new();
            full.append("/");
            proof {
                reveal_strlit("/");
            }
            full.append(text.as_str());
            assert(full@ =~= seq!['/'] + join_parts(self@.parts));
            full
        } else {
            text
        }
    }
}


/// `p` without its last component; `p` itself when it has none.
pub open spec fn spec_parent(p: PathView) -> PathView {
    if p.parts.len() > 0 {
        PathView { absolute: p.absolute, parts: p.parts.drop_last() }
    } else {
        p
    }
}

impl FsPath {
    /// This path without its last component; the path itself when it has none.
    pub fn parent(&self) -> (res: FsPath)
        ensures
            res@ == spec_parent(self@),
    {
        let mut parts = copy_strings(&self.parts);
        if parts.len() > 0 {
            parts.pop();
        }
        let res = FsPath { absolute: self.absolute, parts };
        assert(res@.parts =~= spec_parent(self@).parts);
        res
    }
}

/// Joining a relative path below a base and stripping the base again gives
/// the relative path back; a path that starts with a base is that base
/// joined with what remains; every path starts with itself.
pub proof fn lemma_join_strip_law(p: PathView, q: PathView)
    ensures
        !q.absolute ==> spec_strip_prefix(spec_join(p, q), p) == Some(q),
        spec_starts_with(p, p),
        spec_strip_prefix(q, p) matches Some(r) ==> spec_join(p, r) == q,
{
    assert(p.parts.subrange(0, p.parts.len() as int) =~= p.parts);
    if !q.absolute {
        let j = spec_join(p, q);
        assert(j.parts.subrange(0, p.parts.len() as int) =~= p.parts);
        assert(j.parts.skip(p.parts.len() as int) =~= q.parts);
    }
    if let Some(r) = spec_strip_prefix(q, p) {
        assert(p.parts + r.parts =~= q.parts) by {
            assert(q.parts.subrange(0, p.parts.len() as int) == p.parts);
        }
    }
}

} // verus!
