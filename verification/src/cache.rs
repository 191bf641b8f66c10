//! Dotfiles sorted by group: a map from a group's name to the set of its
//! dotfiles, kept in the order the groups were added.

use vstd::prelude::*;
use crate::dotfiles::{Dotfile, DotfileView};
use crate::order::texts_of;
use crate::path::{copy_string, spec_starts_with};

verus! {

pub open spec fn files_view(v: Seq<Dotfile>) -> Seq<DotfileView> {
    v.map_values(|d: Dotfile| d@)
}

/// The dotfiles of `v` as a set.
pub open spec fn files_set(v: Seq<Dotfile>) -> Set<DotfileView> {
    files_view(v).to_set()
}

/// `f` lies below another dotfile of `g`: a symlink of that dotfile already
/// covers it.
pub open spec fn covered_in(g: Set<DotfileView>, f: DotfileView) -> bool {
    exists|h: DotfileView| #[trigger] g.contains(h) && h.path != f.path && spec_starts_with(f.path, h.path)
}

/// The dotfiles of `g` that no other dotfile of `g` covers. Symlinking
/// only these keeps symlinks shallow.
pub open spec fn canon(g: Set<DotfileView>) -> Set<DotfileView> {
    g.filter(|f: DotfileView| !covered_in(g, f))
}

/// `f` lies at or below one of the dotfiles of `s`.
pub open spec fn under_any(s: Set<DotfileView>, f: DotfileView) -> bool {
    exists|h: DotfileView| #[trigger] s.contains(h) && spec_starts_with(f.path, h.path)
}

/// A group holds some dotfile.
pub open spec fn nonempty(g: Set<DotfileView>) -> bool {
    exists|d: DotfileView| g.contains(d)
}

/// Whether `v` holds a dotfile with path `d.path`.
pub fn has_path(v: &Vec<Dotfile>, d: &Dotfile) -> (res: bool)
    ensures
        res == exists|j: int| 0 <= j < v@.len() && (#[trigger] v@[j]).path@ == d.path@,
{
    let mut j: usize = 0;
    while j < v.len()
        invariant
            j <= v.len(),
            forall|k: int| 0 <= k < j ==> (#[trigger] v@[k]).path@ != d.path@,
        decreases v.len() - j,
    {
        if v[j].path.same_as(&d.path) {
            return true;
        }
        j = j + 1;
    }
    false
}

/// Whether some dotfile of `v` with another path than `f` lies above `f`
/// (`strict`), or some dotfile of `v` lies at or above `f` (not `strict`).
fn has_cover(v: &Vec<Dotfile>, f: &Dotfile, strict: bool) -> (res: bool)
    ensures
        res == exists|j: int|
            0 <= j < v@.len() && (strict ==> (#[trigger] v@[j]).path@ != f.path@) && spec_starts_with(
                f.path@,
                v@[j].path@,
            ),
{
    let mut j: usize = 0;
    while j < v.len()
        invariant
            j <= v.len(),
            forall|k: int|
                0 <= k < j ==> !((strict ==> (#[trigger] v@[k]).path@ != f.path@) && spec_starts_with(
                    f.path@,
                    v@[k].path@,
                )),
        decreases v.len() - j,
    {
        if (!strict || !v[j].path.same_as(&f.path)) && f.path.starts_with(&v[j].path) {
            return true;
        }
        j = j + 1;
    }
    false
}

pub proof fn lemma_files_set_contains(v: Seq<Dotfile>, j: int)
    requires
        0 <= j < v.len(),
    ensures
        files_set(v).contains(v[j]@),
{
    assert(files_view(v)[j] == v[j]@);
}

pub proof fn lemma_files_set_push(before: Seq<Dotfile>, d: Dotfile)
    ensures
        files_set(before.push(d)) == files_set(before).insert(d@),
{
    assert(files_view(before.push(d)) =~= files_view(before).push(d@));
    assert forall|h: DotfileView| files_set(before.push(d)).contains(h) == files_set(before).insert(d@).contains(h) by {
        if files_set(before.push(d)).contains(h) {
            let j = choose|j: int| 0 <= j < files_view(before.push(d)).len() && files_view(before.push(d))[j] == h;
            if j < before.len() {
                assert(files_view(before)[j] == h);
            }
        }
        if files_set(before).contains(h) {
            let j = choose|j: int| 0 <= j < files_view(before).len() && files_view(before)[j] == h;
            assert(files_view(before.push(d))[j] == h);
        }
        if h == d@ {
            assert(files_view(before.push(d))[before.len() as int] == h);
        }
    }
    assert(files_set(before.push(d)) =~= files_set(before).insert(d@));
}

/// Adding a dotfile that `v` does not hold keeps the dotfiles of `v`
/// distinct.
pub proof fn lemma_push_distinct(v: Seq<Dotfile>, d: Dotfile)
    requires
        files_view(v).no_duplicates(),
        !files_set(v).contains(d@),
    ensures
        files_view(v.push(d)).no_duplicates(),
{
    let w = files_view(v.push(d));
    assert(w =~= files_view(v).push(d@));
    assert forall|a: int, b: int| 0 <= a < w.len() && 0 <= b < w.len() && a != b implies w[a] != w[b] by {
        if a < v.len() && b < v.len() {
            assert(w[a] == files_view(v)[a]);
            assert(w[b] == files_view(v)[b]);
        } else if a < v.len() {
            assert(w[a] == files_view(v)[a]);
            assert(files_set(v).contains(w[a]));
        } else if b < v.len() {
            assert(w[b] == files_view(v)[b]);
            assert(files_set(v).contains(w[b]));
        }
    }
}

pub proof fn lemma_files_set_member(v: Seq<Dotfile>, h: DotfileView) -> (j: int)
    requires
        files_set(v).contains(h),
    ensures
        0 <= j < v.len(),
        v[j]@ == h,
{
    choose|j: int| 0 <= j < files_view(v).len() && files_view(v)[j] == h
}

/// The dotfiles of `v` that no other dotfile of `v` covers.
pub fn canonical(v: &Vec<Dotfile>) -> (res: Vec<Dotfile>)
    ensures
        files_set(res@) == canon(files_set(v@)),
        files_view(v@).no_duplicates() ==> files_view(res@).no_duplicates(),
{
    let ghost g = files_set(v@);
    let mut res: Vec<Dotfile> = Vec::new();
    let ghost mut picked: Seq<int> = Seq::empty();
    let mut i: usize = 0;
    while i < v.len()
        invariant
            i <= v.len(),
            g == files_set(v@),
            picked.len() == res@.len(),
            forall|j: int| 0 <= j < res@.len() ==> 0 <= #[trigger] picked[j] < i && res@[j]@ == v@[picked[j]]@,
            forall|a: int, b: int| 0 <= a < b < res@.len() ==> #[trigger] picked[a] < #[trigger] picked[b],
            forall|k: int| 0 <= k < i ==> (!covered_in(g, #[trigger] v@[k]@) <==> files_set(res@).contains(v@[k]@)),
            forall|h: DotfileView| #[trigger] files_set(res@).contains(h) ==> g.contains(h) && !covered_in(g, h),
        decreases v.len() - i,
    {
        let c = has_cover(v, &v[i], true);
        let ghost f = v@[i as int]@;
        proof {
            if c {
                let j = choose|j: int|
                    0 <= j < v@.len() && (v@[j]).path@ != v@[i as int].path@ && spec_starts_with(
                        v@[i as int].path@,
                        v@[j].path@,
                    );
                lemma_files_set_contains(v@, j);
                assert(covered_in(g, f));
            } else {
                if covered_in(g, f) {
                    let h = choose|h: DotfileView| #[trigger] g.contains(h) && h.path != f.path && spec_starts_with(f.path, h.path);
                    let j = lemma_files_set_member(v@, h);
                    assert(false);
                }
            }
            assert(c == covered_in(g, f));
        }
        if !c {
            let ghost before = res@;
            res.push(v[i].duplicate());
            proof {
                picked = picked.push(i as int);
                assert(res@ =~= before.push(res@.last()));
                lemma_files_set_push(before, res@.last());
                lemma_files_set_contains(v@, i as int);
            }
        }
        i = i + 1;
    }
    proof {
        assert forall|h: DotfileView| files_set(res@).contains(h) == canon(g).contains(h) by {
            if g.contains(h) && !covered_in(g, h) {
                let k = lemma_files_set_member(v@, h);
            }
        }
        assert(files_set(res@) =~= canon(g));
        if files_view(v@).no_duplicates() {
            assert forall|a: int, b: int| 0 <= a < files_view(res@).len() && 0 <= b < files_view(res@).len() && a != b
                implies files_view(res@)[a] != files_view(res@)[b] by {
                if a < b {
                    assert(picked[a] < picked[b]);
                } else {
                    assert(picked[b] < picked[a]);
                }
                assert(files_view(v@)[picked[a]] == v@[picked[a]]@);
                assert(files_view(v@)[picked[b]] == v@[picked[b]]@);
            }
        }
    }
    res
}

/// The dotfiles of `n` that lie at or below none of the dotfiles of `s`.
pub fn drop_covered(n: &Vec<Dotfile>, s: &Vec<Dotfile>) -> (res: Vec<Dotfile>)
    ensures
        files_set(res@) == files_set(n@).filter(|f: DotfileView| !under_any(files_set(s@), f)),
        files_view(n@).no_duplicates() ==> files_view(res@).no_duplicates(),
{
    let ghost gs = files_set(s@);
    let mut res: Vec<Dotfile> = Vec::new();
    let ghost mut picked: Seq<int> = Seq::empty();
    let mut i: usize = 0;
    while i < n.len()
        invariant
            i <= n.len(),
            gs == files_set(s@),
            picked.len() == res@.len(),
            forall|j: int| 0 <= j < res@.len() ==> 0 <= #[trigger] picked[j] < i && res@[j]@ == n@[picked[j]]@,
            forall|a: int, b: int| 0 <= a < b < res@.len() ==> #[trigger] picked[a] < #[trigger] picked[b],
            forall|k: int| 0 <= k < i ==> (!under_any(gs, #[trigger] n@[k]@) ==> files_set(res@).contains(n@[k]@)),
            forall|h: DotfileView| #[trigger] files_set(res@).contains(h) ==> files_set(n@).contains(h) && !under_any(gs, h),
        decreases n.len() - i,
    {
        let c = has_cover(s, &n[i], false);
        let ghost f = n@[i as int]@;
        proof {
            if c {
                let j = choose|j: int| 0 <= j < s@.len() && spec_starts_with(n@[i as int].path@, s@[j].path@);
                lemma_files_set_contains(s@, j);
                assert(under_any(gs, f));
            } else {
                if under_any(gs, f) {
                    let h = choose|h: DotfileView| #[trigger] gs.contains(h) && spec_starts_with(f.path, h.path);
                    let j = lemma_files_set_member(s@, h);
                    assert(false);
                }
            }
            assert(c == under_any(gs, f));
        }
        if !c {
            let ghost before = res@;
            res.push(n[i].duplicate());
            proof {
                picked = picked.push(i as int);
                assert(res@ =~= before.push(res@.last()));
                lemma_files_set_push(before, res@.last());
                lemma_files_set_contains(n@, i as int);
            }
        }
        i = i + 1;
    }
    proof {
        let want = files_set(n@).filter(|f: DotfileView| !under_any(gs, f));
        assert forall|h: DotfileView| files_set(res@).contains(h) == want.contains(h) by {
            if want.contains(h) {
                let k = lemma_files_set_member(n@, h);
            }
        }
        assert(files_set(res@) =~= want);
        if files_view(n@).no_duplicates() {
            assert forall|a: int, b: int| 0 <= a < files_view(res@).len() && 0 <= b < files_view(res@).len() && a != b
                implies files_view(res@)[a] != files_view(res@)[b] by {
                if a < b {
                    assert(picked[a] < picked[b]);
                } else {
                    assert(picked[b] < picked[a]);
                }
                assert(files_view(n@)[picked[a]] == n@[picked[a]]@);
                assert(files_view(n@)[picked[b]] == n@[picked[b]]@);
            }
        }
    }
    res
}

/// Dotfiles sorted by group: each group once, with a nonempty set of its
/// dotfiles, in the order the groups were added.
pub struct GroupCache {
    names: Vec<String>,
    files: Vec<Vec<Dotfile>>,
}

impl View for GroupCache {
    type V = Map<Seq<char>, Set<DotfileView>>;

    /// Each group's name mapped to the set of its dotfiles.
    closed spec fn view(&self) -> Map<Seq<char>, Set<DotfileView>> {
        Map::new(|g: Seq<char>| self.order().contains(g), |g: Seq<char>| files_set(self.files@[self.slot(g)]@))
    }
}

impl GroupCache {
    /// The names of the groups, in the order they were added.
    pub closed spec fn order(self) -> Seq<Seq<char>> {
        texts_of(self.names@)
    }

    closed spec fn slot(self, g: Seq<char>) -> int {
        choose|i: int| 0 <= i < self.names@.len() && self.names@[i]@ == g
    }

    /// Each group once, each with some dotfiles, each dotfile once and
    /// belonging to its group.
    pub closed spec fn wf(self) -> bool {
        &&& self.names@.len() == self.files@.len()
        &&& self.order().no_duplicates()
        &&& forall|i: int| 0 <= i < self.files@.len() ==> (#[trigger] self.files@[i])@.len() > 0
        &&& forall|i: int, j: int|
            0 <= i < self.files@.len() && 0 <= j < self.files@[i]@.len() ==> (#[trigger] self.files@[i]@[j]).group_name@
                == self.names@[i]@
        &&& forall|i: int| 0 <= i < self.files@.len() ==> files_view((#[trigger] self.files@[i])@).no_duplicates()
    }

    proof fn lemma_slot(self, i: int)
        requires
            self.wf(),
            0 <= i < self.names@.len(),
        ensures
            self.slot(self.names@[i]@) == i,
    {
        let g = self.names@[i]@;
        assert(self.order()[i] == g);
        let k = self.slot(g);
        assert(self.order()[k] == g);
    }

    /// What a well-formed cache holds: its domain is the set of its group
    /// names, each group holds some dotfile, and each dotfile of a group
    /// names that group.
    pub proof fn lemma_wf(self)
        requires
            self.wf(),
        ensures
            forall|g: Seq<char>| #[trigger] self@.dom().contains(g) <==> self.order().contains(g),
            self.order().no_duplicates(),
            forall|g: Seq<char>| #[trigger] self@.dom().contains(g) ==> nonempty(self@[g]),
            forall|g: Seq<char>, d: DotfileView|
                self@.dom().contains(g) && #[trigger] self@[g].contains(d) ==> d.group_name == g,
    {
        assert forall|g: Seq<char>| #[trigger] self@.dom().contains(g) implies nonempty(self@[g]) by {
            let k = choose|k: int| 0 <= k < self.order().len() && self.order()[k] == g;
            assert(self.names@[k]@ == g);
            self.lemma_slot(k);
            lemma_files_set_contains(self.files@[k]@, 0);
        }
        assert forall|g: Seq<char>, d: DotfileView|
            self@.dom().contains(g) && #[trigger] self@[g].contains(d) implies d.group_name == g by {
            let k = choose|k: int| 0 <= k < self.order().len() && self.order()[k] == g;
            assert(self.names@[k]@ == g);
            self.lemma_slot(k);
            let j = lemma_files_set_member(self.files@[k]@, d);
        }
    }

    /// A cache without groups.
    pub fn new() -> (res: GroupCache)
        ensures
            res.wf(),
            res.order() == Seq::<Seq<char>>::empty(),
            res@ == Map::<Seq<char>, Set<DotfileView>>::empty(),
    {
        let res = GroupCache { names: Vec::new(), files: Vec::new() };
        assert(res.order() =~= Seq::<Seq<char>>::empty());
        assert(res@ =~= Map::<Seq<char>, Set<DotfileView>>::empty());
        res
    }

    /// Adds the group `name` with the dotfiles `files`.
    pub fn push_group(&mut self, name: String, files: Vec<Dotfile>)
        requires
            old(self).wf(),
            !old(self).order().contains(name@),
            files@.len() > 0,
            forall|j: int| 0 <= j < files@.len() ==> (#[trigger] files@[j]).group_name@ == name@,
            files_view(files@).no_duplicates(),
        ensures
            final(self).wf(),
            final(self).order() == old(self).order().push(name@),
            final(self)@ == old(self)@.insert(name@, files_set(files@)),
    {
        let ghost old_self = *self;
        let ghost nm = name@;
        let ghost fs = files_set(files@);
        self.names.push(name);
        self.files.push(files);
        proof {
            assert(self.order() =~= old_self.order().push(nm));
            let n = old_self.names@.len() as int;
            assert forall|a: int, b: int|
                0 <= a < self.order().len() && 0 <= b < self.order().len() && a != b implies self.order()[a]
                != self.order()[b] by {
                if a < n && b < n {
                    assert(self.order()[a] == old_self.order()[a]);
                    assert(self.order()[b] == old_self.order()[b]);
                } else if a < n {
                    assert(self.order()[a] == old_self.order()[a]);
                } else if b < n {
                    assert(self.order()[b] == old_self.order()[b]);
                }
            }
            assert forall|i: int, j: int|
                0 <= i < self.files@.len() && 0 <= j < self.files@[i]@.len() implies (#[trigger] self.files@[i]@[j]).group_name@
                == self.names@[i]@ by {
                if i < n {
                    assert(self.files@[i] == old_self.files@[i]);
                    assert(self.names@[i] == old_self.names@[i]);
                }
            }
            assert forall|g: Seq<char>| #[trigger] self@.dom().contains(g) == old_self@.insert(nm, fs).dom().contains(g) by {
                if self.order().contains(g) && g != nm {
                    let k = choose|k: int| 0 <= k < self.order().len() && self.order()[k] == g;
                    assert(old_self.order()[k] == g);
                }
                if old_self.order().contains(g) {
                    let k = choose|k: int| 0 <= k < old_self.order().len() && old_self.order()[k] == g;
                    assert(self.order()[k] == g);
                }
                if g == nm {
                    assert(self.order()[n] == g);
                }
            }
            assert forall|g: Seq<char>| #[trigger] self@.dom().contains(g) implies self@[g] == old_self@.insert(nm, fs)[g] by {
                let k = choose|k: int| 0 <= k < self.order().len() && self.order()[k] == g;
                assert(self.names@[k]@ == g);
                self.lemma_slot(k);
                if k < n {
                    assert(old_self.names@[k]@ == g);
                    old_self.lemma_slot(k);
                    assert(self.files@[k] == old_self.files@[k]);
                }
            }
            assert(self@ =~= old_self@.insert(nm, fs));
        }
    }

    /// Whether the cache holds no group.
    pub fn is_empty(&self) -> (res: bool)
        requires
            self.wf(),
        ensures
            res == (self.order().len() == 0),
            res == (self@ == Map::<Seq<char>, Set<DotfileView>>::empty()),
    {
        let res = self.names.len() == 0;
        proof {
            if res {
                assert(self@ =~= Map::<Seq<char>, Set<DotfileView>>::empty());
            } else {
                assert(self.order()[0] == self.names@[0]@);
                assert(self@.dom().contains(self.names@[0]@));
                assert(!Map::<Seq<char>, Set<DotfileView>>::empty().dom().contains(self.names@[0]@));
            }
        }
        res
    }

    /// The names of the groups, in order.
    pub fn keys(&self) -> (res: Vec<String>)
        ensures
            texts_of(res@) == self.order(),
    {
        let mut res: Vec<String> = Vec::new();
        let mut i: usize = 0;
        while i < self.names.len()
            invariant
                i <= self.names@.len(),
                texts_of(res@) == self.order().take(i as int),
            decreases self.names@.len() - i,
        {
            res.push(copy_string(&self.names[i]));
            proof {
                assert(self.order().take(i + 1) =~= self.order().take(i as int).push(self.names@[i as int]@));
                assert(texts_of(res@) =~= texts_of(res@).drop_last().push(self.names@[i as int]@));
            }
            i = i + 1;
        }
        assert(self.order().take(self.names@.len() as int) =~= self.order());
        res
    }

    fn find(&self, g: &str) -> (res: Option<usize>)
        requires
            self.wf(),
        ensures
            res is Some == self.order().contains(g@),
            res matches Some(i) ==> i < self.names@.len() && self.names@[i as int]@ == g@ && self.slot(g@) == i,
    {
        let mut i: usize = 0;
        while i < self.names.len()
            invariant
                self.wf(),
                i <= self.names@.len(),
                forall|k: int| 0 <= k < i ==> (#[trigger] self.names@[k])@ != g@,
            decreases self.names@.len() - i,
        {
            if crate::text::text_eq(self.names[i].as_str(), g) {
                proof {
                    self.lemma_slot(i as int);
                    assert(self.order()[i as int] == g@);
                }
                return Some(i);
            }
            i = i + 1;
        }
        proof {
            if self.order().contains(g@) {
                let k = choose|k: int| 0 <= k < self.order().len() && self.order()[k] == g@;
                assert(self.names@[k]@ == g@);
            }
        }
        None
    }

    /// Whether the cache holds the group `g`.
    pub fn contains_key(&self, g: &str) -> (res: bool)
        requires
            self.wf(),
        ensures
            res == self@.dom().contains(g@),
    {
        self.find(g).is_some()
    }

    /// The dotfiles of the group `g`, each once.
    pub fn get(&self, g: &str) -> (res: Option<&Vec<Dotfile>>)
        requires
            self.wf(),
        ensures
            res is Some == self@.dom().contains(g@),
            res matches Some(v) ==> {
                &&& files_set(v@) == self@[g@]
                &&& files_view(v@).no_duplicates()
                &&& v@.len() > 0
                &&& forall|j: int| 0 <= j < v@.len() ==> (#[trigger] v@[j]).group_name@ == g@
            },
    {
        match self.find(g) {
            Some(i) => Some(&self.files[i]),
            None => None,
        }
    }
}

/// The map from the groups named in `names` whose dotfiles `f` gives are
/// some, to those dotfiles.
pub open spec fn prefix_map(f: spec_fn(Seq<char>) -> Set<DotfileView>, names: Seq<Seq<char>>) -> Map<Seq<char>, Set<DotfileView>> {
    Map::new(|g: Seq<char>| names.contains(g) && nonempty(f(g)), |g: Seq<char>| f(g))
}

/// Going through one more name: its group is added when it has dotfiles.
pub proof fn lemma_prefix_step(
    f: spec_fn(Seq<char>) -> Set<DotfileView>,
    names: Seq<Seq<char>>,
    k: int,
    old_m: Map<Seq<char>, Set<DotfileView>>,
    new_m: Map<Seq<char>, Set<DotfileView>>,
    v: Seq<Dotfile>,
)
    requires
        0 <= k < names.len(),
        old_m == prefix_map(f, names.take(k)),
        files_set(v) == f(names[k]),
        v.len() > 0 ==> new_m == old_m.insert(names[k], files_set(v)),
        v.len() == 0 ==> new_m == old_m,
    ensures
        new_m == prefix_map(f, names.take(k + 1)),
{
    let g = names[k];
    let t0 = names.take(k);
    let t1 = names.take(k + 1);
    assert(t1 =~= t0.push(g));
    assert forall|x: Seq<char>| #[trigger] t1.contains(x) == (t0.contains(x) || x == g) by {
        if t1.contains(x) {
            let m = choose|m: int| 0 <= m < t1.len() && t1[m] == x;
            if m < k {
                assert(t0[m] == x);
            }
        }
        if t0.contains(x) {
            let m = choose|m: int| 0 <= m < t0.len() && t0[m] == x;
            assert(t1[m] == x);
        }
        if x == g {
            assert(t1[k] == x);
        }
    }
    if v.len() > 0 {
        lemma_files_set_contains(v, 0);
    } else {
        let fg = f(g);
        assert forall|d: DotfileView| !fg.contains(d) by {
            if fg.contains(d) {
                let j = lemma_files_set_member(v, d);
            }
        }
    }
    assert(new_m =~= prefix_map(f, t1));
}

/// Only the topmost dotfiles of a group are kept: what is kept is in the
/// group, no kept dotfile lies below another kept one, and a dotfile with
/// no other dotfile of the group above it is kept.
pub proof fn lemma_canon_law(g: Set<DotfileView>, f1: DotfileView, f2: DotfileView)
    ensures
        canon(g).contains(f1) ==> g.contains(f1),
        canon(g).contains(f1) && canon(g).contains(f2) && f1.path != f2.path ==> !spec_starts_with(f1.path, f2.path),
        g.contains(f1) && (forall|h: DotfileView| #[trigger] g.contains(h) && h.path != f1.path ==> !spec_starts_with(
            f1.path,
            h.path,
        )) ==> canon(g).contains(f1),
{
    if canon(g).contains(f1) && canon(g).contains(f2) && f1.path != f2.path && spec_starts_with(f1.path, f2.path) {
        assert(g.contains(f2));
        assert(covered_in(g, f1));
    }
}

/// Dotfiles at or below a symlinked one are dropped, and only those.
pub proof fn lemma_drop_covered_law(n: Set<DotfileView>, s: Set<DotfileView>, f: DotfileView, h: DotfileView)
    ensures
        n.filter(|x: DotfileView| !under_any(s, x)).contains(f) ==> n.contains(f),
        n.filter(|x: DotfileView| !under_any(s, x)).contains(f) && s.contains(h) ==> !spec_starts_with(f.path, h.path),
        n.contains(f) && (forall|y: DotfileView| #[trigger] s.contains(y) ==> !spec_starts_with(f.path, y.path)) ==> n.filter(
            |x: DotfileView| !under_any(s, x),
        ).contains(f),
{
}

} // verus!
