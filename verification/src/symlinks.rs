//! The symlink status of dotfiles, and the decisions of the commands that
//! add, remove and report symlinks.
//!
//! Every file inside `dotfiles/Configs` is sorted by the state of the place
//! it is deployed to:
//! - symlinked: a symlink there points to the file;
//! - not symlinked: nothing (or a plain file) is there;
//! - not owned: a symlink there points somewhere else.
//!
//! Within a group only the topmost entries are kept: a symlinked directory
//! covers everything inside it.

use vstd::prelude::*;
use crate::cache::{
    GroupCache, canon, canonical, covered_in, drop_covered, files_set, files_view, has_path, lemma_files_set_contains,
    lemma_files_set_member, lemma_files_set_push, lemma_prefix_step, lemma_push_distinct, nonempty, prefix_map,
    under_any,
};
use crate::dotfiles::{
    Dotfile, DotfileView, EnvVars, Platform, PlatformView, ReturnCode, check_invalid_groups, configs_dir_of, deploy_order, get_group_priority,
    group_ends_with_target_name, group_is_valid_target, group_without_target, spec_deploy_order, spec_dotfile,
    spec_ends_with_target, spec_group_priority, spec_invalid_groups, spec_is_valid_target, spec_target_path,
    spec_without_target,
};
use crate::order::{sort_dedup, strictly_sorted, text_set, texts_of};
use crate::path::{
    FsPath, PathView, copy_string, lemma_filter_push, parts_view, spec_join, spec_parse, spec_starts_with,
};
use crate::text::text_eq;

verus! {

/// What is found at the place a dotfile is deployed to.
pub enum TargetStatus {
    /// A symlink, pointing to the given path.
    Link(FsPath),
    /// A symlink whose destination could not be read.
    UnreadableLink,
    /// A directory (not a symlink).
    Directory,
    /// A plain file, or nothing at all.
    NotLinked,
}

/// A file found inside `dotfiles/Configs`, with what was found at the place
/// it is deployed to.
pub struct Observation {
    pub file: FsPath,
    pub target: TargetStatus,
}

/// The three states a dotfile can be in.
#[derive(Clone, Copy, PartialEq, Eq, Structural, Debug)]
pub enum SymlinkType {
    Symlinked,
    NotSymlinked,
    NotOwned,
}

/// A selection of states.
#[derive(Clone, Copy, Debug)]
pub struct SymlinkTypes {
    pub symlinked: bool,
    pub not_symlinked: bool,
    pub not_owned: bool,
}

/// The state that an observation puts its dotfile in: none for group
/// directories themselves, for unreadable symlinks and for directories.
pub open spec fn observed(o: Observation, dir: PathView) -> Option<(SymlinkType, DotfileView)> {
    match spec_dotfile(o.file@, dir) {
        None => None,
        Some(d) => if d.path == d.group_path {
            None
        } else {
            match o.target {
                TargetStatus::Link(l) => if l@ == d.path {
                    Some((SymlinkType::Symlinked, d))
                } else {
                    Some((SymlinkType::NotOwned, d))
                },
                TargetStatus::NotLinked => Some((SymlinkType::NotSymlinked, d)),
                _ => None,
            }
        },
    }
}

/// The dotfiles of group `g` that the observations put in state `kind`.
pub open spec fn raw_files(obs: Seq<Observation>, dir: PathView, kind: SymlinkType, g: Seq<char>) -> Set<DotfileView> {
    Set::new(
        |d: DotfileView|
            d.group_name == g && exists|i: int| 0 <= i < obs.len() && #[trigger] observed(obs[i], dir) == Some((kind, d)),
    )
}

/// The dotfiles of group `g` in state `kind` once only the topmost ones are
/// kept; a file inside a symlinked one counts as symlinked, not as not
/// symlinked.
pub open spec fn final_files(obs: Seq<Observation>, dir: PathView, kind: SymlinkType, g: Seq<char>) -> Set<DotfileView> {
    let s = raw_files(obs, dir, SymlinkType::Symlinked, g);
    match kind {
        SymlinkType::Symlinked => canon(s),
        SymlinkType::NotOwned => canon(raw_files(obs, dir, SymlinkType::NotOwned, g)),
        SymlinkType::NotSymlinked => canon(
            raw_files(obs, dir, SymlinkType::NotSymlinked, g).filter(|f: DotfileView| !under_any(s, f)),
        ),
    }
}

/// The groups with dotfiles in state `kind`, and those dotfiles.
pub open spec fn status_map(obs: Seq<Observation>, dir: PathView, kind: SymlinkType) -> Map<Seq<char>, Set<DotfileView>> {
    Map::new(|g: Seq<char>| nonempty(final_files(obs, dir, kind, g)), |g: Seq<char>| final_files(obs, dir, kind, g))
}

/// A dotfile strictly inside a group directory of `dotfiles/Configs`.
pub open spec fn deployable(d: DotfileView, dir: PathView) -> bool {
    &&& spec_dotfile(d.path, dir) == Some(d)
    &&& d.path != d.group_path
    &&& spec_starts_with(d.path, configs_dir_of(dir))
}

/// Every dotfile of every group of `m` is deployable.
pub open spec fn all_deployable(m: Map<Seq<char>, Set<DotfileView>>, dir: PathView) -> bool {
    forall|g: Seq<char>, d: DotfileView| m.dom().contains(g) && #[trigger] m[g].contains(d) ==> deployable(d, dir)
}

/// The observations are of files inside `dotfiles/Configs`.
pub open spec fn observations_ok(obs: Seq<Observation>, dir: PathView) -> bool {
    forall|i: int|
        0 <= i < obs.len() ==> (#[trigger] spec_dotfile(obs[i].file@, dir)) is Some && spec_starts_with(
            obs[i].file@,
            configs_dir_of(dir),
        )
}

/// A deployable dotfile lies strictly below `dotfiles/Configs`.
pub proof fn lemma_deployable_below_configs(d: DotfileView, dir: PathView)
    requires
        deployable(d, dir),
    ensures
        d.path.parts.len() > configs_dir_of(dir).parts.len(),
{
    if d.path.parts.len() == configs_dir_of(dir).parts.len() {
        assert(d.path.parts =~= configs_dir_of(dir).parts);
        assert(d.path == configs_dir_of(dir));
    }
}

/// The state that observation `o` puts its dotfile in.
fn observe(o: &Observation, dir: &FsPath) -> (res: Option<(SymlinkType, Dotfile)>)
    requires
        spec_dotfile(o.file@, dir@) is Some,
        spec_starts_with(o.file@, configs_dir_of(dir@)),
    ensures
        res matches Some((k, d)) ==> observed(*o, dir@) == Some((k, d@)) && deployable(d@, dir@),
        res is None ==> observed(*o, dir@) is None,
{
    let d = match Dotfile::try_from(o.file.duplicate(), dir) {
        Ok(d) => d,
        Err(_) => {
            return None;
        },
    };
    if d.path.same_as(&d.group_path) {
        return None;
    }
    match &o.target {
        TargetStatus::Link(l) => {
            if l.same_as(&d.path) {
                Some((SymlinkType::Symlinked, d))
            } else {
                Some((SymlinkType::NotOwned, d))
            }
        },
        TargetStatus::NotLinked => Some((SymlinkType::NotSymlinked, d)),
        _ => None,
    }
}

/// The group of the dotfile that observation `o` puts in some state.
pub open spec fn observed_name(o: Observation, dir: PathView) -> Seq<char> {
    match observed(o, dir) {
        Some((_, d)) => d.group_name,
        None => Seq::empty(),
    }
}

/// Some observation puts a dotfile of group `g` in some state.
pub open spec fn observed_group(obs: Seq<Observation>, dir: PathView, g: Seq<char>) -> bool {
    exists|i: int|
        0 <= i < obs.len() && (#[trigger] observed(obs[i], dir)) is Some && observed_name(obs[i], dir)
            == g
}

/// Whether `v` holds the text `x`.
fn has_text(v: &Vec<String>, x: &str) -> (res: bool)
    ensures
        res == texts_of(v@).contains(x@),
{
    let mut i: usize = 0;
    while i < v.len()
        invariant
            i <= v.len(),
            forall|k: int| 0 <= k < i ==> (#[trigger] v@[k])@ != x@,
        decreases v.len() - i,
    {
        if text_eq(v[i].as_str(), x) {
            assert(texts_of(v@)[i as int] == x@);
            return true;
        }
        i = i + 1;
    }
    proof {
        if texts_of(v@).contains(x@) {
            let k = choose|k: int| 0 <= k < texts_of(v@).len() && texts_of(v@)[k] == x@;
            assert(v@[k]@ == x@);
        }
    }
    false
}

/// The names of the groups that the observations put some dotfile of in
/// some state, each once.
fn group_names(obs: &Vec<Observation>, dir: &FsPath) -> (res: Vec<String>)
    requires
        observations_ok(obs@, dir@),
    ensures
        texts_of(res@).no_duplicates(),
        forall|g: Seq<char>| #[trigger] texts_of(res@).contains(g) <==> observed_group(obs@, dir@, g),
{
    let mut res: Vec<String> = Vec::new();
    let mut i: usize = 0;
    while i < obs.len()
        invariant
            i <= obs.len(),
            observations_ok(obs@, dir@),
            texts_of(res@).no_duplicates(),
            forall|g: Seq<char>| #[trigger] texts_of(res@).contains(g) <==> observed_group(obs@.take(i as int), dir@, g),
        decreases obs.len() - i,
    {
        let ghost before = texts_of(res@);
        let ghost oi = obs@[i as int];
        proof {
            assert(spec_dotfile(obs@[i as int].file@, dir@) is Some);
        }
        let seen = observe(&obs[i], dir);
        let mut added = false;
        match seen {
            Some((_, d)) => {
                if !has_text(&res, d.group_name.as_str()) {
                    res.push(copy_string(&d.group_name));
                    added = true;
                }
            },
            None => {},
        }
        proof {
            let t0 = obs@.take(i as int);
            let t1 = obs@.take(i + 1);
            assert(t1 =~= t0.push(oi));
            if added {
                assert(texts_of(res@) =~= before.push(texts_of(res@).last()));
            } else {
                assert(texts_of(res@) =~= before);
            }
            assert forall|g: Seq<char>| #[trigger] texts_of(res@).contains(g) <==> observed_group(t1, dir@, g) by {
                assert(before.contains(g) <==> observed_group(t0, dir@, g));
                if observed_group(t1, dir@, g) {
                    let k = choose|k: int|
                        0 <= k < t1.len() && (#[trigger] observed(t1[k], dir@)) is Some && observed_name(t1[k], dir@)
                            == g;
                    if k < i {
                        assert(t0[k] == t1[k]);
                        assert(observed_group(t0, dir@, g));
                        let m = choose|m: int| 0 <= m < before.len() && before[m] == g;
                        assert(texts_of(res@)[m] == g);
                    } else {
                        if !added {
                            assert(before.contains(g));
                        } else {
                            assert(texts_of(res@)[before.len() as int] == g);
                        }
                    }
                }
                if texts_of(res@).contains(g) {
                    let m = choose|m: int| 0 <= m < texts_of(res@).len() && texts_of(res@)[m] == g;
                    if m < before.len() {
                        assert(before[m] == g);
                        assert(observed_group(t0, dir@, g));
                        let k = choose|k: int|
                            0 <= k < t0.len() && (#[trigger] observed(t0[k], dir@)) is Some && observed_name(t0[k], dir@)
                                == g;
                        assert(t1[k] == t0[k]);
                    } else {
                        assert(t1[i as int] == oi);
                        assert(observed(t1[i as int], dir@) is Some);
                    }
                }
            }
            if added {
                assert forall|a: int, b: int|
                    0 <= a < texts_of(res@).len() && 0 <= b < texts_of(res@).len() && a != b implies texts_of(res@)[a]
                    != texts_of(res@)[b] by {
                    if a < before.len() && b < before.len() {
                        assert(texts_of(res@)[a] == before[a]);
                        assert(texts_of(res@)[b] == before[b]);
                    } else if a < before.len() {
                        assert(texts_of(res@)[a] == before[a]);
                    } else if b < before.len() {
                        assert(texts_of(res@)[b] == before[b]);
                    }
                }
            }
        }
        i = i + 1;
    }
    proof {
        assert(obs@.take(obs@.len() as int) =~= obs@);
    }
    res
}

/// The dotfiles of group `g` that the observations put in state `kind`,
/// each once.
fn collect(obs: &Vec<Observation>, dir: &FsPath, kind: SymlinkType, g: &str) -> (res: Vec<Dotfile>)
    requires
        observations_ok(obs@, dir@),
    ensures
        files_set(res@) == raw_files(obs@, dir@, kind, g@),
        files_view(res@).no_duplicates(),
        forall|j: int| 0 <= j < res@.len() ==> (#[trigger] res@[j]).group_name@ == g@ && deployable(res@[j]@, dir@),
{
    let mut res: Vec<Dotfile> = Vec::new();
    let mut i: usize = 0;
    while i < obs.len()
        invariant
            i <= obs.len(),
            observations_ok(obs@, dir@),
            files_view(res@).no_duplicates(),
            forall|j: int| 0 <= j < res@.len() ==> (#[trigger] res@[j]).group_name@ == g@ && deployable(res@[j]@, dir@),
            files_set(res@) == raw_files(obs@.take(i as int), dir@, kind, g@),
        decreases obs.len() - i,
    {
        let ghost before = res@;
        let ghost oi = obs@[i as int];
        proof {
            assert(spec_dotfile(obs@[i as int].file@, dir@) is Some);
        }
        let seen = observe(&obs[i], dir);
        let mut added = false;
        match seen {
            Some((k, d)) => {
                if k == kind && text_eq(d.group_name.as_str(), g) && !has_path(&res, &d) {
                    res.push(d);
                    added = true;
                }
            },
            None => {},
        }
        proof {
            let t0 = obs@.take(i as int);
            let t1 = obs@.take(i + 1);
            assert(t1 =~= t0.push(oi));
            if added {
                let d = res@.last();
                assert(res@ =~= before.push(d));
                assert(files_view(res@) =~= files_view(before).push(d@));
                assert forall|a: int, b: int|
                    0 <= a < files_view(res@).len() && 0 <= b < files_view(res@).len() && a != b implies files_view(res@)[a]
                    != files_view(res@)[b] by {
                    if a < before.len() && b < before.len() {
                        assert(files_view(res@)[a] == files_view(before)[a]);
                        assert(files_view(res@)[b] == files_view(before)[b]);
                    } else if a < before.len() {
                        assert(files_view(res@)[a] == before[a]@);
                        assert(before[a].path@ != d.path@);
                    } else if b < before.len() {
                        assert(files_view(res@)[b] == before[b]@);
                        assert(before[b].path@ != d.path@);
                    }
                }
            } else {
                assert(res@ =~= before);
            }
            assert forall|x: DotfileView| #[trigger] files_set(res@).contains(x) == raw_files(t1, dir@, kind, g@).contains(x) by {
                if raw_files(t1, dir@, kind, g@).contains(x) {
                    let k = choose|k: int| 0 <= k < t1.len() && #[trigger] observed(t1[k], dir@) == Some((kind, x));
                    if k < i {
                        assert(t0[k] == t1[k]);
                        assert(raw_files(t0, dir@, kind, g@).contains(x));
                        let m = choose|m: int| 0 <= m < files_view(before).len() && files_view(before)[m] == x;
                        assert(files_view(res@)[m] == x);
                    } else {
                        assert(t1[i as int] == oi);
                        if !added {
                            // an entry with the same path is already there, and it is the same dotfile
                            let m = choose|m: int| 0 <= m < before.len() && before[m].path@ == x.path;
                            assert(deployable(before[m]@, dir@));
                            assert(before[m]@ == x);
                            assert(files_view(res@)[m] == x);
                        } else {
                            assert(files_view(res@)[before.len() as int] == x);
                        }
                    }
                }
                if files_set(res@).contains(x) {
                    let m = choose|m: int| 0 <= m < files_view(res@).len() && files_view(res@)[m] == x;
                    if m < before.len() {
                        assert(files_view(before)[m] == x);
                        assert(raw_files(t0, dir@, kind, g@).contains(x));
                        let k = choose|k: int| 0 <= k < t0.len() && #[trigger] observed(t0[k], dir@) == Some((kind, x));
                        assert(t1[k] == t0[k]);
                    } else {
                        assert(t1[i as int] == oi);
                        assert(observed(t1[i as int], dir@) == Some((kind, x)));
                    }
                }
            }
            assert(files_set(res@) =~= raw_files(t1, dir@, kind, g@));
        }
        i = i + 1;
    }
    proof {
        assert(obs@.take(obs@.len() as int) =~= obs@);
    }
    res
}

/// `status_map` restricted to the groups named in `names`.
pub open spec fn partial_map(obs: Seq<Observation>, dir: PathView, kind: SymlinkType, names: Seq<Seq<char>>) -> Map<Seq<char>, Set<DotfileView>> {
    Map::new(
        |g: Seq<char>| names.contains(g) && nonempty(final_files(obs, dir, kind, g)),
        |g: Seq<char>| final_files(obs, dir, kind, g),
    )
}

proof fn lemma_final_member(obs: Seq<Observation>, dir: PathView, kind: SymlinkType, g: Seq<char>, d: DotfileView)
    requires
        observations_ok(obs, dir),
        final_files(obs, dir, kind, g).contains(d),
    ensures
        deployable(d, dir),
        d.group_name == g,
        observed_group(obs, dir, g),
{
    assert(raw_files(obs, dir, kind, g).contains(d));
    let i = choose|i: int| 0 <= i < obs.len() && #[trigger] observed(obs[i], dir) == Some((kind, d));
    assert(spec_dotfile(obs[i].file@, dir) is Some);
    assert(observed(obs[i], dir) is Some);
}

proof fn lemma_map_step(
    obs: Seq<Observation>,
    dir: PathView,
    kind: SymlinkType,
    names: Seq<Seq<char>>,
    k: int,
    old_m: Map<Seq<char>, Set<DotfileView>>,
    new_m: Map<Seq<char>, Set<DotfileView>>,
    v: Seq<Dotfile>,
)
    requires
        0 <= k < names.len(),
        old_m == partial_map(obs, dir, kind, names.take(k)),
        files_set(v) == final_files(obs, dir, kind, names[k]),
        v.len() > 0 ==> new_m == old_m.insert(names[k], files_set(v)),
        v.len() == 0 ==> new_m == old_m,
    ensures
        new_m == partial_map(obs, dir, kind, names.take(k + 1)),
{
    let g = names[k];
    let t0 = names.take(k);
    let t1 = names.take(k + 1);
    assert(t1 =~= t0.push(g));
    assert forall|x: Seq<char>| #[trigger] t1.contains(x) == (t0.contains(x) || x == g) by {
        if t1.contains(x) {
            let m = choose|m: int| 0 <= m < t1.len() && t1[m] == x;
            if m < k {
                assert(t0[m] == x);
            }
        }
        if t0.contains(x) {
            let m = choose|m: int| 0 <= m < t0.len() && t0[m] == x;
            assert(t1[m] == x);
        }
        if x == g {
            assert(t1[k] == x);
        }
    }
    if v.len() > 0 {
        assert(files_view(v)[0] == v[0]@);
        assert(final_files(obs, dir, kind, g).contains(v[0]@));
    } else {
        assert forall|d: DotfileView| !final_files(obs, dir, kind, g).contains(d) by {
            if final_files(obs, dir, kind, g).contains(d) {
                assert(files_set(v).contains(d));
            }
        }
    }
    assert(new_m =~= partial_map(obs, dir, kind, names.take(k + 1)));
}

/// The symlink status of every dotfile of a dotfiles directory.
pub struct SymlinkHandler {
    /// The dotfiles directory.
    pub dotfiles_dir: FsPath,
    /// Dotfiles whose deployed place is a symlink to them.
    pub symlinked: GroupCache,
    /// Dotfiles whose deployed place holds no symlink.
    pub not_symlinked: GroupCache,
    /// Dotfiles whose deployed place is a symlink to somewhere else.
    pub not_owned: GroupCache,
}

impl SymlinkHandler {
    /// The three caches are well formed and hold deployable dotfiles only.
    pub open spec fn wf(self) -> bool {
        &&& self.symlinked.wf()
        &&& self.not_symlinked.wf()
        &&& self.not_owned.wf()
        &&& all_deployable(self.symlinked@, self.dotfiles_dir@)
        &&& all_deployable(self.not_symlinked@, self.dotfiles_dir@)
        &&& all_deployable(self.not_owned@, self.dotfiles_dir@)
    }

    /// Sorts the dotfiles of `dotfiles_dir` by symlink status, from the
    /// observations of the files found inside `dotfiles/Configs`. Fails
    /// when `dotfiles/Configs` does not exist (`configs_exists`).
    pub fn try_new(dotfiles_dir: FsPath, configs_exists: bool, obs: &Vec<Observation>) -> (res: Result<SymlinkHandler, ReturnCode>)
        requires
            observations_ok(obs@, dotfiles_dir@),
        ensures
            res is Err <==> !configs_exists,
            res matches Err(e) ==> e == ReturnCode::CouldntFindDotfiles,
            res matches Ok(h) ==> {
                &&& h.wf()
                &&& h.dotfiles_dir@ == dotfiles_dir@
                &&& h.symlinked@ == status_map(obs@, dotfiles_dir@, SymlinkType::Symlinked)
                &&& h.not_symlinked@ == status_map(obs@, dotfiles_dir@, SymlinkType::NotSymlinked)
                &&& h.not_owned@ == status_map(obs@, dotfiles_dir@, SymlinkType::NotOwned)
            },
    {
        if !configs_exists {
            return Err(ReturnCode::CouldntFindDotfiles);
        }
        let ghost dir = dotfiles_dir@;
        let names = group_names(obs, &dotfiles_dir);
        let ghost ns = texts_of(names@);
        let mut sc = GroupCache::new();
        let mut nc = GroupCache::new();
        let mut oc = GroupCache::new();
        proof {
            assert(sc@ =~= partial_map(obs@, dir, SymlinkType::Symlinked, ns.take(0)));
            assert(nc@ =~= partial_map(obs@, dir, SymlinkType::NotSymlinked, ns.take(0)));
            assert(oc@ =~= partial_map(obs@, dir, SymlinkType::NotOwned, ns.take(0)));
        }
        let mut k: usize = 0;
        while k < names.len()
            invariant
                k <= names@.len(),
                ns == texts_of(names@),
                ns.no_duplicates(),
                dir == dotfiles_dir@,
                observations_ok(obs@, dir),
                sc.wf(),
                nc.wf(),
                oc.wf(),
                sc@ == partial_map(obs@, dir, SymlinkType::Symlinked, ns.take(k as int)),
                nc@ == partial_map(obs@, dir, SymlinkType::NotSymlinked, ns.take(k as int)),
                oc@ == partial_map(obs@, dir, SymlinkType::NotOwned, ns.take(k as int)),
            decreases names@.len() - k,
        {
            let g = names[k].as_str();
            let ghost gv = ns[k as int];
            assert(g@ == gv);
            let s_raw = collect(obs, &dotfiles_dir, SymlinkType::Symlinked, g);
            let n_raw = collect(obs, &dotfiles_dir, SymlinkType::NotSymlinked, g);
            let o_raw = collect(obs, &dotfiles_dir, SymlinkType::NotOwned, g);
            let s_f = canonical(&s_raw);
            let n_f = canonical(&drop_covered(&n_raw, &s_raw));
            let o_f = canonical(&o_raw);
            proof {
                assert(files_set(n_f@) =~= final_files(obs@, dir, SymlinkType::NotSymlinked, gv));
                assert(!ns.take(k as int).contains(gv)) by {
                    if ns.take(k as int).contains(gv) {
                        let m = choose|m: int| 0 <= m < k && ns.take(k as int)[m] == gv;
                        assert(ns[m] == ns[k as int]);
                    }
                }
                sc.lemma_wf();
                nc.lemma_wf();
                oc.lemma_wf();
                assert(!sc@.dom().contains(gv));
                assert(!nc@.dom().contains(gv));
                assert(!oc@.dom().contains(gv));
            }
            let ghost sc0 = sc@;
            let ghost nc0 = nc@;
            let ghost oc0 = oc@;
            if s_f.len() > 0 {
                proof { Self::lemma_group_files(obs@, dir, SymlinkType::Symlinked, gv, s_f@); }
                sc.push_group(copy_string(&names[k]), s_f);
            }
            if n_f.len() > 0 {
                proof { Self::lemma_group_files(obs@, dir, SymlinkType::NotSymlinked, gv, n_f@); }
                nc.push_group(copy_string(&names[k]), n_f);
            }
            if o_f.len() > 0 {
                proof { Self::lemma_group_files(obs@, dir, SymlinkType::NotOwned, gv, o_f@); }
                oc.push_group(copy_string(&names[k]), o_f);
            }
            proof {
                lemma_map_step(obs@, dir, SymlinkType::Symlinked, ns, k as int, sc0, sc@, s_f@);
                lemma_map_step(obs@, dir, SymlinkType::NotSymlinked, ns, k as int, nc0, nc@, n_f@);
                lemma_map_step(obs@, dir, SymlinkType::NotOwned, ns, k as int, oc0, oc@, o_f@);
            }
            k = k + 1;
        }
        proof {
            assert(ns.take(names@.len() as int) =~= ns);
            Self::lemma_complete(obs@, dir, SymlinkType::Symlinked, ns);
            Self::lemma_complete(obs@, dir, SymlinkType::NotSymlinked, ns);
            Self::lemma_complete(obs@, dir, SymlinkType::NotOwned, ns);
        }
        Ok(SymlinkHandler { dotfiles_dir, symlinked: sc, not_symlinked: nc, not_owned: oc })
    }

    proof fn lemma_group_files(obs: Seq<Observation>, dir: PathView, kind: SymlinkType, g: Seq<char>, v: Seq<Dotfile>)
        requires
            observations_ok(obs, dir),
            files_set(v) == final_files(obs, dir, kind, g),
        ensures
            forall|j: int| 0 <= j < v.len() ==> (#[trigger] v[j]).group_name@ == g,
    {
        assert forall|j: int| 0 <= j < v.len() implies (#[trigger] v[j]).group_name@ == g by {
            assert(files_view(v)[j] == v[j]@);
            assert(files_set(v).contains(v[j]@));
            lemma_final_member(obs, dir, kind, g, v[j]@);
        }
    }

    proof fn lemma_complete(obs: Seq<Observation>, dir: PathView, kind: SymlinkType, ns: Seq<Seq<char>>)
        requires
            observations_ok(obs, dir),
            forall|g: Seq<char>| #[trigger] ns.contains(g) <==> observed_group(obs, dir, g),
        ensures
            partial_map(obs, dir, kind, ns) == status_map(obs, dir, kind),
            all_deployable(status_map(obs, dir, kind), dir),
    {
        assert forall|g: Seq<char>| #[trigger] nonempty(final_files(obs, dir, kind, g)) implies ns.contains(g) by {
            let d = choose|d: DotfileView| final_files(obs, dir, kind, g).contains(d);
            lemma_final_member(obs, dir, kind, g, d);
        }
        assert(partial_map(obs, dir, kind, ns) =~= status_map(obs, dir, kind));
        assert forall|g: Seq<char>, d: DotfileView|
            status_map(obs, dir, kind).dom().contains(g) && #[trigger] status_map(obs, dir, kind)[g].contains(d) implies deployable(d, dir) by {
            lemma_final_member(obs, dir, kind, g, d);
        }
    }
}

/// The groups of `order` related to `target`: `target` itself when it is a
/// conditional group, else its conditional groups (and itself) that can be
/// used on this platform; in the order of `order`.
pub open spec fn related_in(order: Seq<Seq<char>>, target: Seq<char>, platform: PlatformView) -> Seq<Seq<char>> {
    if spec_ends_with_target(target) {
        if order.contains(target) {
            seq![target]
        } else {
            Seq::empty()
        }
    } else {
        order.filter(|g: Seq<char>| spec_without_target(g) == target && spec_is_valid_target(g, platform))
    }
}

/// The groups related to `target` in the caches that `types` selects:
/// first the symlinked, then the not symlinked, then the not owned ones.
pub open spec fn related_groups(h: SymlinkHandler, target: Seq<char>, types: SymlinkTypes, platform: PlatformView) -> Seq<Seq<char>> {
    (if types.symlinked {
        related_in(h.symlinked.order(), target, platform)
    } else {
        Seq::empty()
    }) + (if types.not_symlinked {
        related_in(h.not_symlinked.order(), target, platform)
    } else {
        Seq::empty()
    }) + (if types.not_owned {
        related_in(h.not_owned.order(), target, platform)
    } else {
        Seq::empty()
    })
}

impl SymlinkHandler {
    /// Whether no dotfile was found at all.
    pub fn is_empty(&self) -> (res: bool)
        requires
            self.wf(),
        ensures
            res == (self.symlinked@ == Map::<Seq<char>, Set<DotfileView>>::empty() && self.not_symlinked@ == Map::<
                Seq<char>,
                Set<DotfileView>,
            >::empty() && self.not_owned@ == Map::<Seq<char>, Set<DotfileView>>::empty()),
    {
        self.symlinked.is_empty() && self.not_symlinked.is_empty() && self.not_owned.is_empty()
    }

    /// The groups of `cache` related to `target_group` (see `related_in`);
    /// `None` when there are none.
    pub fn get_related_cond_groups(&self, target_group: &str, cache: &GroupCache, platform: &Platform) -> (res: Option<Vec<String>>)
        requires
            cache.wf(),
        ensures
            res is None <==> related_in(cache.order(), target_group@, platform@).len() == 0,
            res matches Some(v) ==> texts_of(v@) == related_in(cache.order(), target_group@, platform@),
    {
        proof {
            cache.lemma_wf();
        }
        if group_ends_with_target_name(target_group) {
            if cache.contains_key(target_group) {
                let v = vec![String::from_str(target_group)];
                assert(texts_of(v@) =~= seq![target_group@]);
                return Some(v);
            } else {
                return None;
            }
        }
        let keys = cache.keys();
        let ghost f = |g: Seq<char>| spec_without_target(g) == target_group@ && spec_is_valid_target(g, platform@);
        let mut res: Vec<String> = Vec::new();
        let mut i: usize = 0;
        while i < keys.len()
            invariant
                i <= keys@.len(),
                texts_of(keys@) == cache.order(),
                f == (|g: Seq<char>| spec_without_target(g) == target_group@ && spec_is_valid_target(g, platform@)),
                texts_of(res@) == cache.order().take(i as int).filter(f),
            decreases keys@.len() - i,
        {
            let g = keys[i].as_str();
            let keep = text_eq(group_without_target(g), target_group) && group_is_valid_target(g, platform);
            let ghost before = texts_of(res@);
            if keep {
                res.push(copy_string(&keys[i]));
            }
            proof {
                let t = cache.order().take(i as int);
                assert(cache.order().take(i + 1) =~= t.push(g@));
                lemma_filter_push(t, f, g@);
                if keep {
                    assert(texts_of(res@) =~= before.push(g@));
                } else {
                    assert(texts_of(res@) =~= before);
                }
            }
            i = i + 1;
        }
        proof {
            assert(cache.order().take(keys@.len() as int) =~= cache.order());
        }
        if res.len() == 0 {
            None
        } else {
            Some(res)
        }
    }

    /// The groups related to `target_group` in the caches that `symtype`
    /// selects (see `related_groups`); `None` when there are none.
    pub fn get_related_conditional_groups(&self, target_group: &str, symtype: SymlinkTypes, platform: &Platform) -> (res: Option<Vec<String>>)
        requires
            self.wf(),
        ensures
            res is None <==> related_groups(*self, target_group@, symtype, platform@).len() == 0,
            res matches Some(v) ==> texts_of(v@) == related_groups(*self, target_group@, symtype, platform@),
    {
        let mut all: Vec<String> = Vec::new();
        if symtype.symlinked {
            if let Some(v) = self.get_related_cond_groups(target_group, &self.symlinked, platform) {
                let mut v = v;
                all.append(&mut v);
            }
        }
        let ghost a = texts_of(all@);
        if symtype.not_symlinked {
            if let Some(v) = self.get_related_cond_groups(target_group, &self.not_symlinked, platform) {
                let mut v = v;
                all.append(&mut v);
            }
        }
        let ghost b = texts_of(all@);
        if symtype.not_owned {
            if let Some(v) = self.get_related_cond_groups(target_group, &self.not_owned, platform) {
                let mut v = v;
                all.append(&mut v);
            }
        }
        proof {
            let e = Seq::<Seq<char>>::empty();
            let r1 = if symtype.symlinked { related_in(self.symlinked.order(), target_group@, platform@) } else { e };
            let r2 = if symtype.not_symlinked { related_in(self.not_symlinked.order(), target_group@, platform@) } else { e };
            let r3 = if symtype.not_owned { related_in(self.not_owned.order(), target_group@, platform@) } else { e };
            assert(a =~= r1);
            assert(b =~= r1 + r2);
            assert(texts_of(all@) =~= r1 + r2 + r3);
        }
        if all.len() == 0 {
            None
        } else {
            Some(all)
        }
    }
}

/// What a symlink at the deployed place of a not owned dotfile points to.
pub struct LinkObservation {
    /// The symlink: the deployed place.
    pub target: FsPath,
    /// Where it points.
    pub source: FsPath,
    /// The dotfiles directory of the profile that `source` names, when there
    /// is one.
    pub source_dotfiles_dir: Option<FsPath>,
}

/// Some path of `ps` is `t`.
pub open spec fn path_listed(ps: Seq<FsPath>, t: PathView) -> bool {
    exists|i: int| 0 <= i < ps.len() && #[trigger] ps[i]@ == t
}

/// The first observation of `links` about the symlink `t`.
pub open spec fn link_for(links: Seq<LinkObservation>, t: PathView) -> Option<LinkObservation>
    decreases links.len(),
{
    if links.len() == 0 {
        None
    } else if links[0].target@ == t {
        Some(links[0])
    } else {
        link_for(links.drop_first(), t)
    }
}

/// A not owned dotfile `o` whose deployed place points to `l.source` is in
/// conflict: unless the symlink points to a dotfile of a group with the
/// same base group, or of a group of no higher priority.
pub open spec fn link_conflicts(o: DotfileView, l: LinkObservation) -> bool {
    match l.source_dotfiles_dir {
        None => true,
        Some(sd) => match spec_dotfile(l.source@, sd@) {
            None => true,
            Some(d) => d.path != o.path && spec_group_priority(d.group_name) > spec_group_priority(o.group_name)
                && spec_without_target(o.group_name) != spec_without_target(d.group_name),
        },
    }
}

/// The dotfiles of group `g` in `m`; none when `m` does not hold `g`.
pub open spec fn cache_files(m: Map<Seq<char>, Set<DotfileView>>, g: Seq<char>) -> Set<DotfileView> {
    if m.dom().contains(g) {
        m[g]
    } else {
        Set::empty()
    }
}

/// The dotfiles of group `g` in conflict: the not symlinked ones whose
/// deployed place exists (it is in `existing`) and that can be used on this
/// platform, and the not owned ones whose symlink conflicts.
pub open spec fn conflicting_files(
    h: SymlinkHandler,
    g: Seq<char>,
    home: PathView,
    env: Seq<(Seq<char>, Seq<char>)>,
    existing: Seq<FsPath>,
    links: Seq<LinkObservation>,
    platform: PlatformView,
) -> Set<DotfileView> {
    let dir = h.dotfiles_dir@;
    cache_files(h.not_symlinked@, g).filter(
        |n: DotfileView| path_listed(existing, spec_target_path(n, dir, home, env)) && spec_is_valid_target(n.group_name, platform),
    ).union(
        cache_files(h.not_owned@, g).filter(
            |o: DotfileView|
                link_for(links, spec_target_path(o, dir, home, env)) matches Some(l) && link_conflicts(o, l),
        ),
    )
}

/// The groups with dotfiles in conflict, and those dotfiles.
pub open spec fn conflicts_map(
    h: SymlinkHandler,
    home: PathView,
    env: Seq<(Seq<char>, Seq<char>)>,
    existing: Seq<FsPath>,
    links: Seq<LinkObservation>,
    platform: PlatformView,
) -> Map<Seq<char>, Set<DotfileView>> {
    Map::new(
        |g: Seq<char>| nonempty(conflicting_files(h, g, home, env, existing, links, platform)),
        |g: Seq<char>| conflicting_files(h, g, home, env, existing, links, platform),
    )
}

/// Every not owned dotfile's deployed place has an observation in `links`.
pub open spec fn links_cover(h: SymlinkHandler, home: PathView, env: Seq<(Seq<char>, Seq<char>)>, links: Seq<LinkObservation>) -> bool {
    forall|g: Seq<char>, o: DotfileView|
        h.not_owned@.dom().contains(g) && #[trigger] h.not_owned@[g].contains(o) ==> link_for(
            links,
            spec_target_path(o, h.dotfiles_dir@, home, env),
        ) is Some
}

/// Whether `t` is one of `ps`.
fn is_listed(ps: &Vec<FsPath>, t: &FsPath) -> (res: bool)
    ensures
        res == path_listed(ps@, t@),
{
    let mut i: usize = 0;
    while i < ps.len()
        invariant
            i <= ps@.len(),
            forall|k: int| 0 <= k < i ==> (#[trigger] ps@[k])@ != t@,
        decreases ps@.len() - i,
    {
        if ps[i].same_as(t) {
            return true;
        }
        i = i + 1;
    }
    false
}

/// The first observation about the symlink `t`.
fn find_link<'a>(links: &'a Vec<LinkObservation>, t: &FsPath) -> (res: Option<&'a LinkObservation>)
    ensures
        res matches Some(l) ==> link_for(links@, t@) == Some(*l),
        res is None ==> link_for(links@, t@) is None,
{
    let mut i: usize = 0;
    assert(links@.skip(0) =~= links@);
    while i < links.len()
        invariant
            i <= links@.len(),
            link_for(links@, t@) == link_for(links@.skip(i as int), t@),
        decreases links@.len() - i,
    {
        proof {
            assert(links@.skip(i as int)[0] == links@[i as int]);
            assert(links@.skip(i as int).drop_first() =~= links@.skip(i + 1));
        }
        if links[i].target.same_as(t) {
            return Some(&links[i]);
        }
        i = i + 1;
    }
    proof {
        assert(links@.skip(i as int).len() == 0);
    }
    None
}

/// Whether the not owned dotfile `o` is in conflict, its symlink being `l`.
fn link_conflicts_exec(o: &Dotfile, l: &LinkObservation) -> (res: bool)
    ensures
        res == link_conflicts(o@, *l),
{
    let sd = match &l.source_dotfiles_dir {
        Some(sd) => sd,
        None => {
            return true;
        },
    };
    match Dotfile::try_from(l.source.duplicate(), sd) {
        Err(_) => true,
        Ok(d) => {
            !d.path.same_as(&o.path) && get_group_priority(d.group_name.as_str()) > get_group_priority(o.group_name.as_str())
                && !text_eq(group_without_target(o.group_name.as_str()), group_without_target(d.group_name.as_str()))
        },
    }
}

/// The names of `a`, then those of `b` that `a` does not hold.
fn merge_names(a: &Vec<String>, b: &Vec<String>) -> (res: Vec<String>)
    requires
        texts_of(a@).no_duplicates(),
    ensures
        texts_of(res@).no_duplicates(),
        forall|g: Seq<char>| #[trigger] texts_of(res@).contains(g) <==> (texts_of(a@).contains(g) || texts_of(b@).contains(g)),
{
    let mut res: Vec<String> = Vec::new();
    let mut i: usize = 0;
    while i < a.len()
        invariant
            i <= a@.len(),
            texts_of(a@).no_duplicates(),
            texts_of(res@) == texts_of(a@).take(i as int),
        decreases a@.len() - i,
    {
        res.push(copy_string(&a[i]));
        proof {
            assert(texts_of(a@).take(i + 1) =~= texts_of(a@).take(i as int).push(a@[i as int]@));
            assert(texts_of(res@) =~= texts_of(res@).drop_last().push(a@[i as int]@));
        }
        i = i + 1;
    }
    proof {
        assert(texts_of(a@).take(a@.len() as int) =~= texts_of(a@));
    }
    let mut j: usize = 0;
    while j < b.len()
        invariant
            j <= b@.len(),
            texts_of(res@).no_duplicates(),
            forall|g: Seq<char>| #[trigger] texts_of(res@).contains(g) <==> (texts_of(a@).contains(g) || texts_of(b@).take(j as int).contains(g)),
        decreases b@.len() - j,
    {
        let ghost before = texts_of(res@);
        let present = has_text(&res, b[j].as_str());
        if !present {
            res.push(copy_string(&b[j]));
        }
        proof {
            let x = b@[j as int]@;
            let t0 = texts_of(b@).take(j as int);
            let t1 = texts_of(b@).take(j + 1);
            assert(t1 =~= t0.push(x));
            if !present {
                assert(texts_of(res@) =~= before.push(x));
            } else {
                assert(texts_of(res@) =~= before);
            }
            assert forall|g: Seq<char>| #[trigger] texts_of(res@).contains(g) <==> (texts_of(a@).contains(g) || t1.contains(g)) by {
                assert(before.contains(g) <==> (texts_of(a@).contains(g) || t0.contains(g)));
                if texts_of(res@).contains(g) {
                    let m = choose|m: int| 0 <= m < texts_of(res@).len() && texts_of(res@)[m] == g;
                    if m < before.len() {
                        assert(before[m] == g);
                        if t0.contains(g) {
                            let q = choose|q: int| 0 <= q < t0.len() && t0[q] == g;
                            assert(t1[q] == g);
                        }
                    } else {
                        assert(t1[j as int] == g);
                    }
                }
                if t1.contains(g) {
                    let q = choose|q: int| 0 <= q < t1.len() && t1[q] == g;
                    if q < j {
                        assert(t0[q] == g);
                    } else if !present {
                        assert(texts_of(res@)[before.len() as int] == g);
                    }
                }
                if before.contains(g) {
                    let m = choose|m: int| 0 <= m < before.len() && before[m] == g;
                    assert(texts_of(res@)[m] == g);
                }
            }
            if !present {
                assert forall|p: int, q: int|
                    0 <= p < texts_of(res@).len() && 0 <= q < texts_of(res@).len() && p != q implies texts_of(res@)[p]
                    != texts_of(res@)[q] by {
                    if p < before.len() && q < before.len() {
                        assert(texts_of(res@)[p] == before[p]);
                        assert(texts_of(res@)[q] == before[q]);
                    } else if p < before.len() {
                        assert(texts_of(res@)[p] == before[p]);
                    } else if q < before.len() {
                        assert(texts_of(res@)[q] == before[q]);
                    }
                }
            }
        }
        j = j + 1;
    }
    proof {
        assert(texts_of(b@).take(b@.len() as int) =~= texts_of(b@));
    }
    res
}

impl SymlinkHandler {
    /// The dotfiles of group `g` in conflict (see `conflicting_files`).
    fn conflicting_in_group(
        &self,
        g: &str,
        home: &FsPath,
        env: &EnvVars,
        existing: &Vec<FsPath>,
        links: &Vec<LinkObservation>,
        platform: &Platform,
    ) -> (res: Vec<Dotfile>)
        requires
            self.wf(),
            links_cover(*self, home@, env@, links@),
        ensures
            files_set(res@) == conflicting_files(*self, g@, home@, env@, existing@, links@, platform@),
            files_view(res@).no_duplicates(),
            forall|j: int| 0 <= j < res@.len() ==> (#[trigger] res@[j]).group_name@ == g@,
    {
        let ghost dir = self.dotfiles_dir@;
        let ghost fa = |n: DotfileView|
            path_listed(existing@, spec_target_path(n, dir, home@, env@)) && spec_is_valid_target(n.group_name, platform@);
        let ghost fb = |o: DotfileView|
            link_for(links@, spec_target_path(o, dir, home@, env@)) matches Some(l) && link_conflicts(o, l);
        proof {
            self.not_symlinked.lemma_wf();
            self.not_owned.lemma_wf();
        }
        let mut res: Vec<Dotfile> = Vec::new();
        let ghost empty_res = res@;
        proof {
            assert(files_set(empty_res) =~= Set::<DotfileView>::empty());
        }
        match self.not_symlinked.get(g) {
            Some(ns) => {
                let mut i: usize = 0;
                while i < ns.len()
                    invariant
                        self.wf(),
                        i <= ns@.len(),
                        dir == self.dotfiles_dir@,
                        files_set(ns@) == self.not_symlinked@[g@],
                        self.not_symlinked@.dom().contains(g@),
                        files_view(ns@).no_duplicates(),
                        forall|j: int| 0 <= j < ns@.len() ==> (#[trigger] ns@[j]).group_name@ == g@,
                        fa == (|n: DotfileView|
                            path_listed(existing@, spec_target_path(n, dir, home@, env@)) && spec_is_valid_target(
                                n.group_name,
                                platform@,
                            )),
                        files_set(res@) == files_set(ns@.take(i as int)).filter(fa),
                        files_view(res@).no_duplicates(),
                        forall|j: int| 0 <= j < res@.len() ==> (#[trigger] res@[j]).group_name@ == g@,
                    decreases ns@.len() - i,
                {
                    let n = &ns[i];
                    proof {
                        lemma_files_set_contains(ns@, i as int);
                        assert(deployable(n@, dir));
                        lemma_deployable_below_configs(n@, dir);
                    }
                    let t = n.to_target_path(&self.dotfiles_dir, home, env);
                    let keep = is_listed(existing, &t) && n.is_valid_target(platform);
                    let ghost before = res@;
                    let ghost t0 = ns@.take(i as int);
                    let ghost t1 = ns@.take(i + 1);
                    proof {
                        assert(t1 =~= t0.push(ns@[i as int]));
                        lemma_files_set_push(t0, ns@[i as int]);
                        assert(keep == fa(n@));
                        assert(!files_set(t0).contains(n@)) by {
                            if files_set(t0).contains(n@) {
                                let k = lemma_files_set_member(t0, n@);
                                assert(files_view(ns@)[k] == files_view(ns@)[i as int]);
                            }
                        }
                    }
                    if keep {
                        res.push(n.duplicate());
                        proof {
                            assert(res@ =~= before.push(res@.last()));
                            lemma_files_set_push(before, res@.last());
                            lemma_push_distinct(before, res@.last());
                        }
                    }
                    proof {
                        assert(files_set(res@) =~= files_set(t1).filter(fa));
                    }
                    i = i + 1;
                }
                proof {
                    assert(ns@.take(ns@.len() as int) =~= ns@);
                }
            },
            None => {
                proof {
                    assert(files_set(res@) =~= cache_files(self.not_symlinked@, g@).filter(fa));
                }
            },
        }
        let ghost part_a = files_set(res@);
        assert(part_a == cache_files(self.not_symlinked@, g@).filter(fa));
        match self.not_owned.get(g) {
            Some(no) => {
                let mut j: usize = 0;
                while j < no.len()
                    invariant
                        self.wf(),
                        links_cover(*self, home@, env@, links@),
                        j <= no@.len(),
                        dir == self.dotfiles_dir@,
                        files_set(no@) == self.not_owned@[g@],
                        self.not_owned@.dom().contains(g@),
                        forall|k: int| 0 <= k < no@.len() ==> (#[trigger] no@[k]).group_name@ == g@,
                        fb == (|o: DotfileView|
                            link_for(links@, spec_target_path(o, dir, home@, env@)) matches Some(l) && link_conflicts(o, l)),
                        part_a == cache_files(self.not_symlinked@, g@).filter(fa),
                        files_set(res@) == part_a.union(files_set(no@.take(j as int)).filter(fb)),
                        files_view(res@).no_duplicates(),
                        forall|k: int| 0 <= k < res@.len() ==> (#[trigger] res@[k]).group_name@ == g@,
                    decreases no@.len() - j,
                {
                    let o = &no[j];
                    proof {
                        lemma_files_set_contains(no@, j as int);
                        assert(deployable(o@, dir));
                        lemma_deployable_below_configs(o@, dir);
                        assert(self.not_owned@[g@].contains(o@));
                    }
                    let t = o.to_target_path(&self.dotfiles_dir, home, env);
                    let conflict = match find_link(links, &t) {
                        Some(l) => link_conflicts_exec(o, l),
                        None => false,
                    };
                    let ghost before = res@;
                    let ghost t0 = no@.take(j as int);
                    let ghost t1 = no@.take(j + 1);
                    proof {
                        assert(t1 =~= t0.push(no@[j as int]));
                        lemma_files_set_push(t0, no@[j as int]);
                        assert(conflict == fb(o@));
                    }
                    if conflict && !has_path(&res, o) {
                        res.push(o.duplicate());
                        proof {
                            assert(res@ =~= before.push(res@.last()));
                            lemma_files_set_push(before, res@.last());
                            assert(!files_set(before).contains(o@)) by {
                                if files_set(before).contains(o@) {
                                    let k = lemma_files_set_member(before, o@);
                                    assert(before[k].path@ == o.path@);
                                }
                            }
                            lemma_push_distinct(before, res@.last());
                        }
                    } else if conflict {
                        proof {
                            let k = choose|k: int| 0 <= k < before.len() && (#[trigger] before[k]).path@ == o.path@;
                            lemma_files_set_contains(before, k);
                            let x = before[k]@;
                            assert(files_set(before).contains(x));
                            if cache_files(self.not_symlinked@, g@).filter(fa).contains(x) {
                                assert(deployable(x, dir));
                            } else {
                                assert(files_set(t0).filter(fb).contains(x));
                                let m = lemma_files_set_member(t0, x);
                                assert(t0[m] == no@[m]);
                                lemma_files_set_contains(no@, m);
                                assert(deployable(x, dir));
                            }
                            assert(x == o@);
                        }
                    }
                    proof {
                        assert(files_set(res@) =~= part_a.union(files_set(t1).filter(fb)));
                    }
                    j = j + 1;
                }
                proof {
                    assert(no@.take(no@.len() as int) =~= no@);
                }
            },
            None => {
                proof {
                    assert(files_set(res@) =~= part_a.union(cache_files(self.not_owned@, g@).filter(fb)));
                }
            },
        }
        proof {
            assert(files_set(res@) =~= conflicting_files(*self, g@, home@, env@, existing@, links@, platform@));
        }
        res
    }
}

impl SymlinkHandler {
    /// The groups with dotfiles in conflict, and those dotfiles (see
    /// `conflicts_map`). `existing` lists the deployed places of not
    /// symlinked dotfiles that exist; `links` tells where the symlinks at
    /// the deployed places of not owned dotfiles point.
    pub fn get_conflicts_in_cache(
        &self,
        home: &FsPath,
        env: &EnvVars,
        existing: &Vec<FsPath>,
        links: &Vec<LinkObservation>,
        platform: &Platform,
    ) -> (res: GroupCache)
        requires
            self.wf(),
            links_cover(*self, home@, env@, links@),
        ensures
            res.wf(),
            res@ == conflicts_map(*self, home@, env@, existing@, links@, platform@),
    {
        let ghost f = |g: Seq<char>| conflicting_files(*self, g, home@, env@, existing@, links@, platform@);
        proof {
            self.not_symlinked.lemma_wf();
            self.not_owned.lemma_wf();
        }
        let a = self.not_symlinked.keys();
        let b = self.not_owned.keys();
        let names = merge_names(&a, &b);
        let ghost ns = texts_of(names@);
        let mut res = GroupCache::new();
        proof {
            assert(res@ =~= prefix_map(f, ns.take(0)));
        }
        let mut k: usize = 0;
        while k < names.len()
            invariant
                self.wf(),
                links_cover(*self, home@, env@, links@),
                k <= names@.len(),
                ns == texts_of(names@),
                ns.no_duplicates(),
                f == (|g: Seq<char>| conflicting_files(*self, g, home@, env@, existing@, links@, platform@)),
                res.wf(),
                res@ == prefix_map(f, ns.take(k as int)),
            decreases names@.len() - k,
        {
            let g = names[k].as_str();
            let ghost gv = ns[k as int];
            assert(g@ == gv);
            let files = self.conflicting_in_group(g, home, env, existing, links, platform);
            let ghost before = res@;
            let ghost fv = files@;
            proof {
                res.lemma_wf();
                assert(!ns.take(k as int).contains(gv)) by {
                    if ns.take(k as int).contains(gv) {
                        let m = choose|m: int| 0 <= m < k && ns.take(k as int)[m] == gv;
                        assert(ns[m] == ns[k as int]);
                    }
                }
                assert(!res@.dom().contains(gv));
            }
            if files.len() > 0 {
                res.push_group(copy_string(&names[k]), files);
            }
            proof {
                lemma_prefix_step(f, ns, k as int, before, res@, fv);
            }
            k = k + 1;
        }
        proof {
            assert(ns.take(names@.len() as int) =~= ns);
            assert forall|g: Seq<char>| #[trigger] nonempty(f(g)) implies ns.contains(g) by {
                let fg = f(g);
                let d = choose|d: DotfileView| fg.contains(d);
                if cache_files(self.not_symlinked@, g).contains(d) {
                    assert(texts_of(a@).contains(g));
                } else {
                    assert(cache_files(self.not_owned@, g).contains(d));
                    assert(texts_of(b@).contains(g));
                }
            }
            assert(res@ =~= conflicts_map(*self, home@, env@, existing@, links@, platform@));
        }
        res
    }
}

/// The selection of not symlinked dotfiles only.
pub open spec fn only_not_symlinked() -> SymlinkTypes {
    SymlinkTypes { symlinked: false, not_symlinked: true, not_owned: false }
}

/// What to do with a dotfile whose deployed place is `target`.
#[derive(Clone, Copy, PartialEq, Eq, Structural, Debug)]
pub enum LinkAction {
    /// Leave it: something is already there.
    Skip,
    /// Dry run: report that something is already there.
    ReportExisting,
    /// Dry run: report the symlink that would be made.
    ReportPlanned,
    /// Make the symlink.
    Create,
}

/// What to do with a dotfile while symlinking its group: nothing is
/// replaced; a dry run only reports.
pub open spec fn spec_link_action(target_exists: bool, dry_run: bool) -> LinkAction {
    if target_exists {
        if dry_run {
            LinkAction::ReportExisting
        } else {
            LinkAction::Skip
        }
    } else if dry_run {
        LinkAction::ReportPlanned
    } else {
        LinkAction::Create
    }
}

/// What to do with a dotfile while symlinking its group (see
/// `spec_link_action`).
pub fn link_action(target_exists: bool, dry_run: bool) -> (res: LinkAction)
    ensures
        res == spec_link_action(target_exists, dry_run),
{
    if target_exists {
        if dry_run {
            LinkAction::ReportExisting
        } else {
            LinkAction::Skip
        }
    } else if dry_run {
        LinkAction::ReportPlanned
    } else {
        LinkAction::Create
    }
}

/// Whether an entry of a group is passed over when only files are
/// symlinked: directories are.
pub fn skips_entry(only_files: bool, is_dir: bool) -> (res: bool)
    ensures
        res == (only_files && is_dir),
{
    only_files && is_dir
}

/// What to do with the symlink at a dotfile's deployed place when its
/// group is removed.
#[derive(Clone, Copy, PartialEq, Eq, Structural, Debug)]
pub enum UnlinkAction {
    /// Leave it: it is not a symlink to this dotfile.
    Keep,
    /// Dry run: report the removal.
    ReportPlanned,
    /// Remove it.
    Remove,
}

/// Only a symlink that points to the dotfile itself is removed.
pub open spec fn spec_unlink_action(file: DotfileView, link: Option<PathView>, dry_run: bool) -> UnlinkAction {
    match link {
        None => UnlinkAction::Keep,
        Some(l) => if l != file.path {
            UnlinkAction::Keep
        } else if dry_run {
            UnlinkAction::ReportPlanned
        } else {
            UnlinkAction::Remove
        },
    }
}

/// What to do with the deployed place of `file`, where `link` is where the
/// symlink there points (`None` when it is no readable symlink).
pub fn unlink_action(file: &Dotfile, link: &Option<FsPath>, dry_run: bool) -> (res: UnlinkAction)
    ensures
        res == spec_unlink_action(file@, match link {
            Some(l) => Some(l@),
            None => None,
        }, dry_run),
{
    match link {
        None => UnlinkAction::Keep,
        Some(l) => {
            if !l.same_as(&file.path) {
                UnlinkAction::Keep
            } else if dry_run {
                UnlinkAction::ReportPlanned
            } else {
                UnlinkAction::Remove
            }
        },
    }
}

/// Removing a group deletes only symlinks that point at the group's own
/// dotfiles: a deployed place is removed (or reported as to be removed in a
/// dry run) exactly when it is a symlink to the dotfile itself; anything
/// else there is kept.
pub proof fn lemma_unlink_only_own_symlinks(file: DotfileView, link: Option<PathView>, dry_run: bool)
    ensures
        spec_unlink_action(file, link, dry_run) != UnlinkAction::Keep <==> link == Some(file.path),
        spec_unlink_action(file, link, dry_run) == UnlinkAction::Remove ==> !dry_run,
{
}

/// How a conflict is cleared before symlinking.
pub struct ConflictPlan {
    /// The dotfile's deployed place.
    pub target: FsPath,
    /// What is deleted: the deployed place (forcing), or the dotfile
    /// itself (adopting).
    pub deleted: FsPath,
    /// Whether the deployed place is then moved into the dotfile's place.
    pub adopt: bool,
}

/// Clearing the conflict of `file`: forcing deletes what is at its
/// deployed place; adopting deletes the dotfile and moves what is at its
/// deployed place into the dotfiles directory.
pub fn conflict_plan(file: &Dotfile, dotfiles_dir: &FsPath, home: &FsPath, env: &EnvVars, adopt: bool) -> (res: ConflictPlan)
    requires
        deployable(file@, dotfiles_dir@),
    ensures
        res.target@ == spec_target_path(file@, dotfiles_dir@, home@, env@),
        res.deleted@ == (if adopt {
            file.path@
        } else {
            spec_target_path(file@, dotfiles_dir@, home@, env@)
        }),
        res.adopt == adopt,
{
    proof {
        lemma_deployable_below_configs(file@, dotfiles_dir@);
    }
    let target = file.to_target_path(dotfiles_dir, home, env);
    let deleted = if adopt {
        file.path.duplicate()
    } else {
        target.duplicate()
    };
    ConflictPlan { target, deleted, adopt }
}

/// The question asked before forcing or adopting, unless answered in
/// advance (`assume_yes`).
pub open spec fn spec_confirmation_prompt(force: bool, adopt: bool, assume_yes: bool) -> Option<Seq<char>> {
    if !assume_yes && (force || adopt) {
        if force {
            Some("Are you sure you want to override conflicts?"@)
        } else {
            Some("Are you sure you want to adopt conflicts?"@)
        }
    } else {
        None
    }
}

/// The question to ask before adding groups (see
/// `spec_confirmation_prompt`).
pub fn confirmation_prompt(force: bool, adopt: bool, assume_yes: bool) -> (res: Option<String>)
    ensures
        match res {
            Some(q) => spec_confirmation_prompt(force, adopt, assume_yes) == Some(q@),
            None => spec_confirmation_prompt(force, adopt, assume_yes) is None,
        },
{
    if !assume_yes && (force || adopt) {
        if force {
            Some(String::from_str("Are you sure you want to override conflicts?"))
        } else {
            Some(String::from_str("Are you sure you want to adopt conflicts?"))
        }
    } else {
        None
    }
}

/// The groups related to each of `groups` in turn, in the caches that
/// `types` selects.
pub open spec fn related_all(h: SymlinkHandler, groups: Seq<Seq<char>>, types: SymlinkTypes, platform: PlatformView) -> Seq<Seq<char>>
    decreases groups.len(),
{
    if groups.len() == 0 {
        Seq::empty()
    } else {
        related_all(h, groups.drop_last(), types, platform) + related_groups(h, groups.last(), types, platform)
    }
}

/// The groups that adding `groups` works on, before exclusions: with `*`,
/// every not symlinked group that can be used on this platform; otherwise
/// the not symlinked and not owned groups related to each group asked for.
pub open spec fn spec_groups_to_add(h: SymlinkHandler, groups: Seq<Seq<char>>, platform: PlatformView) -> Seq<Seq<char>> {
    if groups.contains("*"@) {
        h.not_symlinked.order().filter(|g: Seq<char>| spec_is_valid_target(g, platform))
    } else {
        related_all(h, groups, SymlinkTypes { symlinked: false, not_symlinked: true, not_owned: true }, platform)
    }
}

/// The groups that removing `groups` works on, before exclusions: with
/// `*`, every symlinked group; otherwise the symlinked groups asked for or
/// whose base group was asked for.
pub open spec fn spec_groups_to_remove(h: SymlinkHandler, groups: Seq<Seq<char>>) -> Seq<Seq<char>> {
    if groups.contains("*"@) {
        h.symlinked.order()
    } else {
        h.symlinked.order().filter(|g: Seq<char>| groups.contains(g) || groups.contains(spec_without_target(g)))
    }
}

/// Keeps the names that `exclude` does not hold, in order.
fn without_excluded(v: &Vec<String>, exclude: &Vec<String>) -> (res: Vec<String>)
    ensures
        texts_of(res@) == texts_of(v@).filter(|g: Seq<char>| !texts_of(exclude@).contains(g)),
{
    let ghost f = |g: Seq<char>| !texts_of(exclude@).contains(g);
    let mut res: Vec<String> = Vec::new();
    let mut i: usize = 0;
    while i < v.len()
        invariant
            i <= v@.len(),
            f == (|g: Seq<char>| !texts_of(exclude@).contains(g)),
            texts_of(res@) == texts_of(v@).take(i as int).filter(f),
        decreases v@.len() - i,
    {
        let ghost before = texts_of(res@);
        let keep = !has_text(exclude, v[i].as_str());
        if keep {
            res.push(copy_string(&v[i]));
        }
        proof {
            let t = texts_of(v@).take(i as int);
            assert(texts_of(v@).take(i + 1) =~= t.push(v@[i as int]@));
            lemma_filter_push(t, f, v@[i as int]@);
            if keep {
                assert(texts_of(res@) =~= before.push(v@[i as int]@));
            } else {
                assert(texts_of(res@) =~= before);
            }
        }
        i = i + 1;
    }
    proof {
        assert(texts_of(v@).take(v@.len() as int) =~= texts_of(v@));
    }
    res
}

impl SymlinkHandler {
    /// The not symlinked groups related to `group`, in the order they are
    /// symlinked: the most specific first, so that its files win.
    pub fn add_order(&self, group: &str, platform: &Platform) -> (res: Vec<String>)
        requires
            self.wf(),
        ensures
            texts_of(res@) == spec_deploy_order(related_groups(*self, group@, only_not_symlinked(), platform@)),
    {
        let types = SymlinkTypes { symlinked: false, not_symlinked: true, not_owned: false };
        match self.get_related_conditional_groups(group, types, platform) {
            Some(groups) => {
                let res = deploy_order(groups);
                assert(texts_of(res@) =~= parts_view(res@));
                res
            },
            None => {
                let res: Vec<String> = Vec::new();
                assert(texts_of(res@) =~= Seq::<Seq<char>>::empty());
                assert(related_groups(*self, group@, only_not_symlinked(), platform@) =~= Seq::<Seq<char>>::empty());
                res
            },
        }
    }

    /// The groups related to each of `groups`, in the caches that `types`
    /// selects.
    fn related_for_all(&self, groups: &Vec<String>, types: SymlinkTypes, platform: &Platform) -> (res: Vec<String>)
        requires
            self.wf(),
        ensures
            texts_of(res@) == related_all(*self, texts_of(groups@), types, platform@),
    {
        let mut res: Vec<String> = Vec::new();
        let mut i: usize = 0;
        while i < groups.len()
            invariant
                self.wf(),
                i <= groups@.len(),
                texts_of(res@) == related_all(*self, texts_of(groups@).take(i as int), types, platform@),
            decreases groups@.len() - i,
        {
            let ghost before = texts_of(res@);
            let ghost gi = groups@[i as int]@;
            match self.get_related_conditional_groups(groups[i].as_str(), types, platform) {
                Some(v) => {
                    let mut v = v;
                    res.append(&mut v);
                },
                None => {},
            }
            proof {
                let t = texts_of(groups@).take(i + 1);
                assert(t.drop_last() =~= texts_of(groups@).take(i as int));
                assert(t.last() == gi);
                assert(texts_of(res@) =~= before + related_groups(*self, gi, types, platform@));
            }
            i = i + 1;
        }
        proof {
            assert(texts_of(groups@).take(groups@.len() as int) =~= texts_of(groups@));
        }
        res
    }

    /// The groups that adding `groups` symlinks, in order: those of
    /// `spec_groups_to_add` that `exclude` does not hold.
    #[verifier::rlimit(60)]
    pub fn groups_to_add(&self, groups: &Vec<String>, exclude: &Vec<String>, platform: &Platform) -> (res: Vec<String>)
        requires
            self.wf(),
        ensures
            texts_of(res@) == spec_groups_to_add(*self, texts_of(groups@), platform@).filter(
                |g: Seq<char>| !texts_of(exclude@).contains(g),
            ),
    {
        let all = if has_text(groups, "*") {
            let keys = self.not_symlinked.keys();
            let ghost f = |g: Seq<char>| spec_is_valid_target(g, platform@);
            let mut v: Vec<String> = Vec::new();
            let mut i: usize = 0;
            while i < keys.len()
                invariant
                    i <= keys@.len(),
                    f == (|g: Seq<char>| spec_is_valid_target(g, platform@)),
                    texts_of(v@) == texts_of(keys@).take(i as int).filter(f),
                decreases keys@.len() - i,
            {
                let ghost before = texts_of(v@);
                let keep = group_is_valid_target(keys[i].as_str(), platform);
                if keep {
                    v.push(copy_string(&keys[i]));
                }
                proof {
                    let t = texts_of(keys@).take(i as int);
                    assert(texts_of(keys@).take(i + 1) =~= t.push(keys@[i as int]@));
                    lemma_filter_push(t, f, keys@[i as int]@);
                    if keep {
                        assert(texts_of(v@) =~= before.push(keys@[i as int]@));
                    } else {
                        assert(texts_of(v@) =~= before);
                    }
                }
                i = i + 1;
            }
            proof {
                assert(texts_of(keys@).take(keys@.len() as int) =~= texts_of(keys@));
            }
            v
        } else {
            self.related_for_all(groups, SymlinkTypes { symlinked: false, not_symlinked: true, not_owned: true }, platform)
        };
        without_excluded(&all, exclude)
    }

    /// The groups that removing `groups` unlinks, in order: those of
    /// `spec_groups_to_remove` that `exclude` does not hold. Whether a group
    /// can be used on this platform does not matter: what was added can
    /// always be removed.
    pub fn groups_to_remove(&self, groups: &Vec<String>, exclude: &Vec<String>) -> (res: Vec<String>)
        requires
            self.wf(),
        ensures
            texts_of(res@) == spec_groups_to_remove(*self, texts_of(groups@)).filter(
                |g: Seq<char>| !texts_of(exclude@).contains(g),
            ),
    {
        let keys = self.symlinked.keys();
        if has_text(groups, "*") {
            return without_excluded(&keys, exclude);
        }
        let ghost f = |g: Seq<char>| texts_of(groups@).contains(g) || texts_of(groups@).contains(spec_without_target(g));
        let mut v: Vec<String> = Vec::new();
        let mut i: usize = 0;
        while i < keys.len()
            invariant
                i <= keys@.len(),
                f == (|g: Seq<char>| texts_of(groups@).contains(g) || texts_of(groups@).contains(spec_without_target(g))),
                texts_of(v@) == texts_of(keys@).take(i as int).filter(f),
            decreases keys@.len() - i,
        {
            let ghost before = texts_of(v@);
            let g = keys[i].as_str();
            let keep = has_text(groups, g) || has_text(groups, group_without_target(g));
            if keep {
                v.push(copy_string(&keys[i]));
            }
            proof {
                let t = texts_of(keys@).take(i as int);
                assert(texts_of(keys@).take(i + 1) =~= t.push(g@));
                lemma_filter_push(t, f, g@);
                if keep {
                    assert(texts_of(v@) =~= before.push(g@));
                } else {
                    assert(texts_of(v@) =~= before);
                }
            }
            i = i + 1;
        }
        proof {
            assert(texts_of(keys@).take(keys@.len() as int) =~= texts_of(keys@));
        }
        without_excluded(&v, exclude)
    }
}

/// After adding: whether to report that conflicts remain at all (some
/// conflict while `*` was asked for), and whether to report that some of
/// the groups asked for were not added because of conflicts.
pub fn conflicts_after_add(groups: &Vec<String>, conflicts: &GroupCache) -> (res: (bool, bool))
    requires
        conflicts.wf(),
    ensures
        res.0 == (conflicts@ != Map::<Seq<char>, Set<DotfileView>>::empty() && texts_of(groups@).contains("*"@)),
        res.1 == (conflicts@ != Map::<Seq<char>, Set<DotfileView>>::empty() && exists|i: int|
            0 <= i < groups@.len() && conflicts@.dom().contains(#[trigger] groups@[i]@)),
{
    if conflicts.is_empty() {
        return (false, false);
    }
    let wildcard = has_text(groups, "*");
    let mut any = false;
    let mut i: usize = 0;
    while i < groups.len()
        invariant
            conflicts.wf(),
            i <= groups@.len(),
            any == exists|k: int| 0 <= k < i && conflicts@.dom().contains(#[trigger] groups@[k]@),
        decreases groups@.len() - i,
    {
        if conflicts.contains_key(groups[i].as_str()) {
            any = true;
        }
        i = i + 1;
    }
    (wildcard, any)
}

/// Each group's base group.
pub open spec fn without_targets(s: Seq<Seq<char>>) -> Seq<Seq<char>> {
    s.map_values(|g: Seq<char>| spec_without_target(g))
}

/// A symlinked group `g` also has not symlinked parts.
pub open spec fn partly_not_symlinked(h: SymlinkHandler, g: Seq<char>, platform: PlatformView) -> bool {
    related_in(h.not_symlinked.order(), g, platform).len() > 0
}

/// The base groups shown as symlinked in the overall status: those of the
/// symlinked groups without not symlinked parts.
pub open spec fn shown_symlinked(h: SymlinkHandler, platform: PlatformView) -> Seq<Seq<char>> {
    without_targets(h.symlinked.order().filter(|g: Seq<char>| !partly_not_symlinked(h, g, platform)))
}

/// The base groups shown as not symlinked in the overall status: those of
/// the not symlinked groups and of the symlinked groups with not symlinked
/// parts, that can be used on this platform.
pub open spec fn shown_not_symlinked(h: SymlinkHandler, platform: PlatformView) -> Seq<Seq<char>> {
    without_targets(
        (h.not_symlinked.order() + h.symlinked.order().filter(|g: Seq<char>| partly_not_symlinked(h, g, platform))).filter(
            |g: Seq<char>| spec_is_valid_target(g, platform),
        ),
    )
}

/// The overall status: symlinked and not symlinked base groups, each in
/// increasing order and once, and the groups in conflict.
pub struct GlobalStatus {
    pub symlinked: Vec<String>,
    pub not_symlinked: Vec<String>,
    pub conflicts: Vec<String>,
    /// Everything is in place: something is symlinked, nothing is left
    /// unsymlinked, nothing is in conflict.
    pub ok: bool,
}

/// The base groups of `v`, in order.
fn base_groups_of(v: &Vec<String>) -> (res: Vec<String>)
    ensures
        texts_of(res@) == without_targets(texts_of(v@)),
{
    let mut res: Vec<String> = Vec::new();
    let mut i: usize = 0;
    while i < v.len()
        invariant
            i <= v@.len(),
            texts_of(res@) == without_targets(texts_of(v@).take(i as int)),
        decreases v@.len() - i,
    {
        let b = group_without_target(v[i].as_str());
        res.push(String::from_str(b));
        proof {
            let t = texts_of(v@).take(i as int);
            assert(texts_of(v@).take(i + 1) =~= t.push(v@[i as int]@));
            assert(without_targets(t.push(v@[i as int]@)) =~= without_targets(t).push(spec_without_target(v@[i as int]@)));
            assert(texts_of(res@) =~= texts_of(res@).drop_last().push(b@));
        }
        i = i + 1;
    }
    proof {
        assert(texts_of(v@).take(v@.len() as int) =~= texts_of(v@));
    }
    res
}

impl SymlinkHandler {
    /// The overall status (see `shown_symlinked`, `shown_not_symlinked`);
    /// `conflicts` are the conflicts found (see `get_conflicts_in_cache`).
    pub fn global_status(&self, conflicts: &GroupCache, platform: &Platform) -> (res: GlobalStatus)
        requires
            self.wf(),
            conflicts.wf(),
        ensures
            strictly_sorted(texts_of(res.symlinked@)),
            text_set(texts_of(res.symlinked@)) == text_set(shown_symlinked(*self, platform@)),
            strictly_sorted(texts_of(res.not_symlinked@)),
            text_set(texts_of(res.not_symlinked@)) == text_set(shown_not_symlinked(*self, platform@)),
            texts_of(res.conflicts@) == conflicts.order(),
            res.ok == (res.symlinked@.len() > 0 && res.not_symlinked@.len() == 0 && conflicts@ == Map::<
                Seq<char>,
                Set<DotfileView>,
            >::empty()),
    {
        let keys = self.symlinked.keys();
        let ghost order = self.symlinked.order();
        let ghost fa = |g: Seq<char>| !partly_not_symlinked(*self, g, platform@);
        let ghost fb = |g: Seq<char>| partly_not_symlinked(*self, g, platform@);
        let mut fully: Vec<String> = Vec::new();
        let mut partly: Vec<String> = Vec::new();
        let mut i: usize = 0;
        while i < keys.len()
            invariant
                self.wf(),
                i <= keys@.len(),
                texts_of(keys@) == order,
                order == self.symlinked.order(),
                fa == (|g: Seq<char>| !partly_not_symlinked(*self, g, platform@)),
                fb == (|g: Seq<char>| partly_not_symlinked(*self, g, platform@)),
                texts_of(fully@) == order.take(i as int).filter(fa),
                texts_of(partly@) == order.take(i as int).filter(fb),
            decreases keys@.len() - i,
        {
            let g = keys[i].as_str();
            let ghost f0 = texts_of(fully@);
            let ghost p0 = texts_of(partly@);
            let types = SymlinkTypes { symlinked: false, not_symlinked: true, not_owned: false };
            let related = self.get_related_conditional_groups(g, types, platform);
            let is_partly = related.is_some();
            proof {
                assert(related_groups(*self, g@, types, platform@) =~= related_in(self.not_symlinked.order(), g@, platform@));
                assert(is_partly == fb(g@));
            }
            if is_partly {
                partly.push(copy_string(&keys[i]));
            } else {
                fully.push(copy_string(&keys[i]));
            }
            proof {
                let t = order.take(i as int);
                assert(order.take(i + 1) =~= t.push(g@));
                lemma_filter_push(t, fa, g@);
                lemma_filter_push(t, fb, g@);
                if is_partly {
                    assert(texts_of(partly@) =~= p0.push(g@));
                    assert(texts_of(fully@) =~= f0);
                } else {
                    assert(texts_of(fully@) =~= f0.push(g@));
                    assert(texts_of(partly@) =~= p0);
                }
            }
            i = i + 1;
        }
        proof {
            assert(order.take(keys@.len() as int) =~= order);
        }
        let mut candidates = self.not_symlinked.keys();
        let ghost c0 = texts_of(candidates@);
        candidates.append(&mut partly);
        proof {
            assert(texts_of(candidates@) =~= c0 + order.filter(fb));
        }
        let ghost fv = |g: Seq<char>| spec_is_valid_target(g, platform@);
        let mut usable: Vec<String> = Vec::new();
        let mut j: usize = 0;
        while j < candidates.len()
            invariant
                j <= candidates@.len(),
                fv == (|g: Seq<char>| spec_is_valid_target(g, platform@)),
                texts_of(usable@) == texts_of(candidates@).take(j as int).filter(fv),
            decreases candidates@.len() - j,
        {
            let ghost u0 = texts_of(usable@);
            let keep = group_is_valid_target(candidates[j].as_str(), platform);
            if keep {
                usable.push(copy_string(&candidates[j]));
            }
            proof {
                let t = texts_of(candidates@).take(j as int);
                assert(texts_of(candidates@).take(j + 1) =~= t.push(candidates@[j as int]@));
                lemma_filter_push(t, fv, candidates@[j as int]@);
                if keep {
                    assert(texts_of(usable@) =~= u0.push(candidates@[j as int]@));
                } else {
                    assert(texts_of(usable@) =~= u0);
                }
            }
            j = j + 1;
        }
        proof {
            assert(texts_of(candidates@).take(candidates@.len() as int) =~= texts_of(candidates@));
        }
        let symlinked = sort_dedup(&base_groups_of(&fully));
        let not_symlinked = sort_dedup(&base_groups_of(&usable));
        let conflict_names = conflicts.keys();
        let ok = symlinked.len() > 0 && not_symlinked.len() == 0 && conflicts.is_empty();
        GlobalStatus { symlinked, not_symlinked, conflicts: conflict_names, ok }
    }
}

/// The rows of the status table: row `i` holds the `i`-th symlinked and
/// the `i`-th not symlinked group, or empty text where a column has ended.
pub fn status_rows(symlinked: &Vec<String>, not_symlinked: &Vec<String>) -> (res: Vec<(String, String)>)
    ensures
        res@.len() == if symlinked@.len() >= not_symlinked@.len() {
            symlinked@.len()
        } else {
            not_symlinked@.len()
        },
        forall|i: int|
            0 <= i < res@.len() ==> (#[trigger] res@[i]).0@ == (if i < symlinked@.len() {
                symlinked@[i]@
            } else {
                Seq::<char>::empty()
            }) && res@[i].1@ == (if i < not_symlinked@.len() {
                not_symlinked@[i]@
            } else {
                Seq::<char>::empty()
            }),
{
    let n = if symlinked.len() >= not_symlinked.len() {
        symlinked.len()
    } else {
        not_symlinked.len()
    };
    let mut res: Vec<(String, String)> = Vec::new();
    let mut i: usize = 0;
    while i < n
        invariant
            i <= n,
            n == if symlinked@.len() >= not_symlinked@.len() {
                symlinked@.len()
            } else {
                not_symlinked@.len()
            },
            res@.len() == i,
            forall|k: int|
                0 <= k < i ==> (#[trigger] res@[k]).0@ == (if k < symlinked@.len() {
                    symlinked@[k]@
                } else {
                    Seq::<char>::empty()
                }) && res@[k].1@ == (if k < not_symlinked@.len() {
                    not_symlinked@[k]@
                } else {
                    Seq::<char>::empty()
                }),
        decreases n - i,
    {
        let left = if i < symlinked.len() {
            copy_string(&symlinked[i])
        } else {
            String::new()
        };
        let right = if i < not_symlinked.len() {
            copy_string(&not_symlinked[i])
        } else {
            String::new()
        };
        res.push((left, right));
        i = i + 1;
    }
    res
}

/// Why a dotfile is in conflict, as reported to the user.
#[derive(Clone, Copy, PartialEq, Eq, Structural, Debug)]
pub enum ConflictReason {
    /// Something else is already at the deployed place.
    AlreadyExists,
    /// The deployed place is a symlink to somewhere outside the dotfiles.
    SymlinksElsewhere,
}

/// Why `file` is in conflict: `link` is what the symlink at its deployed
/// place points to, `None` when it is no symlink.
pub open spec fn spec_conflict_reason(link: Option<LinkObservation>) -> ConflictReason {
    match link {
        None => ConflictReason::AlreadyExists,
        Some(l) => match l.source_dotfiles_dir {
            None => ConflictReason::SymlinksElsewhere,
            Some(sd) => match spec_dotfile(l.source@, sd@) {
                None => ConflictReason::SymlinksElsewhere,
                Some(_) => ConflictReason::AlreadyExists,
            },
        },
    }
}

/// Why `file` is in conflict (see `spec_conflict_reason`). A symlink to
/// the dotfile itself is no conflict and is never asked about.
pub fn conflict_reason(file: &Dotfile, link: &Option<LinkObservation>) -> (res: ConflictReason)
    requires
        link matches Some(l) ==> (l.source_dotfiles_dir matches Some(sd) ==> (spec_dotfile(l.source@, sd@) matches Some(
            d,
        ) ==> d.path != file.path@)),
    ensures
        res == spec_conflict_reason(*link),
{
    match link {
        None => ConflictReason::AlreadyExists,
        Some(l) => match &l.source_dotfiles_dir {
            None => ConflictReason::SymlinksElsewhere,
            Some(sd) => match Dotfile::try_from(l.source.duplicate(), sd) {
                Err(_) => ConflictReason::SymlinksElsewhere,
                Ok(_) => ConflictReason::AlreadyExists,
            },
        },
    }
}

/// The entry `dotfiles/Configs/<group>` that a group named on the command
/// line stands for.
pub open spec fn group_entry(dir: PathView, group: Seq<char>) -> PathView {
    spec_join(configs_dir_of(dir), spec_parse(group))
}

/// The name of the group that `group` stands for.
pub open spec fn group_name_of(dir: PathView, group: Seq<char>) -> Seq<char> {
    match spec_dotfile(group_entry(dir, group), dir) {
        Some(d) => d.group_name,
        None => Seq::empty(),
    }
}

/// The groups asked about whose group cannot be used on this platform.
pub open spec fn unsupported_groups(dir: PathView, groups: Seq<Seq<char>>, platform: PlatformView) -> Seq<Seq<char>> {
    groups.map_values(|g: Seq<char>| group_name_of(dir, g)).filter(|n: Seq<char>| !spec_is_valid_target(n, platform))
}

/// A group in conflict concerns the groups asked about when it, or its
/// base group, was asked about.
pub open spec fn concerns(groups: Seq<Seq<char>>, g: Seq<char>) -> bool {
    groups.contains(g) || groups.contains(spec_without_target(g))
}

/// The status of the groups asked about.
pub struct GroupsStatus {
    /// The not symlinked and not owned groups related to them.
    pub not_symlinked: Vec<String>,
    /// The symlinked groups related to them.
    pub symlinked: Vec<String>,
    /// Those that cannot be used on this platform, in increasing order, each once.
    pub unsupported: Vec<String>,
    /// The conflicts that concern them.
    pub conflicts: GroupCache,
    /// Those without a directory in the dotfiles.
    pub invalid: Option<Vec<String>>,
    /// The outcome of the command.
    pub outcome: Result<(), ReturnCode>,
}

/// A copy of the dotfiles `v`.
fn copy_files(v: &Vec<Dotfile>) -> (res: Vec<Dotfile>)
    ensures
        files_view(res@) == files_view(v@),
        forall|j: int| 0 <= j < v@.len() ==> (#[trigger] res@[j])@ == v@[j]@,
        res@.len() == v@.len(),
{
    let mut res: Vec<Dotfile> = Vec::new();
    let mut i: usize = 0;
    while i < v.len()
        invariant
            i <= v@.len(),
            res@.len() == i,
            forall|j: int| 0 <= j < i ==> (#[trigger] res@[j])@ == v@[j]@,
        decreases v@.len() - i,
    {
        res.push(v[i].duplicate());
        i = i + 1;
    }
    assert(files_view(res@) =~= files_view(v@));
    res
}

impl SymlinkHandler {
    /// The conflicts of `conflicts` that concern `groups`.
    fn conflicts_concerning(conflicts: &GroupCache, groups: &Vec<String>) -> (res: GroupCache)
        requires
            conflicts.wf(),
        ensures
            res.wf(),
            res@ == Map::new(
                |g: Seq<char>| conflicts@.dom().contains(g) && concerns(texts_of(groups@), g),
                |g: Seq<char>| conflicts@[g],
            ),
    {
        let ghost gs = texts_of(groups@);
        let ghost m = conflicts@;
        let ghost f = |g: Seq<char>| if m.dom().contains(g) && concerns(gs, g) {
            m[g]
        } else {
            Set::<DotfileView>::empty()
        };
        proof {
            conflicts.lemma_wf();
        }
        let keys = conflicts.keys();
        let ghost ks = texts_of(keys@);
        let mut res = GroupCache::new();
        proof {
            assert(res@ =~= prefix_map(f, ks.take(0)));
        }
        let mut k: usize = 0;
        while k < keys.len()
            invariant
                conflicts.wf(),
                k <= keys@.len(),
                ks == texts_of(keys@),
                ks == conflicts.order(),
                ks.no_duplicates(),
                m == conflicts@,
                gs == texts_of(groups@),
                f == (|g: Seq<char>| if m.dom().contains(g) && concerns(gs, g) {
                    m[g]
                } else {
                    Set::<DotfileView>::empty()
                }),
                forall|g: Seq<char>| #[trigger] m.dom().contains(g) <==> ks.contains(g),
                res.wf(),
                res@ == prefix_map(f, ks.take(k as int)),
            decreases keys@.len() - k,
        {
            let g = keys[k].as_str();
            let ghost gv = ks[k as int];
            assert(g@ == gv);
            let keep = has_text(groups, g) || has_text(groups, group_without_target(g));
            let mut files: Vec<Dotfile> = Vec::new();
            if keep {
                match conflicts.get(g) {
                    Some(v) => {
                        files = copy_files(v);
                    },
                    None => {},
                }
            }
            let ghost before = res@;
            let ghost fv = files@;
            proof {
                res.lemma_wf();
                assert(!ks.take(k as int).contains(gv)) by {
                    if ks.take(k as int).contains(gv) {
                        let q = choose|q: int| 0 <= q < k && ks.take(k as int)[q] == gv;
                        assert(ks[q] == ks[k as int]);
                    }
                }
                assert(!res@.dom().contains(gv));
                assert(ks.contains(gv));
                assert(m.dom().contains(gv));
                assert(files_set(fv) =~= f(gv));
            }
            if files.len() > 0 {
                res.push_group(copy_string(&keys[k]), files);
            }
            proof {
                lemma_prefix_step(f, ks, k as int, before, res@, fv);
            }
            k = k + 1;
        }
        proof {
            assert(ks.take(keys@.len() as int) =~= ks);
            let want = Map::new(
                |g: Seq<char>| conflicts@.dom().contains(g) && concerns(texts_of(groups@), g),
                |g: Seq<char>| conflicts@[g],
            );
            assert(res@ =~= want);
        }
        res
    }

    /// The status of the groups `groups` (see `GroupsStatus`):
    /// `conflicts` are the conflicts found (see `get_conflicts_in_cache`),
    /// `contained[i]` whether `groups[i]` has a directory in the dotfiles.
    /// The outcome is an error (`NoSetupFolder`) when some group asked
    /// about does not exist.
    #[verifier::rlimit(60)]
    pub fn groups_status(
        &self,
        groups: &Vec<String>,
        conflicts: &GroupCache,
        contained: &Vec<bool>,
        platform: &Platform,
    ) -> (res: GroupsStatus)
        requires
            self.wf(),
            conflicts.wf(),
            groups@.len() == contained@.len(),
            forall|i: int|
                0 <= i < groups@.len() ==> (#[trigger] spec_dotfile(group_entry(self.dotfiles_dir@, groups@[i]@), self.dotfiles_dir@))
                    is Some,
        ensures
            texts_of(res.not_symlinked@) == related_all(
                *self,
                texts_of(groups@),
                SymlinkTypes { symlinked: false, not_symlinked: true, not_owned: true },
                platform@,
            ),
            texts_of(res.symlinked@) == related_all(
                *self,
                texts_of(groups@),
                SymlinkTypes { symlinked: true, not_symlinked: false, not_owned: false },
                platform@,
            ),
            strictly_sorted(texts_of(res.unsupported@)),
            text_set(texts_of(res.unsupported@)) == text_set(unsupported_groups(self.dotfiles_dir@, texts_of(groups@), platform@)),
            res.conflicts.wf(),
            res.conflicts@ == Map::new(
                |g: Seq<char>| conflicts@.dom().contains(g) && concerns(texts_of(groups@), g),
                |g: Seq<char>| conflicts@[g],
            ),
            res.invalid is None <==> spec_invalid_groups(texts_of(groups@), contained@).len() == 0,
            res.invalid matches Some(v) ==> texts_of(v@) == spec_invalid_groups(texts_of(groups@), contained@),
            res.outcome == (if res.invalid is None {
                Ok::<(), ReturnCode>(())
            } else {
                Err(ReturnCode::NoSetupFolder)
            }),
    {
        let not_symlinked = self.related_for_all(
            groups,
            SymlinkTypes { symlinked: false, not_symlinked: true, not_owned: true },
            platform,
        );
        let symlinked = self.related_for_all(
            groups,
            SymlinkTypes { symlinked: true, not_symlinked: false, not_owned: false },
            platform,
        );
        let configs = self.dotfiles_dir.push_part("Configs");
        let ghost dir = self.dotfiles_dir@;
        let ghost gs = texts_of(groups@);
        let ghost fu = |n: Seq<char>| !spec_is_valid_target(n, platform@);
        let ghost fname = |g: Seq<char>| group_name_of(dir, g);
        let mut names: Vec<String> = Vec::new();
        let mut i: usize = 0;
        while i < groups.len()
            invariant
                i <= groups@.len(),
                dir == self.dotfiles_dir@,
                configs@ == configs_dir_of(dir),
                gs == texts_of(groups@),
                fu == (|n: Seq<char>| !spec_is_valid_target(n, platform@)),
                fname == (|g: Seq<char>| group_name_of(dir, g)),
                forall|k: int|
                    0 <= k < groups@.len() ==> (#[trigger] spec_dotfile(group_entry(dir, groups@[k]@), dir)) is Some,
                texts_of(names@) == gs.take(i as int).map_values(fname).filter(fu),
            decreases groups@.len() - i,
        {
            let entry = configs.join_str(groups[i].as_str());
            let ghost n0 = texts_of(names@);
            let ghost gi = groups@[i as int]@;
            proof {
                assert(spec_dotfile(group_entry(dir, gi), dir) is Some);
            }
            let name = match Dotfile::try_from(entry, &self.dotfiles_dir) {
                Ok(d) => d.group_name,
                Err(_) => String::new(),
            };
            assert(name@ == group_name_of(dir, gi));
            let keep = !group_is_valid_target(name.as_str(), platform);
            if keep {
                names.push(name);
            }
            proof {
                let t = gs.take(i as int);
                assert(gs.take(i + 1) =~= t.push(gi));
                assert(gs.take(i + 1).map_values(fname) =~= t.map_values(fname).push(fname(gi)));
                lemma_filter_push(t.map_values(fname), fu, fname(gi));
                if keep {
                    assert(texts_of(names@) =~= n0.push(fname(gi)));
                } else {
                    assert(texts_of(names@) =~= n0);
                }
            }
            i = i + 1;
        }
        proof {
            assert(gs.take(groups@.len() as int) =~= gs);
            assert(gs.map_values(fname).filter(fu) =~= unsupported_groups(dir, gs, platform@));
        }
        let unsupported = sort_dedup(&names);
        let concerning = Self::conflicts_concerning(conflicts, groups);
        let invalid = check_invalid_groups(groups, contained);
        proof {
            assert(parts_view(groups@) =~= gs);
            if invalid is Some {
                let v = invalid->0;
                assert(parts_view(v@) =~= texts_of(v@));
            }
        }
        let outcome = if invalid.is_none() {
            Ok(())
        } else {
            Err(ReturnCode::NoSetupFolder)
        };
        GroupsStatus { not_symlinked, symlinked, unsupported, conflicts: concerning, invalid, outcome }
    }
}

/// Symlinks stay shallow: within a group, no dotfile in a state lies below
/// another dotfile in the same state; every dotfile in a state was
/// observed in that state, in its group; and no not symlinked dotfile lies
/// at or below a symlinked one of its group.
pub proof fn lemma_status_shallow(obs: Seq<Observation>, dir: PathView, kind: SymlinkType, g: Seq<char>, d1: DotfileView, d2: DotfileView)
    requires
        status_map(obs, dir, kind).dom().contains(g),
        status_map(obs, dir, kind)[g].contains(d1),
        status_map(obs, dir, kind)[g].contains(d2),
    ensures
        d1.path != d2.path ==> !spec_starts_with(d1.path, d2.path),
        d1.group_name == g,
        exists|i: int| 0 <= i < obs.len() && #[trigger] observed(obs[i], dir) == Some((kind, d1)),
        kind == SymlinkType::NotSymlinked ==> forall|s: DotfileView|
            #[trigger] final_files(obs, dir, SymlinkType::Symlinked, g).contains(s) ==> !spec_starts_with(d1.path, s.path),
{
    let f = final_files(obs, dir, kind, g);
    let s = raw_files(obs, dir, SymlinkType::Symlinked, g);
    let base = match kind {
        SymlinkType::Symlinked => s,
        SymlinkType::NotOwned => raw_files(obs, dir, SymlinkType::NotOwned, g),
        SymlinkType::NotSymlinked => raw_files(obs, dir, SymlinkType::NotSymlinked, g).filter(|x: DotfileView| !under_any(s, x)),
    };
    assert(f == canon(base));
    assert(base.contains(d1) && !covered_in(base, d1));
    assert(base.contains(d2));
    assert(raw_files(obs, dir, kind, g).contains(d1));
    if kind == SymlinkType::NotSymlinked {
        assert forall|x: DotfileView| #[trigger] final_files(obs, dir, SymlinkType::Symlinked, g).contains(x) implies !spec_starts_with(d1.path, x.path) by {
            assert(s.contains(x));
            assert(!under_any(s, d1));
        }
    }
}

/// The groups related to `target` are exactly: `target` itself, when it
/// is a conditional group and is held; otherwise the held groups whose
/// base group is `target` and that can be used on this platform.
pub proof fn lemma_related_in(order: Seq<Seq<char>>, target: Seq<char>, platform: PlatformView, x: Seq<char>)
    ensures
        related_in(order, target, platform).contains(x) <==> order.contains(x) && (if spec_ends_with_target(target) {
            x == target
        } else {
            spec_without_target(x) == target && spec_is_valid_target(x, platform)
        }),
{
    let f = |g: Seq<char>| spec_without_target(g) == target && spec_is_valid_target(g, platform);
    if spec_ends_with_target(target) {
        if order.contains(target) {
            assert(seq![target][0] == target);
        }
    } else {
        if order.filter(f).contains(x) {
            let k = choose|k: int| 0 <= k < order.filter(f).len() && order.filter(f)[k] == x;
            broadcast use vstd::seq_lib::group_filter_ensures;
            assert(f(order.filter(f)[k]));
            order.lemma_filter_contains_rev(f, x);
        }
        if order.contains(x) && f(x) {
            let k = choose|k: int| 0 <= k < order.len() && order[k] == x;
            broadcast use vstd::seq_lib::group_filter_ensures;
            assert(order.filter(f).contains(order[k]));
        }
    }
}

/// Only dotfiles that are not symlinked or not owned are in conflict, and
/// each in the group it belongs to.
pub proof fn lemma_conflicts_come_from_status(
    h: SymlinkHandler,
    home: PathView,
    env: Seq<(Seq<char>, Seq<char>)>,
    existing: Seq<FsPath>,
    links: Seq<LinkObservation>,
    platform: PlatformView,
    g: Seq<char>,
    d: DotfileView,
)
    requires
        conflicts_map(h, home, env, existing, links, platform).dom().contains(g),
        conflicts_map(h, home, env, existing, links, platform)[g].contains(d),
    ensures
        cache_files(h.not_symlinked@, g).contains(d) || cache_files(h.not_owned@, g).contains(d),
{
}

proof fn lemma_related_all_from_caches(h: SymlinkHandler, groups: Seq<Seq<char>>, types: SymlinkTypes, platform: PlatformView, x: Seq<char>)
    requires
        related_all(h, groups, types, platform).contains(x),
    ensures
        (types.symlinked && h.symlinked.order().contains(x)) || (types.not_symlinked && h.not_symlinked.order().contains(x))
            || (types.not_owned && h.not_owned.order().contains(x)),
    decreases groups.len(),
{
    if groups.len() > 0 {
        let prev = related_all(h, groups.drop_last(), types, platform);
        let last = related_groups(h, groups.last(), types, platform);
        let all = related_all(h, groups, types, platform);
        assert(all == prev + last);
        let k = choose|k: int| 0 <= k < all.len() && all[k] == x;
        if k < prev.len() {
            assert(prev[k] == x);
            lemma_related_all_from_caches(h, groups.drop_last(), types, platform, x);
        } else {
            assert(last[k - prev.len()] == x);
            let e = Seq::<Seq<char>>::empty();
            let r1 = if types.symlinked { related_in(h.symlinked.order(), groups.last(), platform) } else { e };
            let r2 = if types.not_symlinked { related_in(h.not_symlinked.order(), groups.last(), platform) } else { e };
            let r3 = if types.not_owned { related_in(h.not_owned.order(), groups.last(), platform) } else { e };
            assert(last == r1 + r2 + r3);
            let j = k - prev.len();
            if j < r1.len() {
                assert(r1[j] == x);
                lemma_related_in(h.symlinked.order(), groups.last(), platform, x);
            } else if j < r1.len() + r2.len() {
                assert(r2[j - r1.len()] == x);
                lemma_related_in(h.not_symlinked.order(), groups.last(), platform, x);
            } else {
                assert(r3[j - r1.len() - r2.len()] == x);
                lemma_related_in(h.not_owned.order(), groups.last(), platform, x);
            }
        }
    }
}

/// Adding works on not symlinked and not owned groups, and with `*` only
/// on those that can be used on this platform; removing works on
/// symlinked groups only.
pub proof fn lemma_add_and_remove_work_on_their_groups(h: SymlinkHandler, groups: Seq<Seq<char>>, platform: PlatformView, x: Seq<char>)
    ensures
        spec_groups_to_add(h, groups, platform).contains(x) ==> h.not_symlinked.order().contains(x)
            || h.not_owned.order().contains(x),
        groups.contains("*"@) && spec_groups_to_add(h, groups, platform).contains(x) ==> spec_is_valid_target(x, platform),
        spec_groups_to_remove(h, groups).contains(x) ==> h.symlinked.order().contains(x),
{
    broadcast use vstd::seq_lib::group_filter_ensures;
    let fv = |g: Seq<char>| spec_is_valid_target(g, platform);
    if spec_groups_to_add(h, groups, platform).contains(x) {
        if groups.contains("*"@) {
            h.not_symlinked.order().lemma_filter_contains_rev(fv, x);
            let k = choose|k: int| 0 <= k < h.not_symlinked.order().filter(fv).len() && h.not_symlinked.order().filter(fv)[k] == x;
            assert(fv(h.not_symlinked.order().filter(fv)[k]));
        } else {
            lemma_related_all_from_caches(h, groups, SymlinkTypes { symlinked: false, not_symlinked: true, not_owned: true }, platform, x);
        }
    }
    if spec_groups_to_remove(h, groups).contains(x) && !groups.contains("*"@) {
        let fr = |g: Seq<char>| groups.contains(g) || groups.contains(spec_without_target(g));
        h.symlinked.order().lemma_filter_contains_rev(fr, x);
    }
}

/// Removing a group also removes its conditional groups: every symlinked
/// group that was asked for, or whose base group (the group without its
/// target suffix) was asked for, and that is not excluded, is removed.
pub proof fn lemma_remove_takes_conditional_groups(
    h: SymlinkHandler,
    groups: Seq<Seq<char>>,
    exclude: Seq<Seq<char>>,
    x: Seq<char>,
)
    requires
        h.symlinked.order().contains(x),
        groups.contains(x) || groups.contains(spec_without_target(x)),
        !exclude.contains(x),
    ensures
        spec_groups_to_remove(h, groups).filter(|g: Seq<char>| !exclude.contains(g)).contains(x),
{
    broadcast use vstd::seq_lib::group_filter_ensures;
    let asked = |g: Seq<char>| groups.contains(g) || groups.contains(spec_without_target(g));
    let kept = |g: Seq<char>| !exclude.contains(g);
    assert(asked(x));
    assert(kept(x));
    let k = choose|k: int| 0 <= k < h.symlinked.order().len() && h.symlinked.order()[k] == x;
    if !groups.contains("*"@) {
        assert(h.symlinked.order().filter(asked).contains(x));
    }
    assert(spec_groups_to_remove(h, groups).contains(x));
}

/// A dotfile is reported in conflict only when it is not owned (its place
/// holds a symlink into other dotfiles that takes precedence) or its group
/// can be used on this platform: a not symlinked dotfile of a group for
/// another platform is never in conflict. And a not symlinked dotfile of a
/// usable group whose place is taken is in conflict.
pub proof fn lemma_conflicts_only_for_usable_groups(
    h: SymlinkHandler,
    g: Seq<char>,
    home: PathView,
    env: Seq<(Seq<char>, Seq<char>)>,
    existing: Seq<FsPath>,
    links: Seq<LinkObservation>,
    platform: PlatformView,
    d: DotfileView,
)
    ensures
        conflicting_files(h, g, home, env, existing, links, platform).contains(d) ==> spec_is_valid_target(
            d.group_name,
            platform,
        ) || cache_files(h.not_owned@, g).contains(d),
        cache_files(h.not_symlinked@, g).contains(d) && spec_is_valid_target(d.group_name, platform) && path_listed(
            existing,
            spec_target_path(d, h.dotfiles_dir@, home, env),
        ) ==> conflicting_files(h, g, home, env, existing, links, platform).contains(d),
{
}

proof fn lemma_concat_contains(a: Seq<Seq<char>>, b: Seq<Seq<char>>, x: Seq<char>)
    ensures
        (a + b).contains(x) <==> a.contains(x) || b.contains(x),
{
    if (a + b).contains(x) {
        let k = choose|k: int| 0 <= k < (a + b).len() && (a + b)[k] == x;
        if k < a.len() {
            assert(a[k] == x);
        } else {
            assert(b[k - a.len()] == x);
        }
    }
    if a.contains(x) {
        let k = choose|k: int| 0 <= k < a.len() && a[k] == x;
        assert((a + b)[k] == x);
    }
    if b.contains(x) {
        let k = choose|k: int| 0 <= k < b.len() && b[k] == x;
        assert((a + b)[a.len() + k] == x);
    }
}

proof fn lemma_related_groups_member(h: SymlinkHandler, t: Seq<char>, types: SymlinkTypes, platform: PlatformView, x: Seq<char>)
    ensures
        related_groups(h, t, types, platform).contains(x) <==> (types.symlinked && related_in(h.symlinked.order(), t, platform).contains(x))
            || (types.not_symlinked && related_in(h.not_symlinked.order(), t, platform).contains(x))
            || (types.not_owned && related_in(h.not_owned.order(), t, platform).contains(x)),
{
    let e = Seq::<Seq<char>>::empty();
    let r1 = if types.symlinked { related_in(h.symlinked.order(), t, platform) } else { e };
    let r2 = if types.not_symlinked { related_in(h.not_symlinked.order(), t, platform) } else { e };
    let r3 = if types.not_owned { related_in(h.not_owned.order(), t, platform) } else { e };
    assert(related_groups(h, t, types, platform) == r1 + r2 + r3);
    lemma_concat_contains(r1 + r2, r3, x);
    lemma_concat_contains(r1, r2, x);
    assert(!e.contains(x));
}

proof fn lemma_related_all_member(h: SymlinkHandler, groups: Seq<Seq<char>>, types: SymlinkTypes, platform: PlatformView, x: Seq<char>)
    ensures
        related_all(h, groups, types, platform).contains(x) <==> exists|i: int|
            0 <= i < groups.len() && #[trigger] related_groups(h, groups[i], types, platform).contains(x),
    decreases groups.len(),
{
    if groups.len() == 0 {
        assert(related_all(h, groups, types, platform) =~= Seq::<Seq<char>>::empty());
    } else {
        let d = groups.drop_last();
        lemma_related_all_member(h, d, types, platform, x);
        lemma_concat_contains(related_all(h, d, types, platform), related_groups(h, groups.last(), types, platform), x);
        if exists|i: int| 0 <= i < groups.len() && #[trigger] related_groups(h, groups[i], types, platform).contains(x) {
            let i = choose|i: int| 0 <= i < groups.len() && #[trigger] related_groups(h, groups[i], types, platform).contains(x);
            if i < groups.len() - 1 {
                assert(d[i] == groups[i]);
            }
        }
        if exists|i: int| 0 <= i < d.len() && #[trigger] related_groups(h, d[i], types, platform).contains(x) {
            let i = choose|i: int| 0 <= i < d.len() && #[trigger] related_groups(h, d[i], types, platform).contains(x);
            assert(groups[i] == d[i]);
        }
    }
}

/// Adding honours exclusions and works on the groups asked for: with `*`,
/// exactly the not symlinked groups usable on this platform; otherwise each
/// group asked for by its full name (if not symlinked or not owned), and
/// every not symlinked or not owned conditional variant usable on this
/// platform of a base group asked for. Nothing else is added, and nothing
/// excluded.
pub proof fn lemma_add_law(h: SymlinkHandler, groups: Seq<Seq<char>>, exclude: Seq<Seq<char>>, platform: PlatformView, x: Seq<char>)
    ensures
        ({
            let res = spec_groups_to_add(h, groups, platform).filter(|g: Seq<char>| !exclude.contains(g));
            let held = h.not_symlinked.order().contains(x) || h.not_owned.order().contains(x);
            &&& res.contains(x) ==> !exclude.contains(x) && held
            &&& groups.contains("*"@) ==> (res.contains(x) <==> h.not_symlinked.order().contains(x) && spec_is_valid_target(
                x,
                platform,
            ) && !exclude.contains(x))
            &&& !groups.contains("*"@) && res.contains(x) ==> groups.contains(x) || (groups.contains(spec_without_target(x))
                && spec_is_valid_target(x, platform))
            &&& !groups.contains("*"@) && groups.contains(spec_without_target(x)) && !spec_ends_with_target(spec_without_target(x))
                && spec_without_target(x) != x && spec_is_valid_target(x, platform) && held && !exclude.contains(x)
                ==> res.contains(x)
        }),
{
    broadcast use vstd::seq_lib::group_filter_ensures;
    let kept = |g: Seq<char>| !exclude.contains(g);
    let all = spec_groups_to_add(h, groups, platform);
    let res = all.filter(kept);
    let types = SymlinkTypes { symlinked: false, not_symlinked: true, not_owned: true };
    lemma_add_and_remove_work_on_their_groups(h, groups, platform, x);
    if res.contains(x) {
        let k = choose|k: int| 0 <= k < res.len() && res[k] == x;
        assert(kept(res[k]));
        all.lemma_filter_contains_rev(kept, x);
    }
    if groups.contains("*"@) {
        let fv = |g: Seq<char>| spec_is_valid_target(g, platform);
        if h.not_symlinked.order().contains(x) && fv(x) {
            assert(all.contains(x));
        }
        if all.contains(x) {
            let k = choose|k: int| 0 <= k < all.len() && all[k] == x;
            assert(fv(all[k]));
            h.not_symlinked.order().lemma_filter_contains_rev(fv, x);
        }
    } else {
        lemma_related_all_member(h, groups, types, platform, x);
        if all.contains(x) {
            let i = choose|i: int| 0 <= i < groups.len() && #[trigger] related_groups(h, groups[i], types, platform).contains(x);
            lemma_related_groups_member(h, groups[i], types, platform, x);
            lemma_related_in(h.not_symlinked.order(), groups[i], platform, x);
            lemma_related_in(h.not_owned.order(), groups[i], platform, x);
        }
        let b = spec_without_target(x);
        if groups.contains(b) && !spec_ends_with_target(b) && b != x && spec_is_valid_target(x, platform)
            && (h.not_symlinked.order().contains(x) || h.not_owned.order().contains(x)) && !exclude.contains(x) {
            let i = choose|i: int| 0 <= i < groups.len() && groups[i] == b;
            lemma_related_in(h.not_symlinked.order(), groups[i], platform, x);
            lemma_related_in(h.not_owned.order(), groups[i], platform, x);
            lemma_related_groups_member(h, groups[i], types, platform, x);
            assert(related_groups(h, groups[i], types, platform).contains(x));
            assert(all.contains(x));
            assert(kept(x));
        }
    }
}

/// Removing honours exclusions and works only on symlinked groups that
/// were asked for (`*`, their own name, or their base group).
pub proof fn lemma_remove_law(h: SymlinkHandler, groups: Seq<Seq<char>>, exclude: Seq<Seq<char>>, x: Seq<char>)
    ensures
        spec_groups_to_remove(h, groups).filter(|g: Seq<char>| !exclude.contains(g)).contains(x) ==> !exclude.contains(x)
            && h.symlinked.order().contains(x) && (groups.contains("*"@) || groups.contains(x) || groups.contains(
            spec_without_target(x),
        )),
{
    broadcast use vstd::seq_lib::group_filter_ensures;
    let kept = |g: Seq<char>| !exclude.contains(g);
    let all = spec_groups_to_remove(h, groups);
    if all.filter(kept).contains(x) {
        let k = choose|k: int| 0 <= k < all.filter(kept).len() && all.filter(kept)[k] == x;
        assert(kept(all.filter(kept)[k]));
        all.lemma_filter_contains_rev(kept, x);
        if !groups.contains("*"@) {
            let wanted = |g: Seq<char>| groups.contains(g) || groups.contains(spec_without_target(g));
            let m = choose|m: int| 0 <= m < all.len() && all[m] == x;
            assert(wanted(all[m]));
            h.symlinked.order().lemma_filter_contains_rev(wanted, x);
        }
    }
}

/// Symlinking never replaces what is already at a dotfile's place, and a
/// dry run changes nothing: a symlink is made exactly when the place is
/// free and it is not a dry run.
pub proof fn lemma_link_action_law(target_exists: bool, dry_run: bool)
    ensures
        (spec_link_action(target_exists, dry_run) == LinkAction::Create) <==> (!target_exists && !dry_run),
        target_exists ==> spec_link_action(target_exists, dry_run) != LinkAction::Create && spec_link_action(
            target_exists,
            dry_run,
        ) != LinkAction::ReportPlanned,
        dry_run ==> spec_link_action(target_exists, dry_run) != LinkAction::Create && spec_link_action(target_exists, dry_run)
            != LinkAction::Skip,
        !target_exists ==> spec_link_action(target_exists, dry_run) != LinkAction::Skip && spec_link_action(
            target_exists,
            dry_run,
        ) != LinkAction::ReportExisting,
{
}

/// Adding asks for confirmation exactly when it would force or adopt and
/// was not answered in advance; forcing is asked about as overriding.
pub proof fn lemma_confirmation_law(force: bool, adopt: bool, assume_yes: bool)
    ensures
        spec_confirmation_prompt(force, adopt, assume_yes) is Some <==> !assume_yes && (force || adopt),
        !assume_yes && force ==> spec_confirmation_prompt(force, adopt, assume_yes) == Some(
            "Are you sure you want to override conflicts?"@,
        ),
        !assume_yes && !force && adopt ==> spec_confirmation_prompt(force, adopt, assume_yes) == Some(
            "Are you sure you want to adopt conflicts?"@,
        ),
{
}

/// The overall status lists every group under its base group: a not
/// symlinked group usable on this platform, or a symlinked group with not
/// symlinked parts, shows its base group as not symlinked; a symlinked
/// group without not symlinked parts shows it as symlinked. A base group
/// shown as not symlinked comes from such a group.
pub proof fn lemma_global_status_law(h: SymlinkHandler, platform: PlatformView, x: Seq<char>, b: Seq<char>)
    ensures
        h.not_symlinked.order().contains(x) && spec_is_valid_target(x, platform) ==> shown_not_symlinked(h, platform).contains(
            spec_without_target(x),
        ),
        h.symlinked.order().contains(x) && partly_not_symlinked(h, x, platform) && spec_is_valid_target(x, platform)
            ==> shown_not_symlinked(h, platform).contains(spec_without_target(x)),
        h.symlinked.order().contains(x) && !partly_not_symlinked(h, x, platform) ==> shown_symlinked(h, platform).contains(
            spec_without_target(x),
        ),
        shown_not_symlinked(h, platform).contains(b) ==> exists|y: Seq<char>|
            #[trigger] spec_without_target(y) == b && spec_is_valid_target(y, platform) && (h.not_symlinked.order().contains(y)
                || h.symlinked.order().contains(y)),
        shown_symlinked(h, platform).contains(b) ==> exists|y: Seq<char>|
            #[trigger] spec_without_target(y) == b && h.symlinked.order().contains(y),
{
    broadcast use vstd::seq_lib::group_filter_ensures;
    let fp = |g: Seq<char>| partly_not_symlinked(h, g, platform);
    let fa = |g: Seq<char>| !partly_not_symlinked(h, g, platform);
    let fv = |g: Seq<char>| spec_is_valid_target(g, platform);
    let pool = h.not_symlinked.order() + h.symlinked.order().filter(fp);
    let vs = pool.filter(fv);
    let ss = h.symlinked.order().filter(fa);
    assert(shown_not_symlinked(h, platform) == without_targets(vs));
    assert(shown_symlinked(h, platform) == without_targets(ss));
    lemma_concat_contains(h.not_symlinked.order(), h.symlinked.order().filter(fp), x);
    if (h.not_symlinked.order().contains(x) || (h.symlinked.order().contains(x) && fp(x))) && fv(x) {
        assert(pool.contains(x));
        assert(vs.contains(x));
        let k = choose|k: int| 0 <= k < vs.len() && vs[k] == x;
        assert(without_targets(vs)[k] == spec_without_target(x));
    }
    if h.symlinked.order().contains(x) && fa(x) {
        assert(ss.contains(x));
        let k = choose|k: int| 0 <= k < ss.len() && ss[k] == x;
        assert(without_targets(ss)[k] == spec_without_target(x));
    }
    lemma_shown_from_groups(h, platform, b);
}

proof fn lemma_shown_from_groups(h: SymlinkHandler, platform: PlatformView, b: Seq<char>)
    ensures
        shown_not_symlinked(h, platform).contains(b) ==> exists|y: Seq<char>|
            #[trigger] spec_without_target(y) == b && spec_is_valid_target(y, platform) && (h.not_symlinked.order().contains(y)
                || h.symlinked.order().contains(y)),
        shown_symlinked(h, platform).contains(b) ==> exists|y: Seq<char>|
            #[trigger] spec_without_target(y) == b && h.symlinked.order().contains(y),
{
    broadcast use vstd::seq_lib::group_filter_ensures;
    let fp = |g: Seq<char>| partly_not_symlinked(h, g, platform);
    let fa = |g: Seq<char>| !partly_not_symlinked(h, g, platform);
    let fv = |g: Seq<char>| spec_is_valid_target(g, platform);
    let pool = h.not_symlinked.order() + h.symlinked.order().filter(fp);
    let vs = pool.filter(fv);
    let ss = h.symlinked.order().filter(fa);
    assert(shown_not_symlinked(h, platform) == without_targets(vs));
    assert(shown_symlinked(h, platform) == without_targets(ss));
    if without_targets(vs).contains(b) {
        let k = choose|k: int| 0 <= k < without_targets(vs).len() && without_targets(vs)[k] == b;
        let y = vs[k];
        assert(without_targets(vs)[k] == spec_without_target(vs[k]));
        assert(vs.contains(y));
        assert(fv(y));
        pool.lemma_filter_contains_rev(fv, y);
        lemma_concat_contains(h.not_symlinked.order(), h.symlinked.order().filter(fp), y);
        if h.symlinked.order().filter(fp).contains(y) {
            h.symlinked.order().lemma_filter_contains_rev(fp, y);
        }
        assert(spec_without_target(y) == b);
        assert(spec_is_valid_target(y, platform));
        assert(h.not_symlinked.order().contains(y) || h.symlinked.order().contains(y));
    }
    if without_targets(ss).contains(b) {
        let k = choose|k: int| 0 <= k < without_targets(ss).len() && without_targets(ss)[k] == b;
        let y = ss[k];
        assert(without_targets(ss)[k] == spec_without_target(ss[k]));
        assert(ss.contains(y));
        h.symlinked.order().lemma_filter_contains_rev(fa, y);
        assert(spec_without_target(y) == b);
    }
}

/// The status of the groups asked about lists, as not symlinked, the not
/// symlinked or not owned groups related to one of them, and as symlinked
/// the symlinked ones; a conditional group of another platform is listed
/// only when asked for by its full name.
pub proof fn lemma_groups_status_law(h: SymlinkHandler, groups: Seq<Seq<char>>, types: SymlinkTypes, platform: PlatformView, x: Seq<char>)
    ensures
        related_all(h, groups, types, platform).contains(x) ==> (groups.contains(x) || (groups.contains(spec_without_target(x))
            && spec_is_valid_target(x, platform))),
        related_all(h, groups, types, platform).contains(x) ==> (types.symlinked && h.symlinked.order().contains(x)) || (
        types.not_symlinked && h.not_symlinked.order().contains(x)) || (types.not_owned && h.not_owned.order().contains(x)),
        groups.contains(spec_without_target(x)) && !spec_ends_with_target(spec_without_target(x)) && spec_without_target(x)
            != x && spec_is_valid_target(x, platform) && ((types.symlinked && h.symlinked.order().contains(x)) || (
        types.not_symlinked && h.not_symlinked.order().contains(x)) || (types.not_owned && h.not_owned.order().contains(x)))
            ==> related_all(h, groups, types, platform).contains(x),
{
    lemma_related_all_member(h, groups, types, platform, x);
    if related_all(h, groups, types, platform).contains(x) {
        lemma_related_all_from_caches(h, groups, types, platform, x);
        let i = choose|i: int| 0 <= i < groups.len() && #[trigger] related_groups(h, groups[i], types, platform).contains(x);
        lemma_related_groups_member(h, groups[i], types, platform, x);
        lemma_related_in(h.symlinked.order(), groups[i], platform, x);
        lemma_related_in(h.not_symlinked.order(), groups[i], platform, x);
        lemma_related_in(h.not_owned.order(), groups[i], platform, x);
    }
    let b = spec_without_target(x);
    if groups.contains(b) && !spec_ends_with_target(b) && b != x && spec_is_valid_target(x, platform) {
        let i = choose|i: int| 0 <= i < groups.len() && groups[i] == b;
        lemma_related_in(h.symlinked.order(), groups[i], platform, x);
        lemma_related_in(h.not_symlinked.order(), groups[i], platform, x);
        lemma_related_in(h.not_owned.order(), groups[i], platform, x);
        lemma_related_groups_member(h, groups[i], types, platform, x);
    }
}

/// A conflict is explained as a symlink elsewhere exactly when the place
/// holds a symlink that points outside any dotfiles directory; anything
/// else there (a file, or a symlink into dotfiles) already exists.
pub proof fn lemma_conflict_reason_law(link: Option<LinkObservation>)
    ensures
        (spec_conflict_reason(link) == ConflictReason::SymlinksElsewhere) <==> (link matches Some(l) && (
        l.source_dotfiles_dir is None || spec_dotfile(l.source@, l.source_dotfiles_dir->0@) is None)),
        link is None ==> spec_conflict_reason(link) == ConflictReason::AlreadyExists,
{
}

/// Fallbacks are no conflict: a not owned dotfile whose place links into
/// another group of the same base group, or into a group of no higher
/// priority, is not in conflict; one whose place links outside the
/// dotfiles, or to a different file of a higher priority group of another
/// base group, is.
pub proof fn lemma_link_conflicts_law(o: DotfileView, l: LinkObservation)
    ensures
        (l.source_dotfiles_dir is None) ==> link_conflicts(o, l),
        (l.source_dotfiles_dir matches Some(sd) && spec_dotfile(l.source@, sd@) is None) ==> link_conflicts(o, l),
        (l.source_dotfiles_dir matches Some(sd) && spec_dotfile(l.source@, sd@) matches Some(d) && spec_without_target(
            d.group_name,
        ) == spec_without_target(o.group_name)) ==> !link_conflicts(o, l),
        (l.source_dotfiles_dir matches Some(sd) && spec_dotfile(l.source@, sd@) matches Some(d) && spec_group_priority(
            d.group_name,
        ) <= spec_group_priority(o.group_name)) ==> !link_conflicts(o, l),
        (l.source_dotfiles_dir matches Some(sd) && spec_dotfile(l.source@, sd@) matches Some(d) && d.path != o.path
            && spec_group_priority(d.group_name) > spec_group_priority(o.group_name) && spec_without_target(d.group_name)
            != spec_without_target(o.group_name)) ==> link_conflicts(o, l),
{
}

/// Adding a group symlinks its not symlinked related groups, each once as
/// often as it is related, the most specific first.
pub proof fn lemma_add_order_law(h: SymlinkHandler, group: Seq<char>, platform: PlatformView)
    ensures
        ({
            let rel = related_groups(h, group, only_not_symlinked(), platform);
            let ord = spec_deploy_order(rel);
            &&& ord.to_multiset() == rel.to_multiset()
            &&& forall|a: int, b: int|
                0 <= a < b < ord.len() ==> spec_group_priority(#[trigger] ord[a]) >= spec_group_priority(#[trigger] ord[b])
            &&& forall|x: Seq<char>| rel.contains(x) <==> related_in(h.not_symlinked.order(), group, platform).contains(x)
        }),
{
    let rel = related_groups(h, group, only_not_symlinked(), platform);
    crate::dotfiles::lemma_deploy_order(rel);
    assert forall|x: Seq<char>| rel.contains(x) <==> related_in(h.not_symlinked.order(), group, platform).contains(x) by {
        lemma_related_groups_member(h, group, only_not_symlinked(), platform, x);
    }
}

} // verus!
