//! Hooks: scripts that run around deploying a group.
//!
//! Deploying a group with hooks goes through the stages of a state machine:
//! 1. Setup scripts are run
//! 2. Dotfiles are symlinked
//! 3. Post setup scripts are run

use vstd::prelude::*;
use crate::dotfiles::{
    check_invalid_groups, group_is_valid_target, Platform, PlatformView, group_without_target, spec_invalid_groups, spec_is_valid_target,
    spec_without_target,
};
use crate::order::{sort_dedup, strictly_sorted, text_set, texts_of};
use crate::path::{copy_string, parts_view};
use crate::text::{spec_starts_with_text, starts_with, text_eq};

verus! {

/// A stage of deploying a group.
#[derive(Clone, Copy, PartialEq, Eq, Structural, Debug)]
pub enum DeployStep {
    /// Before deployment starts
    Initialize,
    PreHook,
    Symlink,
    PostHook,
}

/// The stage a deployment is in.
pub struct DeployStages(pub DeployStep);

/// The stage that follows `s`, if any.
pub open spec fn spec_next_step(s: DeployStep) -> Option<DeployStep> {
    match s {
        DeployStep::Initialize => Some(DeployStep::PreHook),
        DeployStep::PreHook => Some(DeployStep::Symlink),
        DeployStep::Symlink => Some(DeployStep::PostHook),
        DeployStep::PostHook => None,
    }
}

impl DeployStages {
    /// A deployment that has not started.
    pub fn new() -> (res: DeployStages)
        ensures
            res.0 == DeployStep::Initialize,
    {
        DeployStages(DeployStep::Initialize)
    }

    /// Moves to the next stage and returns it; `None`, without moving, once
    /// the post hooks were reached.
    pub fn next_step(&mut self) -> (res: Option<DeployStep>)
        ensures
            res == spec_next_step(old(self).0),
            final(self).0 == (match res {
                Some(s) => s,
                None => old(self).0,
            }),
    {
        match self.0 {
            DeployStep::Initialize => {
                self.0 = DeployStep::PreHook;
                Some(DeployStep::PreHook)
            },
            DeployStep::PreHook => {
                self.0 = DeployStep::Symlink;
                Some(DeployStep::Symlink)
            },
            DeployStep::Symlink => {
                self.0 = DeployStep::PostHook;
                Some(DeployStep::PostHook)
            },
            DeployStep::PostHook => None,
        }
    }
}

/// From the start, the stages come in the order pre hooks, symlinking,
/// post hooks, and then no more.
pub proof fn lemma_stage_order()
    ensures
        spec_next_step(DeployStep::Initialize) == Some(DeployStep::PreHook),
        spec_next_step(DeployStep::PreHook) == Some(DeployStep::Symlink),
        spec_next_step(DeployStep::Symlink) == Some(DeployStep::PostHook),
        spec_next_step(DeployStep::PostHook) is None,
        forall|s: DeployStep| #[trigger] spec_next_step(s) != Some(DeployStep::Initialize),
{
}

/// A hook file runs at `step` when its name starts with `pre` (pre hooks)
/// or `post` (post hooks); at any other step every file runs.
pub open spec fn spec_hook_runs_for_step(step: DeployStep, filename: Seq<char>) -> bool {
    match step {
        DeployStep::PreHook => spec_starts_with_text(filename, "pre"@),
        DeployStep::PostHook => spec_starts_with_text(filename, "post"@),
        _ => true,
    }
}

/// Whether the hook file `filename` runs at stage `step`.
pub fn hook_runs_for_step(step: DeployStep, filename: &str) -> (res: bool)
    ensures
        res == spec_hook_runs_for_step(step, filename@),
{
    match step {
        DeployStep::PreHook => starts_with(filename, "pre"),
        DeployStep::PostHook => starts_with(filename, "post"),
        _ => true,
    }
}

/// Whether the hook file `filename` is a cleanup hook: its name starts with `rm`.
pub fn is_cleanup_hook(filename: &str) -> (res: bool)
    ensures
        res == spec_starts_with_text(filename@, "rm"@),
{
    starts_with(filename, "rm")
}

/// Which kinds of hooks a group has, judged by the names of its hook files:
/// a name starting with `pre` is a pre hook, else one starting with `post`
/// a post hook, else one starting with `rm` a cleanup hook.
pub open spec fn spec_hook_kinds(names: Seq<Seq<char>>) -> (bool, bool, bool) {
    (
        exists|i: int| 0 <= i < names.len() && spec_starts_with_text(#[trigger] names[i], "pre"@),
        exists|i: int|
            0 <= i < names.len() && !spec_starts_with_text(#[trigger] names[i], "pre"@)
                && spec_starts_with_text(names[i], "post"@),
        exists|i: int|
            0 <= i < names.len() && !spec_starts_with_text(#[trigger] names[i], "pre"@)
                && !spec_starts_with_text(names[i], "post"@) && spec_starts_with_text(names[i], "rm"@),
    )
}

/// Whether the hook files `names` of a group hold a pre hook, a post hook
/// and a cleanup hook.
pub fn hook_kinds(names: &Vec<String>) -> (res: (bool, bool, bool))
    ensures
        res == spec_hook_kinds(parts_view(names@)),
{
    let ghost ns = parts_view(names@);
    let mut pre = false;
    let mut post = false;
    let mut rm = false;
    let mut i: usize = 0;
    while i < names.len()
        invariant
            i <= names.len(),
            ns == parts_view(names@),
            pre == exists|k: int| 0 <= k < i && spec_starts_with_text(#[trigger] ns[k], "pre"@),
            post == exists|k: int|
                0 <= k < i && !spec_starts_with_text(#[trigger] ns[k], "pre"@) && spec_starts_with_text(ns[k], "post"@),
            rm == exists|k: int|
                0 <= k < i && !spec_starts_with_text(#[trigger] ns[k], "pre"@) && !spec_starts_with_text(ns[k], "post"@)
                    && spec_starts_with_text(ns[k], "rm"@),
        decreases names.len() - i,
    {
        let hook = names[i].as_str();
        assert(ns[i as int] == hook@);
        if starts_with(hook, "pre") {
            pre = true;
        } else if starts_with(hook, "post") {
            post = true;
        } else if starts_with(hook, "rm") {
            rm = true;
        }
        i = i + 1;
    }
    (pre, post, rm)
}

/// Whether none of `groups` has a hooks directory; `has_hooks[i]` tells
/// whether `groups[i]` has one. A list holding `*` never counts as such.
pub fn all_hooks_are_nonexistent(groups: &Vec<String>, has_hooks: &Vec<bool>) -> (res: bool)
    requires
        groups.len() == has_hooks.len(),
    ensures
        res == (spec_invalid_groups(parts_view(groups@), has_hooks@).len() > 0
            && spec_invalid_groups(parts_view(groups@), has_hooks@).len() == groups.len()),
{
    match check_invalid_groups(groups, has_hooks) {
        Some(nonexistent_groups) => {
            assert(parts_view(nonexistent_groups@).len() == nonexistent_groups@.len());
            nonexistent_groups.len() == groups.len()
        },
        None => false,
    }
}

/// A group's deployment is skipped when the group is not for this
/// platform or is excluded.
pub open spec fn spec_deploy_skipped(group: Seq<char>, exclude: Seq<Seq<char>>, platform: PlatformView) -> bool {
    !spec_is_valid_target(group, platform) || exclude.contains(group)
}

/// Whether `xs` holds the text `x`.
pub fn contains_text(xs: &Vec<String>, x: &str) -> (res: bool)
    ensures
        res == parts_view(xs@).contains(x@),
{
    let target = String::from_str(x);
    let mut i: usize = 0;
    while i < xs.len()
        invariant
            i <= xs.len(),
            target@ == x@,
            forall|k: int| 0 <= k < i ==> xs@[k]@ != x@,
        decreases xs.len() - i,
    {
        if xs[i] == target {
            assert(parts_view(xs@)[i as int] == x@);
            return true;
        }
        i = i + 1;
    }
    proof {
        if parts_view(xs@).contains(x@) {
            let k = choose|k: int| 0 <= k < parts_view(xs@).len() && parts_view(xs@)[k] == x@;
            assert(xs@[k]@ == x@);
        }
    }
    false
}

/// Whether deploying `group` is skipped.
pub fn deploy_skipped(group: &str, exclude: &Vec<String>, platform: &Platform) -> (res: bool)
    ensures
        res == spec_deploy_skipped(group@, parts_view(exclude@), platform@),
{
    !group_is_valid_target(group, platform) || contains_text(exclude, group)
}

/// The groups asked for, followed by the hooks entries, taken in order,
/// that are a conditional variant of a group already in the list.
pub open spec fn expand_hook_groups(groups: Seq<Seq<char>>, hook_entries: Seq<Seq<char>>) -> Seq<Seq<char>>
    decreases hook_entries.len(),
{
    if hook_entries.len() == 0 {
        groups
    } else {
        let prev = expand_hook_groups(groups, hook_entries.drop_last());
        let f = hook_entries.last();
        if exists|k: int| 0 <= k < prev.len() && #[trigger] prev[k] == spec_without_target(f) && prev[k] != f {
            prev.push(f)
        } else {
            prev
        }
    }
}

/// The groups whose hooks are run: with `*`, every entry of the hooks
/// directory and of the configs directory; otherwise the groups asked for
/// and the hooks entries that are conditional variants of them (see
/// `expand_hook_groups`).
pub open spec fn spec_hook_groups(
    groups: Seq<Seq<char>>,
    hook_entries: Seq<Seq<char>>,
    config_entries: Seq<Seq<char>>,
) -> Set<Seq<char>> {
    if groups.contains("*"@) {
        text_set(hook_entries + config_entries)
    } else {
        text_set(expand_hook_groups(groups, hook_entries))
    }
}

/// The groups whose hooks are run, in sorted order, each once (see
/// `spec_hook_groups`); sorting puts each conditional group right after its
/// base group. `hook_entries` and `config_entries` are the names in the
/// hooks and configs directories (`config_entries` empty when it is missing).
pub fn hook_groups_to_run(groups: &Vec<String>, hook_entries: &Vec<String>, config_entries: &Vec<String>) -> (res: Vec<String>)
    ensures
        strictly_sorted(texts_of(res@)),
        text_set(texts_of(res@)) == spec_hook_groups(parts_view(groups@), parts_view(hook_entries@), parts_view(config_entries@)),
{
    let mut all: Vec<String> = Vec::new();
    let ghost gs = parts_view(groups@);
    let ghost hs = parts_view(hook_entries@);
    let ghost cs = parts_view(config_entries@);
    if contains_text(groups, "*") {
        let mut i: usize = 0;
        while i < hook_entries.len()
            invariant
                i <= hook_entries.len(),
                hs == parts_view(hook_entries@),
                texts_of(all@) == hs.take(i as int),
            decreases hook_entries.len() - i,
        {
            all.push(copy_string(&hook_entries[i]));
            proof {
                assert(hs.take(i + 1) =~= hs.take(i as int).push(hs[i as int]));
                assert(texts_of(all@) =~= texts_of(all@).drop_last().push(hs[i as int]));
            }
            i = i + 1;
        }
        let mut j: usize = 0;
        while j < config_entries.len()
            invariant
                j <= config_entries.len(),
                hs == parts_view(hook_entries@),
                cs == parts_view(config_entries@),
                texts_of(all@) == hs + cs.take(j as int),
            decreases config_entries.len() - j,
        {
            all.push(copy_string(&config_entries[j]));
            proof {
                assert(cs.take(j + 1) =~= cs.take(j as int).push(cs[j as int]));
                assert(hs + cs.take(j + 1) =~= (hs + cs.take(j as int)).push(cs[j as int]));
                assert(texts_of(all@) =~= texts_of(all@).drop_last().push(cs[j as int]));
            }
            j = j + 1;
        }
        proof {
            assert(hs.take(hook_entries.len() as int) =~= hs);
            assert(cs.take(config_entries.len() as int) =~= cs);
        }
        let res = sort_dedup(&all);
        return res;
    }
    let mut i: usize = 0;
    while i < groups.len()
        invariant
            i <= groups.len(),
            gs == parts_view(groups@),
            texts_of(all@) == gs.take(i as int),
        decreases groups.len() - i,
    {
        all.push(copy_string(&groups[i]));
        proof {
            assert(gs.take(i + 1) =~= gs.take(i as int).push(gs[i as int]));
            assert(texts_of(all@) =~= texts_of(all@).drop_last().push(gs[i as int]));
        }
        i = i + 1;
    }
    proof {
        assert(gs.take(groups.len() as int) =~= gs);
        assert(hs.take(0) =~= Seq::<Seq<char>>::empty());
    }
    let mut j: usize = 0;
    while j < hook_entries.len()
        invariant
            j <= hook_entries.len(),
            gs == parts_view(groups@),
            hs == parts_view(hook_entries@),
            texts_of(all@) == expand_hook_groups(gs, hs.take(j as int)),
        decreases hook_entries.len() - j,
    {
        let filename = hook_entries[j].as_str();
        let base_group = group_without_target(filename);
        let ghost prev = texts_of(all@);
        let mut found = false;
        let mut k: usize = 0;
        while k < all.len()
            invariant
                k <= all.len(),
                prev == texts_of(all@),
                base_group@ == spec_without_target(filename@),
                found == exists|m: int| 0 <= m < k && #[trigger] prev[m] == spec_without_target(filename@) && prev[m] != filename@,
            decreases all.len() - k,
        {
            proof {
                assert(prev[k as int] == all@[k as int]@);
            }
            if text_eq(all[k].as_str(), base_group) && !text_eq(all[k].as_str(), filename) {
                found = true;
            }
            k = k + 1;
        }
        if found {
            all.push(copy_string(&hook_entries[j]));
        }
        proof {
            let t1 = hs.take(j + 1);
            assert(t1.drop_last() =~= hs.take(j as int));
            assert(t1.last() == filename@);
            assert(hs[j as int] == filename@);
            if found {
                assert(texts_of(all@) =~= prev.push(filename@));
            } else {
                assert(texts_of(all@) =~= prev);
            }
        }
        j = j + 1;
    }
    proof {
        assert(hs.take(hook_entries.len() as int) =~= hs);
        assert(!gs.contains("*"@));
    }
    sort_dedup(&all)
}

/// Exclusions are honoured whatever their place in the list: a group named
/// anywhere in `exclude` is skipped, as is a group that is not for this
/// platform; any other group is deployed.
pub proof fn lemma_excluded_groups_are_skipped(group: Seq<char>, exclude: Seq<Seq<char>>, platform: PlatformView)
    ensures
        forall|i: int| 0 <= i < exclude.len() && #[trigger] exclude[i] == group ==> spec_deploy_skipped(group, exclude, platform),
        !spec_is_valid_target(group, platform) ==> spec_deploy_skipped(group, exclude, platform),
        spec_is_valid_target(group, platform) && (forall|i: int| 0 <= i < exclude.len() ==> #[trigger] exclude[i] != group)
            ==> !spec_deploy_skipped(group, exclude, platform),
{
    assert forall|i: int| 0 <= i < exclude.len() && #[trigger] exclude[i] == group implies spec_deploy_skipped(
        group,
        exclude,
        platform,
    ) by {
        assert(exclude.contains(group));
    }
}

proof fn lemma_expand_member(groups: Seq<Seq<char>>, hook_entries: Seq<Seq<char>>, x: Seq<char>)
    ensures
        groups.contains(x) ==> expand_hook_groups(groups, hook_entries).contains(x),
        expand_hook_groups(groups, hook_entries).contains(x) ==> groups.contains(x) || hook_entries.contains(x),
        hook_entries.contains(x) && groups.contains(spec_without_target(x)) && spec_without_target(x) != x
            ==> expand_hook_groups(groups, hook_entries).contains(x),
    decreases hook_entries.len(),
{
    if hook_entries.len() > 0 {
        let d = hook_entries.drop_last();
        let f = hook_entries.last();
        let prev = expand_hook_groups(groups, d);
        let r = expand_hook_groups(groups, hook_entries);
        lemma_expand_member(groups, d, x);
        lemma_expand_member(groups, d, spec_without_target(f));
        if prev.contains(x) {
            let k = choose|k: int| 0 <= k < prev.len() && prev[k] == x;
            if r != prev {
                assert(r == prev.push(f));
                assert(r[k] == x);
            }
        }
        if r.contains(x) && !prev.contains(x) {
            let k = choose|k: int| 0 <= k < r.len() && r[k] == x;
            assert(r == prev.push(f));
            assert(x == f);
            assert(hook_entries[hook_entries.len() - 1] == x);
        }
        if prev.contains(x) && !groups.contains(x) && d.contains(x) {
            let k = choose|k: int| 0 <= k < d.len() && d[k] == x;
            assert(hook_entries[k] == x);
        }
        if hook_entries.contains(x) && groups.contains(spec_without_target(x)) && spec_without_target(x) != x {
            let k = choose|k: int| 0 <= k < hook_entries.len() && hook_entries[k] == x;
            if k < hook_entries.len() - 1 {
                assert(d[k] == x);
            } else {
                assert(f == x);
                let m = choose|m: int| 0 <= m < prev.len() && prev[m] == spec_without_target(f);
                assert(prev[m] == spec_without_target(f) && prev[m] != f);
                assert(r == prev.push(f));
                assert(r[prev.len() as int] == x);
            }
        }
    }
}

/// The hooks run for the groups asked for: with `*`, those of every entry
/// of the hooks and configs directories; otherwise those of every group
/// asked for, and of every hooks entry that is a conditional variant of a
/// group asked for; and of nothing else.
pub proof fn lemma_hook_groups_law(groups: Seq<Seq<char>>, hook_entries: Seq<Seq<char>>, config_entries: Seq<Seq<char>>, x: Seq<char>)
    ensures
        groups.contains("*"@) ==> (spec_hook_groups(groups, hook_entries, config_entries).contains(x) <==> hook_entries.contains(x)
            || config_entries.contains(x)),
        !groups.contains("*"@) && groups.contains(x) ==> spec_hook_groups(groups, hook_entries, config_entries).contains(x),
        !groups.contains("*"@) && hook_entries.contains(x) && groups.contains(spec_without_target(x)) && spec_without_target(x)
            != x ==> spec_hook_groups(groups, hook_entries, config_entries).contains(x),
        !groups.contains("*"@) && spec_hook_groups(groups, hook_entries, config_entries).contains(x) ==> groups.contains(x)
            || hook_entries.contains(x),
{
    lemma_expand_member(groups, hook_entries, x);
    if groups.contains("*"@) {
        let all = hook_entries + config_entries;
        if all.contains(x) {
            let k = choose|k: int| 0 <= k < all.len() && all[k] == x;
            if k < hook_entries.len() {
                assert(hook_entries[k] == x);
            } else {
                assert(config_entries[k - hook_entries.len()] == x);
            }
        }
        if hook_entries.contains(x) {
            let k = choose|k: int| 0 <= k < hook_entries.len() && hook_entries[k] == x;
            assert(all[k] == x);
        }
        if config_entries.contains(x) {
            let k = choose|k: int| 0 <= k < config_entries.len() && config_entries[k] == x;
            assert(all[hook_entries.len() + k] == x);
        }
    }
}

/// Pre hooks are the files whose name starts with `pre`, post hooks those
/// whose name starts with `post`; a pre hook is never run as a post hook
/// unless its name also starts with `post`, and outside the hook stages
/// every file counts.
pub proof fn lemma_hook_step_law(filename: Seq<char>)
    ensures
        spec_hook_runs_for_step(DeployStep::PreHook, filename) <==> filename.len() >= 3 && filename.subrange(0, 3) == "pre"@,
        spec_hook_runs_for_step(DeployStep::PostHook, filename) <==> filename.len() >= 4 && filename.subrange(0, 4)
            == "post"@,
        spec_hook_runs_for_step(DeployStep::Symlink, filename),
        spec_hook_runs_for_step(DeployStep::Initialize, filename),
{
    reveal_strlit("pre");
    reveal_strlit("post");
}

/// Which kinds of hooks a group has: any file starting with `pre` makes a
/// pre hook; a file starting with `post` (and not `pre`) a post hook; and
/// a group with no file starting with `pre` has no pre hook.
pub proof fn lemma_hook_kinds_law(names: Seq<Seq<char>>, i: int)
    requires
        0 <= i < names.len(),
    ensures
        spec_starts_with_text(names[i], "pre"@) ==> spec_hook_kinds(names).0,
        !spec_starts_with_text(names[i], "pre"@) && spec_starts_with_text(names[i], "post"@) ==> spec_hook_kinds(names).1,
        !spec_starts_with_text(names[i], "pre"@) && !spec_starts_with_text(names[i], "post"@) && spec_starts_with_text(
            names[i],
            "rm"@,
        ) ==> spec_hook_kinds(names).2,
        (forall|k: int| 0 <= k < names.len() ==> !spec_starts_with_text(#[trigger] names[k], "pre"@)) ==> !spec_hook_kinds(names).0,
{
}

} // verus!
