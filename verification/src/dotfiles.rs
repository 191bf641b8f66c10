//! Dotfiles: the files under `dotfiles/{Configs,Hooks,Secrets}/<group>` and
//! where they are deployed.
//!
//! A group whose name ends with a platform suffix (`_linux`, `_unix`, ...) is
//! a conditional group: it only applies on that platform and is otherwise
//! treated as part of the group named without the suffix.

use vstd::prelude::*;
use crate::path::{
    FsPath, parts_view, PathView, chars_of, copy_string, copy_strings, is_normal_part, spec_join, spec_parse, spec_push,
    spec_starts_with, spec_strip_prefix, split_on_slash, kept_segment, spec_display,
};
use crate::fileops::{DirWalk, all_named, opt_path_view, paths_view, spec_take_next};
use crate::order::{sort_dedup, strictly_sorted, text_set, texts_of};
use crate::text::{split_char, split_on, ends_with, first_index_of, spec_ends_with, split_once_char, strip_suffix, text_eq};

verus! {

/// Group name suffixes that make a group conditional: first the operating
/// system names, then the operating system families, then Windows
/// Subsystem for Linux.
pub const VALID_TARGETS: [&'static str; 13] = [
    "_windows",
    "_macos",
    "_ios",
    "_linux",
    "_android",
    "_freebsd",
    "_dragonfly",
    "_openbsd",
    "_netbsd",
    "_none",
    "_unix",
    "_windows",
    "_wsl",
];

/// The target suffixes as texts, in order.
pub open spec fn target_list() -> Seq<Seq<char>> {
    VALID_TARGETS@.map_values(|t: &str| t@)
}

/// `group` ends with one of the listed target suffixes.
pub open spec fn spec_ends_with_list_target(group: Seq<char>) -> bool {
    exists|i: int| 0 <= i < target_list().len() && spec_ends_with(group, #[trigger] target_list()[i])
}

/// `group` has `_#` at `i`.
pub open spec fn custom_mark_at(group: Seq<char>, i: int) -> bool {
    0 <= i && i + 1 < group.len() && group[i] == '_' && group[i + 1] == '#'
}

/// Where the custom target suffix `_#<name>` of `group` starts: at its
/// first `_#`.
pub open spec fn custom_target_start(group: Seq<char>) -> Option<int> {
    if exists|i: int| custom_mark_at(group, i) {
        Some(choose|i: int| custom_mark_at(group, i) && (forall|j: int| 0 <= j < i ==> !custom_mark_at(group, j)))
    } else {
        None
    }
}

/// `group` is conditional: it has a custom target suffix `_#<name>` or ends
/// with one of the listed target suffixes.
pub open spec fn spec_ends_with_target(group: Seq<char>) -> bool {
    custom_target_start(group) is Some || spec_ends_with_list_target(group)
}

/// `group` without the first target suffix (in list order), from index `i`
/// on, that it ends with; `group` itself when it ends with none.
pub open spec fn without_target_from(group: Seq<char>, i: int) -> Seq<char>
    decreases target_list().len() - i,
{
    if i < 0 || i >= target_list().len() {
        group
    } else if spec_ends_with(group, target_list()[i]) {
        group.subrange(0, group.len() - target_list()[i].len())
    } else {
        without_target_from(group, i + 1)
    }
}

/// The base group of a conditional group; any other group unchanged. A
/// custom target suffix is removed from its `_#` on; otherwise the first
/// listed suffix that the group ends with is removed.
pub open spec fn spec_without_target(group: Seq<char>) -> Seq<char> {
    match custom_target_start(group) {
        Some(i) => group.subrange(0, i),
        None => without_target_from(group, 0),
    }
}

/// The platform that conditional groups are checked against.
pub struct PlatformView {
    pub os: Seq<char>,
    pub family: Seq<char>,
    pub wsl: bool,
    pub custom_targets: Seq<Seq<char>>,
}

/// The platform in use: the operating system and its family
/// (`std::env::consts::OS` and `FAMILY`), whether it is Windows Subsystem
/// for Linux, and the custom targets selected.
pub struct Platform {
    pub os: String,
    pub family: String,
    pub wsl: bool,
    pub custom_targets: Vec<String>,
}

impl View for Platform {
    type V = PlatformView;

    open spec fn view(&self) -> PlatformView {
        PlatformView {
            os: self.os@,
            family: self.family@,
            wsl: self.wsl,
            custom_targets: parts_view(self.custom_targets@),
        }
    }
}

/// A group can be used on `platform`: it has no target suffix; or its
/// custom target is one of those selected; or it ends with `_<os>`,
/// `_<family>`, or `_wsl` on Windows Subsystem for Linux.
pub open spec fn spec_is_valid_target(group: Seq<char>, platform: PlatformView) -> bool {
    match custom_target_start(group) {
        Some(i) => platform.custom_targets.contains(group.subrange(i + 2, group.len() as int)),
        None => if spec_ends_with_list_target(group) {
            spec_ends_with(group, seq!['_'] + platform.os) || spec_ends_with(group, seq!['_'] + platform.family)
                || (platform.wsl && spec_ends_with(group, "_wsl"@))
        } else {
            true
        },
    }
}

proof fn lemma_target_list()
    ensures
        target_list().len() == 13,
        forall|i: int| 0 <= i < 13 ==> (#[trigger] target_list()[i]).len() > 0,
        forall|i: int| 0 <= i < 13 ==> #[trigger] target_list()[i] == VALID_TARGETS@[i]@,
{
    reveal_strlit("_windows");
    reveal_strlit("_macos");
    reveal_strlit("_ios");
    reveal_strlit("_linux");
    reveal_strlit("_android");
    reveal_strlit("_freebsd");
    reveal_strlit("_dragonfly");
    reveal_strlit("_openbsd");
    reveal_strlit("_netbsd");
    reveal_strlit("_none");
    reveal_strlit("_unix");
    reveal_strlit("_wsl");
    assert(VALID_TARGETS@.len() == 13);
}

/// Where the custom target suffix of `group` starts, if it has one.
fn find_custom_target(group: &str) -> (res: Option<usize>)
    ensures
        match res {
            Some(i) => custom_target_start(group@) == Some(i as int) && i + 1 < group@.len(),
            None => custom_target_start(group@) is None,
        },
{
    let gc = chars_of(group);
    let mut i: usize = 0;
    while i < gc.len()
        invariant
            gc@ == group@,
            i <= gc.len(),
            forall|j: int| 0 <= j < i ==> !custom_mark_at(group@, j),
        decreases gc.len() - i,
    {
        if i + 1 < gc.len() && gc[i] == '_' && gc[i + 1] == '#' {
            proof {
                assert(custom_mark_at(group@, i as int));
                let k = choose|k: int| custom_mark_at(group@, k) && (forall|j: int| 0 <= j < k ==> !custom_mark_at(group@, j));
                assert(custom_mark_at(group@, k) && (forall|j: int| 0 <= j < k ==> !custom_mark_at(group@, j)));
                if k < i {
                } else if k > i {
                    assert(custom_mark_at(group@, i as int));
                }
                assert(k == i);
            }
            return Some(i);
        }
        i = i + 1;
    }
    proof {
        assert forall|j: int| !custom_mark_at(group@, j) by {
            if custom_mark_at(group@, j) {
                assert(j < i);
            }
        }
    }
    None
}

/// Whether `group` has a target suffix: a custom one, or one of the
/// suffixes in `VALID_TARGETS`.
pub fn group_ends_with_target_name(group: &str) -> (res: bool)
    ensures
        res == spec_ends_with_target(group@),
{
    proof {
        lemma_target_list();
    }
    if find_custom_target(group).is_some() {
        return true;
    }
    let mut i: usize = 0;
    while i < 13
        invariant
            i <= 13,
            target_list().len() == 13,
            custom_target_start(group@) is None,
            forall|k: int| 0 <= k < 13 ==> #[trigger] target_list()[k] == VALID_TARGETS@[k]@,
            forall|j: int| 0 <= j < i ==> !spec_ends_with(group@, #[trigger] target_list()[j]),
        decreases 13 - i,
    {
        if ends_with(group, VALID_TARGETS[i]) {
            assert(spec_ends_with(group@, target_list()[i as int]));
            return true;
        }
        i = i + 1;
    }
    false
}

/// The group without its target suffix: a custom suffix is cut at its
/// `_#`; otherwise the first suffix in `VALID_TARGETS` that `group` ends
/// with is removed; a group with none is returned as is.
pub fn group_without_target(group: &str) -> (res: &str)
    ensures
        res@ == spec_without_target(group@),
{
    proof {
        lemma_target_list();
    }
    if let Some(c) = find_custom_target(group) {
        return group.substring_char(0, c);
    }
    let mut i: usize = 0;
    while i < 13
        invariant
            i <= 13,
            target_list().len() == 13,
            custom_target_start(group@) is None,
            forall|k: int| 0 <= k < 13 ==> #[trigger] target_list()[k] == VALID_TARGETS@[k]@,
            spec_without_target(group@) == without_target_from(group@, i as int),
        decreases 13 - i,
    {
        if let Some(base_group) = strip_suffix(group, VALID_TARGETS[i]) {
            return base_group;
        }
        i = i + 1;
    }
    group
}

/// Whether `name` is one of `names`.
fn text_listed(names: &Vec<String>, name: &str) -> (res: bool)
    ensures
        res == parts_view(names@).contains(name@),
{
    let mut i: usize = 0;
    while i < names.len()
        invariant
            i <= names.len(),
            forall|j: int| 0 <= j < i ==> names@[j]@ != name@,
        decreases names.len() - i,
    {
        if text_eq(names[i].as_str(), name) {
            assert(parts_view(names@)[i as int] == name@);
            return true;
        }
        i = i + 1;
    }
    proof {
        if parts_view(names@).contains(name@) {
            let j = choose|j: int| 0 <= j < parts_view(names@).len() && parts_view(names@)[j] == name@;
            assert(names@[j]@ == name@);
        }
    }
    false
}

/// Returns true if a group with the specified name can be used on
/// `platform`. Unconditional groups can always be used; a group with a
/// custom target only when that target is selected; other conditional
/// groups only when their suffix is `_<os>` or `_<family>`, or `_wsl` on
/// Windows Subsystem for Linux.
pub fn group_is_valid_target(group: &str, platform: &Platform) -> (res: bool)
    ensures
        res == spec_is_valid_target(group@, platform@),
{
    if let Some(c) = find_custom_target(group) {
        let n = chars_of(group).len();
        let name = group.substring_char(c + 2, n);
        return text_listed(&platform.custom_targets, name);
    }
    let mut current_target_os = String::from_str("_");
    current_target_os.append(platform.os.as_str());
    let mut current_target_family = String::from_str("_");
    current_target_family.append(platform.family.as_str());
    proof {
        reveal_strlit("_");
        assert(current_target_os@ =~= seq!['_'] + platform.os@);
        assert(current_target_family@ =~= seq!['_'] + platform.family@);
    }
    if group_ends_with_target_name(group) {
        ends_with(group, current_target_os.as_str()) || ends_with(group, current_target_family.as_str())
            || (platform.wsl && ends_with(group, "_wsl"))
    } else {
        true
    }
}

/// How specific a group is, by its suffix: a group for a custom target is
/// the most specific, then a group for Windows Subsystem for Linux, then a
/// group for one operating system (`_linux`, `_macos`, ...), then a group
/// for the `_unix` family, then a group without suffix. More specific
/// groups take precedence when several hold the same file.
pub open spec fn spec_group_priority(group: Seq<char>) -> int {
    if custom_target_start(group) is Some {
        4
    } else if spec_ends_with(group, "_wsl"@) {
        3
    } else if spec_ends_with(group, "_unix"@) {
        1
    } else if spec_ends_with_list_target(group) {
        2
    } else {
        0
    }
}

/// The priority of `group` (see `spec_group_priority`).
pub fn get_group_priority(group: &str) -> (res: u8)
    ensures
        res == spec_group_priority(group@),
{
    if find_custom_target(group).is_some() {
        4
    } else if ends_with(group, "_wsl") {
        3
    } else if ends_with(group, "_unix") {
        1
    } else if group_ends_with_target_name(group) {
        2
    } else {
        0
    }
}

/// The index of the first group of highest priority in `groups` (0 when
/// there is at most one group).
pub open spec fn spec_highest_priority_idx(groups: Seq<Seq<char>>) -> int
    decreases groups.len(),
{
    if groups.len() <= 1 {
        0
    } else {
        let j = spec_highest_priority_idx(groups.drop_last());
        if spec_group_priority(groups.last()) > spec_group_priority(groups[j]) {
            groups.len() - 1
        } else {
            j
        }
    }
}

/// The index chosen is that of a group of highest priority, and the first
/// such group.
pub proof fn lemma_highest_priority_idx(groups: Seq<Seq<char>>)
    requires
        groups.len() > 0,
    ensures
        0 <= spec_highest_priority_idx(groups) < groups.len(),
        forall|j: int|
            0 <= j < groups.len() ==> spec_group_priority(#[trigger] groups[j]) <= spec_group_priority(
                groups[spec_highest_priority_idx(groups)],
            ),
        forall|j: int|
            0 <= j < spec_highest_priority_idx(groups) ==> spec_group_priority(#[trigger] groups[j])
                < spec_group_priority(groups[spec_highest_priority_idx(groups)]),
    decreases groups.len(),
{
    if groups.len() > 1 {
        let d = groups.drop_last();
        lemma_highest_priority_idx(d);
        let jd = spec_highest_priority_idx(d);
        let h = spec_highest_priority_idx(groups);
        assert(d[jd] == groups[jd]);
        assert(h == (if spec_group_priority(groups.last()) > spec_group_priority(groups[jd]) {
            groups.len() - 1
        } else {
            jd
        }));
        assert forall|j: int| 0 <= j < groups.len() implies spec_group_priority(#[trigger] groups[j]) <= spec_group_priority(groups[h]) by {
            if j < groups.len() - 1 {
                assert(d[j] == groups[j]);
            }
        }
        assert forall|j: int| 0 <= j < h implies spec_group_priority(#[trigger] groups[j]) < spec_group_priority(groups[h]) by {
            if j < groups.len() - 1 {
                assert(d[j] == groups[j]);
            }
        }
    }
}

/// The index of the group of highest priority in `groups`, the first one
/// among equals; `None` when there are no groups.
pub fn get_highest_priority_target_idx(groups: &Vec<String>) -> (res: Option<usize>)
    ensures
        res is None <==> groups@.len() == 0,
        res matches Some(i) ==> i == spec_highest_priority_idx(parts_view(groups@)),
{
    if groups.len() == 0 {
        return None;
    }
    let ghost gs = parts_view(groups@);
    let mut best: usize = 0;
    let mut best_priority = get_group_priority(groups[0].as_str());
    let mut i: usize = 1;
    while i < groups.len()
        invariant
            1 <= i <= groups@.len(),
            gs == parts_view(groups@),
            best < i,
            best == spec_highest_priority_idx(gs.take(i as int)),
            best_priority == spec_group_priority(gs[best as int]),
        decreases groups@.len() - i,
    {
        let p = get_group_priority(groups[i].as_str());
        proof {
            let t = gs.take(i + 1);
            assert(t.drop_last() =~= gs.take(i as int));
            assert(t.last() == gs[i as int]);
            assert(t[best as int] == gs[best as int]);
            assert(gs[i as int] == groups@[i as int]@);
        }
        if p > best_priority {
            best = i;
            best_priority = p;
        }
        i = i + 1;
    }
    proof {
        assert(gs.take(groups@.len() as int) =~= gs);
    }
    Some(best)
}

/// The order in which groups are deployed: repeatedly the group of highest
/// priority (the first among equals) goes next.
pub open spec fn spec_deploy_order(groups: Seq<Seq<char>>) -> Seq<Seq<char>>
    decreases groups.len(),
{
    if groups.len() == 0 {
        Seq::empty()
    } else {
        proof {
            lemma_highest_priority_idx(groups);
        }
        let i = spec_highest_priority_idx(groups);
        seq![groups[i]] + spec_deploy_order(groups.remove(i))
    }
}

/// `groups` in deployment order (see `spec_deploy_order`). Deploying the
/// most specific group first lets it win over the groups it overrides.
pub fn deploy_order(groups: Vec<String>) -> (res: Vec<String>)
    ensures
        parts_view(res@) == spec_deploy_order(parts_view(groups@)),
{
    let ghost all = parts_view(groups@);
    let mut rest = groups;
    let mut res: Vec<String> = Vec::new();
    while rest.len() > 0
        invariant
            parts_view(res@) + spec_deploy_order(parts_view(rest@)) == spec_deploy_order(all),
        decreases rest@.len(),
    {
        let idx = match get_highest_priority_target_idx(&rest) {
            Some(i) => i,
            None => 0,
        };
        let ghost before = parts_view(rest@);
        let ghost done = parts_view(res@);
        proof {
            lemma_highest_priority_idx(before);
        }
        let g = rest.remove(idx);
        res.push(g);
        proof {
            assert(parts_view(rest@) =~= before.remove(idx as int));
            assert(parts_view(res@) =~= done.push(before[idx as int]));
            assert(spec_deploy_order(before) == seq![before[idx as int]] + spec_deploy_order(before.remove(idx as int)));
            assert(parts_view(res@) + spec_deploy_order(parts_view(rest@)) =~= done + spec_deploy_order(before));
        }
    }
    assert(parts_view(rest@) =~= Seq::<Seq<char>>::empty());
    assert(parts_view(res@) + spec_deploy_order(parts_view(rest@)) =~= parts_view(res@));
    res
}

/// Deployment order puts groups of higher priority first, and keeps every
/// group: the result is the same groups, as many times each.
pub proof fn lemma_deploy_order(groups: Seq<Seq<char>>)
    ensures
        spec_deploy_order(groups).len() == groups.len(),
        spec_deploy_order(groups).to_multiset() == groups.to_multiset(),
        forall|a: int, b: int|
            0 <= a < b < groups.len() ==> spec_group_priority(#[trigger] spec_deploy_order(groups)[a])
                >= spec_group_priority(#[trigger] spec_deploy_order(groups)[b]),
    decreases groups.len(),
{
    if groups.len() == 0 {
        assert(spec_deploy_order(groups) =~= groups);
    }
    if groups.len() > 0 {
        lemma_highest_priority_idx(groups);
        let i = spec_highest_priority_idx(groups);
        let rest = groups.remove(i);
        lemma_deploy_order(rest);
        let r = spec_deploy_order(groups);
        let rr = spec_deploy_order(rest);
        assert(r == seq![groups[i]] + rr);
        broadcast use vstd::multiset::group_multiset_axioms;
        let one = seq![groups[i]];
        groups.to_multiset_ensures();
        rest.to_multiset_ensures();
        rr.to_multiset_ensures();
        r.to_multiset_ensures();
        one.to_multiset_ensures();
        Seq::<Seq<char>>::empty().to_multiset_ensures();
        assert(one =~= Seq::<Seq<char>>::empty().push(groups[i]));
        vstd::seq_lib::lemma_multiset_commutative(one, rr);
        assert(groups.contains(groups[i]));
        assert(groups.to_multiset() =~= rest.to_multiset().insert(groups[i]));
        assert(r.to_multiset() =~= rr.to_multiset().insert(groups[i]));
        assert forall|a: int, b: int| 0 <= a < b < groups.len() implies spec_group_priority(#[trigger] r[a])
            >= spec_group_priority(#[trigger] r[b]) by {
            if a == 0 {
                assert(r[b] == rr[b - 1]);
                assert(rr.to_multiset().count(rr[b - 1]) > 0);
                assert(rest.to_multiset().count(rr[b - 1]) > 0);
                assert(rest.contains(rr[b - 1]));
                let k = choose|k: int| 0 <= k < rest.len() && rest[k] == rr[b - 1];
                if k < i {
                    assert(rest[k] == groups[k]);
                } else {
                    assert(rest[k] == groups[k + 1]);
                }
            } else {
                assert(r[a] == rr[a - 1]);
                assert(r[b] == rr[b - 1]);
            }
        }
    }
}

/// A group has a target suffix exactly when removing its target changes
/// it; and then the group is its base group followed by its suffix: a
/// custom one `_#<name>`, or one of the listed target suffixes
/// (`config_linux` is `config` and `_linux`).
pub proof fn lemma_without_target_changes_iff_conditional(group: Seq<char>)
    ensures
        (spec_without_target(group) == group) <==> !spec_ends_with_target(group),
        custom_target_start(group) matches Some(i) ==> spec_without_target(group) + "_#"@ + group.subrange(
            i + 2,
            group.len() as int,
        ) == group,
        custom_target_start(group) is None && spec_ends_with_target(group) ==> exists|k: int|
            0 <= k < target_list().len() && spec_without_target(group) + #[trigger] target_list()[k] == group,
{
    match custom_target_start(group) {
        Some(i) => {
            let w = choose|w: int| custom_mark_at(group, w);
            lemma_first_custom_mark(group, w);
            assert(custom_mark_at(group, i));
            lemma_custom_split(group, i);
        },
        None => {
            lemma_target_list();
            lemma_without_target_from(group, 0);
            assert(spec_without_target(group) == without_target_from(group, 0));
        },
    }
}

proof fn lemma_first_custom_mark(group: Seq<char>, n: int)
    requires
        custom_mark_at(group, n),
    ensures
        exists|i: int| custom_mark_at(group, i) && (forall|j: int| 0 <= j < i ==> !custom_mark_at(group, j)),
    decreases n,
{
    if exists|j: int| 0 <= j < n && custom_mark_at(group, j) {
        let j = choose|j: int| 0 <= j < n && custom_mark_at(group, j);
        lemma_first_custom_mark(group, j);
    } else {
        assert(custom_mark_at(group, n) && (forall|j: int| 0 <= j < n ==> !custom_mark_at(group, j)));
    }
}

proof fn lemma_custom_split(group: Seq<char>, i: int)
    requires
        custom_mark_at(group, i),
    ensures
        group.subrange(0, i) + "_#"@ + group.subrange(i + 2, group.len() as int) == group,
        group.subrange(0, i) != group,
{
    reveal_strlit("_#");
    assert(group.subrange(0, i) + "_#"@ + group.subrange(i + 2, group.len() as int) =~= group);
    assert(group.subrange(0, i).len() < group.len());
}

proof fn lemma_without_target_from(group: Seq<char>, i: int)
    requires
        0 <= i <= 13,
        target_list().len() == 13,
        forall|k: int| 0 <= k < 13 ==> (#[trigger] target_list()[k]).len() > 0,
    ensures
        (without_target_from(group, i) == group) <==> !(exists|k: int|
            i <= k < 13 && spec_ends_with(group, #[trigger] target_list()[k])),
        without_target_from(group, i).len() <= group.len(),
        without_target_from(group, i) != group ==> exists|k: int|
            i <= k < 13 && without_target_from(group, i) + #[trigger] target_list()[k] == group,
    decreases 13 - i,
{
    if i < 13 {
        lemma_without_target_from(group, i + 1);
        if spec_ends_with(group, target_list()[i]) {
            let r = without_target_from(group, i);
            assert(r.len() < group.len());
            assert(r + target_list()[i] =~= group);
        }
    }
}


/// Exit codes of the program.
#[derive(Clone, Copy, PartialEq, Eq, Structural, Debug)]
pub enum ReturnCode {
    /// Couldn't find the dotfiles directory
    CouldntFindDotfiles,
    /// No Configs/Hooks/Secrets folder setup
    NoSetupFolder,
    /// Referenced file does not exist in the current directory
    NoSuchFileOrDir,
    /// Failed to encrypt referenced file
    EncryptionFailed,
    /// Failed to decrypt referenced file
    DecryptionFailed,
    /// Failed to read an encrypted file
    EncryptedReadFailed,
}

pub open spec fn spec_return_code(code: ReturnCode) -> u8 {
    match code {
        ReturnCode::CouldntFindDotfiles => 2,
        ReturnCode::NoSetupFolder => 3,
        ReturnCode::NoSuchFileOrDir => 4,
        ReturnCode::EncryptionFailed => 5,
        ReturnCode::DecryptionFailed => 6,
        ReturnCode::EncryptedReadFailed => 7,
    }
}

impl ReturnCode {
    /// The process exit code of this outcome.
    pub fn code(&self) -> (res: u8)
        ensures
            res == spec_return_code(*self),
    {
        match self {
            ReturnCode::CouldntFindDotfiles => 2,
            ReturnCode::NoSetupFolder => 3,
            ReturnCode::NoSuchFileOrDir => 4,
            ReturnCode::EncryptionFailed => 5,
            ReturnCode::DecryptionFailed => 6,
            ReturnCode::EncryptedReadFailed => 7,
        }
    }
}

/// Options that every command runs with.
pub struct Context {
    /// The dotfile profile in use: `dotfiles_<profile>` instead of `dotfiles`.
    pub profile: Option<String>,
    /// No filesystem operations; only report what would happen.
    pub dry_run: bool,
    /// Custom targets selected for this run.
    pub custom_targets: Vec<String>,
}

impl Default for Context {
    /// The options used when none are given: no profile, no dry run, and
    /// the custom targets `custom` and `laptop`.
    fn default() -> (res: Context)
        ensures
            res.profile is None,
            !res.dry_run,
            texts_of(res.custom_targets@) == seq!["custom"@, "laptop"@],
    {
        let custom_targets = vec![String::from_str("custom"), String::from_str("laptop")];
        assert(texts_of(custom_targets@) =~= seq!["custom"@, "laptop"@]);
        Context { profile: None, dry_run: false, custom_targets }
    }
}

impl Context {
    /// Adds the custom targets listed, separated by commas, in `targets`
    /// (the value of `TUCKR_CUSTOM_TARGETS`); the targets are then kept in
    /// increasing order, each once.
    pub fn add_custom_targets(&mut self, targets: &str)
        ensures
            strictly_sorted(texts_of(final(self).custom_targets@)),
            text_set(texts_of(final(self).custom_targets@)) == text_set(
                texts_of(old(self).custom_targets@) + split_on(targets@, ','),
            ),
            final(self).profile == old(self).profile,
            final(self).dry_run == old(self).dry_run,
    {
        let mut pieces = split_char(targets, ',');
        let mut all = copy_strings(&self.custom_targets);
        let ghost a = texts_of(all@);
        let ghost p = texts_of(pieces@);
        assert(a =~= texts_of(old(self).custom_targets@));
        assert(p =~= pieces@.map_values(|q: String| q@));
        all.append(&mut pieces);
        assert(texts_of(all@) =~= a + p);
        self.custom_targets = sort_dedup(&all);
    }
}

/// The three directories of a dotfiles repository.
#[derive(Clone, Copy, PartialEq, Eq, Structural, Debug)]
pub enum DotfileType {
    Configs,
    Secrets,
    Hooks,
}

pub open spec fn spec_dtype_dir(dtype: DotfileType) -> Seq<char> {
    match dtype {
        DotfileType::Configs => "Configs"@,
        DotfileType::Secrets => "Secrets"@,
        DotfileType::Hooks => "Hooks"@,
    }
}

impl DotfileType {
    /// The name of the directory that holds dotfiles of this type.
    pub fn dir_name(&self) -> (res: &'static str)
        ensures
            res@ == spec_dtype_dir(*self),
    {
        match self {
            DotfileType::Configs => "Configs",
            DotfileType::Secrets => "Secrets",
            DotfileType::Hooks => "Hooks",
        }
    }
}

pub open spec fn configs_dir_of(dotfiles_dir: PathView) -> PathView {
    spec_push(dotfiles_dir, "Configs"@)
}

pub open spec fn hooks_dir_of(dotfiles_dir: PathView) -> PathView {
    spec_push(dotfiles_dir, "Hooks"@)
}

pub open spec fn secrets_dir_of(dotfiles_dir: PathView) -> PathView {
    spec_push(dotfiles_dir, "Secrets"@)
}

/// Which of `Configs`, `Hooks` or `Secrets` (checked in that order) holds `file`.
pub open spec fn dotfile_root_of(file: PathView, dotfiles_dir: PathView) -> Option<PathView> {
    if spec_starts_with(file, configs_dir_of(dotfiles_dir)) {
        Some(configs_dir_of(dotfiles_dir))
    } else if spec_starts_with(file, hooks_dir_of(dotfiles_dir)) {
        Some(hooks_dir_of(dotfiles_dir))
    } else if spec_starts_with(file, secrets_dir_of(dotfiles_dir)) {
        Some(secrets_dir_of(dotfiles_dir))
    } else {
        None
    }
}

/// The group directory of `file`: the root directory itself when `file` is
/// it, else the root joined with the first component of `file` below it,
/// when that component names an entry.
pub open spec fn spec_group_path(file: PathView, dotfiles_dir: PathView) -> Option<PathView> {
    match dotfile_root_of(file, dotfiles_dir) {
        None => None,
        Some(root) => if file == root {
            Some(root)
        } else if is_normal_part(file.parts[root.parts.len() as int]) {
            Some(spec_push(root, file.parts[root.parts.len() as int]))
        } else {
            None
        },
    }
}

/// A dotfile as a value: its path, its group's directory, its group's name.
pub struct DotfileView {
    pub path: PathView,
    pub group_path: PathView,
    pub group_name: Seq<char>,
}

/// The dotfile that `file` is, inside the dotfiles directory `dotfiles_dir`.
pub open spec fn spec_dotfile(file: PathView, dotfiles_dir: PathView) -> Option<DotfileView> {
    match spec_group_path(file, dotfiles_dir) {
        None => None,
        Some(group_path) => Some(
            DotfileView { path: file, group_path, group_name: group_path.parts.last() },
        ),
    }
}

pub open spec fn msg_not_in_dotfiles() -> Seq<char> {
    "path does not belong to dotfiles."@
}

pub open spec fn msg_no_group() -> Seq<char> {
    "failed to get group path relative to dotfile dir."@
}

/// A file inside a dotfiles directory, with the group it belongs to.
pub struct Dotfile {
    pub path: FsPath,
    pub group_path: FsPath,
    pub group_name: String,
}

impl View for Dotfile {
    type V = DotfileView;

    open spec fn view(&self) -> DotfileView {
        DotfileView { path: self.path@, group_path: self.group_path@, group_name: self.group_name@ }
    }
}

/// Whether `part` names an entry: not empty, `.` or `..`.
pub fn is_normal_component(part: &str) -> (res: bool)
    ensures
        res == is_normal_part(part@),
{
    let n = part.unicode_len();
    if n == 0 {
        return false;
    }
    if n == 1 && part.get_char(0) == '.' {
        assert(part@ =~= crate::path::dot());
        return false;
    }
    if n == 2 && part.get_char(0) == '.' && part.get_char(1) == '.' {
        assert(part@ =~= crate::path::dot_dot());
        return false;
    }
    true
}

impl Dotfile {
    /// A copy of this dotfile.
    pub fn duplicate(&self) -> (res: Dotfile)
        ensures
            res@ == self@,
    {
        Dotfile {
            path: self.path.duplicate(),
            group_path: self.group_path.duplicate(),
            group_name: copy_string(&self.group_name),
        }
    }

    /// A walk through this dotfile, a directory whose entries are
    /// `entries`; an error when it is no directory (`is_dir`).
    pub fn try_iter(&self, dotfiles_dir: &FsPath, is_dir: bool, entries: Vec<FsPath>) -> (res: Result<DotfileIter, String>)
        requires
            all_named(paths_view(entries@)),
            all_dotfiles(paths_view(entries@), dotfiles_dir@),
        ensures
            res is Ok <==> is_dir,
            res matches Ok(it) ==> it.wf() && it@ == paths_view(entries@) && it.dir() == dotfiles_dir@,
            res matches Err(e) ==> e@ == spec_display(self.path@) + " is not a directory"@,
    {
        if !is_dir {
            let mut msg = self.path.display_string();
            msg.append(" is not a directory");
            return Err(msg);
        }
        let walk = DirWalk::new(entries);
        Ok(DotfileIter { walk, dotfiles_dir: dotfiles_dir.duplicate() })
    }

    /// The dotfile that `value` is, where `dotfiles_dir` is the dotfiles
    /// directory of its profile. An error is returned when the file is in
    /// none of `Configs`, `Hooks` and `Secrets`, or when its first component
    /// below that directory does not name an entry.
    pub fn try_from(value: FsPath, dotfiles_dir: &FsPath) -> (res: Result<Dotfile, String>)
        ensures
            res matches Ok(d) ==> spec_dotfile(value@, dotfiles_dir@) == Some(d@),
            res is Err <==> spec_dotfile(value@, dotfiles_dir@) is None,
            res matches Err(e) ==> (if dotfile_root_of(value@, dotfiles_dir@) is None {
                e@ == msg_not_in_dotfiles()
            } else {
                e@ == msg_no_group()
            }),
    {
        let configs_dir = dotfiles_dir.push_part("Configs");
        let hooks_dir = dotfiles_dir.push_part("Hooks");
        let secrets_dir = dotfiles_dir.push_part("Secrets");

        let dotfile_root_dir = if value.starts_with(&configs_dir) {
            configs_dir
        } else if value.starts_with(&hooks_dir) {
            hooks_dir
        } else if value.starts_with(&secrets_dir) {
            secrets_dir
        } else {
            return Err(String::from_str("path does not belong to dotfiles."));
        };

        let group_path = if value.same_as(&dotfile_root_dir) {
            dotfile_root_dir
        } else {
            let k = dotfile_root_dir.parts.len();
            proof {
                if value.parts@.len() == k {
                    assert(value@.parts =~= dotfile_root_dir@.parts);
                }
            }
            let group_relpath = &value.parts[k];
            if !is_normal_component(group_relpath.as_str()) {
                return Err(String::from_str("failed to get group path relative to dotfile dir."));
            }
            dotfile_root_dir.push_part(group_relpath.as_str())
        };
        let n = group_path.parts.len();
        assert(n > 0);
        let group_name = copy_string(&group_path.parts[n - 1]);
        Ok(Dotfile { path: value, group_path, group_name })
    }

    /// Returns true if the group can be used on `platform`.
    pub fn is_valid_target(&self, platform: &Platform) -> (res: bool)
        ensures
            res == spec_is_valid_target(self.group_name@, platform@),
    {
        group_is_valid_target(self.group_name.as_str(), platform)
    }

    /// Whether the group targets the root path `/`: its directory is
    /// `dotfiles/Configs/Root` or below.
    pub fn targets_root(&self, dotfiles_dir: &FsPath) -> (res: bool)
        ensures
            res == spec_targets_root(self@, dotfiles_dir@),
    {
        let root_dir = dotfiles_dir.push_part("Configs").push_part("Root");
        self.group_path.starts_with(&root_dir)
    }

    /// Where the dotfile is deployed (see `spec_target_path`): its path
    /// below its group's directory in `dotfiles/Configs`, placed in `home`,
    /// or in `/` for a group that targets the root, unless a `^name` or
    /// `%NAME` component redirects it. A group directory itself maps to its
    /// own name.
    pub fn to_target_path(&self, dotfiles_dir: &FsPath, home: &FsPath, env: &EnvVars) -> (res: FsPath)
        requires
            spec_starts_with(self.path@, configs_dir_of(dotfiles_dir@)),
            self.path@.parts.len() > configs_dir_of(dotfiles_dir@).parts.len(),
        ensures
            res@ == spec_target_path(self@, dotfiles_dir@, home@, env@),
    {
        let configs = dotfiles_dir.push_part("Configs");
        let rel = self.path.strip_prefix(&configs).unwrap();
        let rest = if rel.parts.len() >= 2 {
            let mut parts: Vec<String> = Vec::new();
            let mut i: usize = 1;
            while i < rel.parts.len()
                invariant
                    1 <= i <= rel.parts.len(),
                    parts@.len() == i - 1,
                    forall|j: int| 0 <= j < parts@.len() ==> #[trigger] parts@[j]@ == rel.parts@[j + 1]@,
                decreases rel.parts.len() - i,
            {
                parts.push(copy_string(&rel.parts[i]));
                i = i + 1;
            }
            let r = FsPath { absolute: false, parts };
            assert(r@.parts =~= rel@.parts.skip(1));
            r
        } else {
            rel
        };
        let plain = if self.targets_root(dotfiles_dir) {
            FsPath::root().join(&rest)
        } else {
            home.join(&rest)
        };
        let k = match last_redirect_index(&rest.parts) {
            Some(k) => k,
            None => return plain,
        };
        let m = chars_of(rest.parts[k].as_str());
        proof {
            assert(m@ == rest.parts@[k as int]@);
            assert(m@ == parts_view(rest.parts@)[k as int]);
        }
        let name = rest.parts[k].as_str().substring_char(1, m.len());
        let mut after: Vec<String> = Vec::new();
        let mut i: usize = k + 1;
        while i < rest.parts.len()
            invariant
                k < rest.parts.len(),
                k + 1 <= i <= rest.parts.len(),
                parts_view(after@) =~= parts_view(rest.parts@).subrange(k + 1, i as int),
            decreases rest.parts.len() - i,
        {
            let ghost before = parts_view(after@);
            after.push(copy_string(&rest.parts[i]));
            proof {
                assert(parts_view(after@) =~= before.push(parts_view(rest.parts@)[i as int]));
            }
            i = i + 1;
        }
        proof {
            assert(parts_view(after@) =~= parts_view(rest.parts@).skip(k + 1));
            assert(m@ == rest@.parts[k as int]);
        }
        if m[0] == '^' {
            let mut parts: Vec<String> = Vec::new();
            if name.unicode_len() > 0 {
                parts.push(name.to_string());
            }
            let mut j: usize = 0;
            while j < after.len()
                invariant
                    j <= after.len(),
                    parts_view(parts@) =~= (if name@.len() == 0 { Seq::empty() } else { seq![name@] }) + parts_view(after@).take(j as int),
                decreases after.len() - j,
            {
                let ghost before = parts_view(parts@);
                parts.push(copy_string(&after[j]));
                proof {
                    assert(parts_view(parts@) =~= before.push(parts_view(after@)[j as int]));
                    assert(parts_view(after@).take(j + 1) =~= parts_view(after@).take(j as int).push(parts_view(after@)[j as int]));
                }
                j = j + 1;
            }
            proof {
                assert(parts_view(after@).take(after.len() as int) =~= parts_view(after@));
            }
            FsPath { absolute: true, parts }
        } else {
            match env.lookup(name) {
                Some(v) => FsPath::parse(v.as_str()).join(&FsPath { absolute: false, parts: after }),
                None => plain,
            }
        }
    }
}

/// Every path of `q` is a dotfile of `dotfiles_dir`.
pub open spec fn all_dotfiles(q: Seq<PathView>, dotfiles_dir: PathView) -> bool {
    forall|i: int| 0 <= i < q.len() ==> (#[trigger] spec_dotfile(q[i], dotfiles_dir)) is Some
}

/// A walk through a dotfile directory that gives each entry as a dotfile.
pub struct DotfileIter {
    walk: DirWalk,
    dotfiles_dir: FsPath,
}

impl View for DotfileIter {
    type V = Seq<PathView>;

    /// The entries still to visit.
    closed spec fn view(&self) -> Seq<PathView> {
        self.walk@
    }
}

impl DotfileIter {
    /// The dotfiles directory the entries belong to.
    pub closed spec fn dir(self) -> PathView {
        self.dotfiles_dir@
    }

    /// Every entry still to visit is a named dotfile.
    pub closed spec fn wf(self) -> bool {
        self.walk.wf() && all_dotfiles(self.walk@, self.dotfiles_dir@)
    }

    /// Adds the entries of a directory that the walk has just returned.
    pub fn push_entries(&mut self, entries: Vec<FsPath>)
        requires
            old(self).wf(),
            all_named(paths_view(entries@)),
            all_dotfiles(paths_view(entries@), old(self).dir()),
        ensures
            final(self).wf(),
            final(self).dir() == old(self).dir(),
            final(self)@ == old(self)@ + paths_view(entries@),
    {
        let ghost d = self.dotfiles_dir@;
        let ghost e = paths_view(entries@);
        let ghost before = self.walk@;
        self.walk.push_entries(entries);
        proof {
            assert forall|i: int| 0 <= i < self.walk@.len() implies (#[trigger] spec_dotfile(self.walk@[i], d)) is Some by {
                if i < before.len() {
                    assert(self.walk@[i] == before[i]);
                } else {
                    assert(self.walk@[i] == e[i - before.len()]);
                }
            }
        }
    }

    /// The next dotfile of the walk, skipping files that the platform
    /// creates on its own; `None` when the walk is over.
    pub fn next(&mut self, os: &str, family: &str) -> (res: Option<Dotfile>)
        requires
            old(self).wf(),
        ensures
            final(self).wf(),
            final(self).dir() == old(self).dir(),
            final(self)@ == spec_take_next(old(self)@, os@, family@).0,
            match res {
                Some(d) => spec_take_next(old(self)@, os@, family@).1 == Some(d.path@) && spec_dotfile(
                    d.path@,
                    old(self).dir(),
                ) == Some(d@),
                None => spec_take_next(old(self)@, os@, family@).1 is None,
            },
    {
        let ghost before = self.walk@;
        proof {
            lemma_take_next_keeps(before, os@, family@, self.dotfiles_dir@);
        }
        match self.walk.next_entry(os, family) {
            None => None,
            Some(p) => {
                let ghost pv = p@;
                match Dotfile::try_from(p, &self.dotfiles_dir) {
                    Ok(d) => Some(d),
                    Err(_) => None,
                }
            },
        }
    }
}

/// Taking the next entry keeps to the entries of the walk: the rest is
/// what was left of them, and the entry is one of them.
proof fn lemma_take_next_keeps(q: Seq<PathView>, os: Seq<char>, family: Seq<char>, dir: PathView)
    requires
        all_dotfiles(q, dir),
    ensures
        all_dotfiles(spec_take_next(q, os, family).0, dir),
        spec_take_next(q, os, family).1 matches Some(p) ==> spec_dotfile(p, dir) is Some,
    decreases q.len(),
{
    if q.len() > 0 {
        assert(spec_dotfile(q[q.len() - 1], dir) is Some);
        assert forall|i: int| 0 <= i < q.drop_last().len() implies (#[trigger] spec_dotfile(q.drop_last()[i], dir)) is Some by {
            assert(q.drop_last()[i] == q[i]);
        }
        lemma_take_next_keeps(q.drop_last(), os, family, dir);
    }
}

pub open spec fn spec_targets_root(d: DotfileView, dotfiles_dir: PathView) -> bool {
    spec_starts_with(d.group_path, spec_push(configs_dir_of(dotfiles_dir), "Root"@))
}

/// The part of a dotfile's path that is deployed: below its group
/// directory, or the group's own name for the group directory itself.
pub open spec fn deployed_parts(d: DotfileView, dotfiles_dir: PathView) -> Seq<Seq<char>> {
    let rel = d.path.parts.skip(configs_dir_of(dotfiles_dir).parts.len() as int);
    if rel.len() >= 2 {
        rel.skip(1)
    } else {
        rel
    }
}

/// A component that redirects where what is below it goes: `^name` puts it
/// in `/name`, `%NAME` in the directory named by the environment variable
/// `NAME`.
pub open spec fn is_redirect(part: Seq<char>) -> bool {
    part.len() > 0 && (part[0] == '^' || part[0] == '%')
}

/// The index of the last redirecting component of `parts`, if any.
pub open spec fn last_redirect(parts: Seq<Seq<char>>) -> Option<int>
    decreases parts.len(),
{
    if parts.len() == 0 {
        None
    } else if is_redirect(parts.last()) {
        Some(parts.len() - 1)
    } else {
        last_redirect(parts.drop_last())
    }
}

/// The value of the environment variable `name`: the first pair with that
/// name.
pub open spec fn env_lookup(env: Seq<(Seq<char>, Seq<char>)>, name: Seq<char>) -> Option<Seq<char>>
    decreases env.len(),
{
    if env.len() == 0 {
        None
    } else if env[0].0 == name {
        Some(env[0].1)
    } else {
        env_lookup(env.drop_first(), name)
    }
}

/// Where a dotfile is deployed: its deployed components placed in `home`
/// (in `/` for a group that targets the root). The last redirecting
/// component, if any, decides instead: what follows `^name` goes to
/// `/name`, what follows `%NAME` to the value of `NAME` (a variable that is
/// not set redirects nothing).
pub open spec fn spec_target_path(
    d: DotfileView,
    dotfiles_dir: PathView,
    home: PathView,
    env: Seq<(Seq<char>, Seq<char>)>,
) -> PathView {
    let parts = deployed_parts(d, dotfiles_dir);
    let base = if spec_targets_root(d, dotfiles_dir) { PathView { absolute: true, parts: Seq::empty() } } else { home };
    let plain = spec_join(base, PathView { absolute: false, parts });
    match last_redirect(parts) {
        None => plain,
        Some(k) => {
            let m = parts[k];
            let name = m.subrange(1, m.len() as int);
            let after = parts.skip(k + 1);
            if m[0] == '^' {
                PathView { absolute: true, parts: (if name.len() == 0 { Seq::empty() } else { seq![name] }) + after }
            } else {
                match env_lookup(env, name) {
                    Some(v) => spec_join(spec_parse(v), PathView { absolute: false, parts: after }),
                    None => plain,
                }
            }
        },
    }
}

/// Environment variables, as name and value pairs.
pub struct EnvVars {
    pub pairs: Vec<(String, String)>,
}

impl View for EnvVars {
    type V = Seq<(Seq<char>, Seq<char>)>;

    open spec fn view(&self) -> Seq<(Seq<char>, Seq<char>)> {
        self.pairs@.map_values(|p: (String, String)| (p.0@, p.1@))
    }
}

impl EnvVars {
    /// The value of the variable `name`, if it is set.
    pub fn lookup(&self, name: &str) -> (res: Option<String>)
        ensures
            opt_view(res) == env_lookup(self@, name@),
    {
        let mut i: usize = 0;
        proof {
            assert(self@.skip(0) =~= self@);
        }
        while i < self.pairs.len()
            invariant
                i <= self.pairs.len(),
                env_lookup(self@, name@) == env_lookup(self@.skip(i as int), name@),
            decreases self.pairs.len() - i,
        {
            proof {
                assert(self@.skip(i as int)[0] == (self.pairs@[i as int].0@, self.pairs@[i as int].1@));
                assert(self@.skip(i as int).drop_first() =~= self@.skip(i + 1));
            }
            if text_eq(self.pairs[i].0.as_str(), name) {
                return Some(copy_string(&self.pairs[i].1));
            }
            i = i + 1;
        }
        proof {
            assert(self@.skip(i as int).len() == 0);
        }
        None
    }
}

/// The index of the last redirecting component of `parts`.
fn last_redirect_index(parts: &Vec<String>) -> (res: Option<usize>)
    ensures
        match res {
            Some(k) => k < parts.len() && last_redirect(parts_view(parts@)) == Some(k as int) && is_redirect(
                parts@[k as int]@,
            ),
            None => last_redirect(parts_view(parts@)) is None,
        },
{
    let mut i: usize = parts.len();
    proof {
        assert(parts_view(parts@).take(parts.len() as int) =~= parts_view(parts@));
    }
    while i > 0
        invariant
            i <= parts.len(),
            last_redirect(parts_view(parts@)) == last_redirect(parts_view(parts@).take(i as int)),
        decreases i,
    {
        let p = chars_of(parts[i - 1].as_str());
        proof {
            let t = parts_view(parts@).take(i as int);
            assert(t.last() == parts@[i - 1]@);
            assert(t.drop_last() =~= parts_view(parts@).take(i - 1));
        }
        if p.len() > 0 && (p[0] == '^' || p[0] == '%') {
            return Some(i - 1);
        }
        i = i - 1;
    }
    None
}

/// The file `<dotfiles>/Configs/<group>/<rel...>`.
pub open spec fn config_file(dotfiles_dir: PathView, group: Seq<char>, rel: Seq<Seq<char>>) -> PathView {
    PathView {
        absolute: dotfiles_dir.absolute,
        parts: dotfiles_dir.parts.push("Configs"@).push(group) + rel,
    }
}

/// A file at `<dotfiles>/Configs/<group>/<rel...>` belongs to the group
/// `<group>`, and is deployed at `<home>/<rel...>`; for the group `Root` it
/// is deployed at `/<rel...>`. Inside a group directory the layout is the
/// layout of the home directory (when no component redirects it).
pub proof fn lemma_deploy_location(
    dotfiles_dir: PathView,
    group: Seq<char>,
    rel: Seq<Seq<char>>,
    home: PathView,
    env: Seq<(Seq<char>, Seq<char>)>,
)
    requires
        is_normal_part(group),
        rel.len() >= 1,
        last_redirect(rel) is None,
    ensures
        spec_dotfile(config_file(dotfiles_dir, group, rel), dotfiles_dir) == Some(
            DotfileView {
                path: config_file(dotfiles_dir, group, rel),
                group_path: spec_push(configs_dir_of(dotfiles_dir), group),
                group_name: group,
            },
        ),
        spec_target_path(
            spec_dotfile(config_file(dotfiles_dir, group, rel), dotfiles_dir)->0,
            dotfiles_dir,
            home,
            env,
        ) == (if group == "Root"@ {
            PathView { absolute: true, parts: rel }
        } else {
            PathView { absolute: home.absolute, parts: home.parts + rel }
        }),
{
    lemma_config_file_dotfile(dotfiles_dir, group, rel);
    let configs = configs_dir_of(dotfiles_dir);
    let n = dotfiles_dir.parts.len() as int;
    let d = spec_dotfile(config_file(dotfiles_dir, group, rel), dotfiles_dir)->0;
    let root = spec_push(configs, "Root"@);
    if group == "Root"@ {
        assert(d.group_path.parts.subrange(0, root.parts.len() as int) =~= root.parts);
        assert(spec_targets_root(d, dotfiles_dir));
        assert(spec_join(PathView { absolute: true, parts: Seq::empty() }, PathView { absolute: false, parts: rel }).parts =~= rel);
    } else {
        if spec_targets_root(d, dotfiles_dir) {
            assert(d.group_path.parts[n + 1] == root.parts[n + 1]);
        }
    }
}

/// The dotfile of `<dotfiles>/Configs/<group>/<rel...>`, and what of its
/// path is deployed: `rel`.
proof fn lemma_config_file_dotfile(dotfiles_dir: PathView, group: Seq<char>, rel: Seq<Seq<char>>)
    requires
        is_normal_part(group),
        rel.len() >= 1,
    ensures
        spec_dotfile(config_file(dotfiles_dir, group, rel), dotfiles_dir) == Some(
            DotfileView {
                path: config_file(dotfiles_dir, group, rel),
                group_path: spec_push(configs_dir_of(dotfiles_dir), group),
                group_name: group,
            },
        ),
        deployed_parts(spec_dotfile(config_file(dotfiles_dir, group, rel), dotfiles_dir)->0, dotfiles_dir) == rel,
{
    let file = config_file(dotfiles_dir, group, rel);
    let configs = configs_dir_of(dotfiles_dir);
    let n = dotfiles_dir.parts.len() as int;
    assert(file.parts.subrange(0, n + 1) =~= configs.parts);
    assert(spec_starts_with(file, configs));
    assert(file.parts[n + 1] == group);
    assert(file != configs) by {
        assert(file.parts.len() != configs.parts.len());
    }
    let d = spec_dotfile(file, dotfiles_dir)->0;
    assert(d.group_path == spec_push(configs, group));
    assert(d.group_path.parts.last() == group);
    let relp = file.parts.skip(n + 1);
    assert(relp =~= seq![group] + rel);
    assert(relp.skip(1) =~= rel);
    if rel.len() == 1 {
        assert(relp.len() == 2);
    }
}

proof fn lemma_last_redirect_at(before: Seq<Seq<char>>, marker: Seq<char>, after: Seq<Seq<char>>)
    requires
        is_redirect(marker),
        last_redirect(after) is None,
    ensures
        last_redirect(before.push(marker) + after) == Some(before.len() as int),
    decreases after.len(),
{
    let s = before.push(marker) + after;
    if after.len() == 0 {
        assert(s =~= before.push(marker));
    } else {
        lemma_last_redirect_at(before, marker, after.drop_last());
        assert(s.drop_last() =~= before.push(marker) + after.drop_last());
        assert(s.last() == after.last());
    }
}

/// A `^name` component sends what is below it to `/name`, and a `%NAME`
/// component to the directory that the variable `NAME` holds (when it is
/// set), wherever the component stands in the group and whatever redirects
/// come before it: the last one decides.
pub proof fn lemma_redirect_location(
    dotfiles_dir: PathView,
    group: Seq<char>,
    before: Seq<Seq<char>>,
    marker: Seq<char>,
    after: Seq<Seq<char>>,
    home: PathView,
    env: Seq<(Seq<char>, Seq<char>)>,
)
    requires
        is_normal_part(group),
        is_redirect(marker),
        last_redirect(after) is None,
    ensures
        ({
            let rel = before.push(marker) + after;
            let t = spec_target_path(
                spec_dotfile(config_file(dotfiles_dir, group, rel), dotfiles_dir)->0,
                dotfiles_dir,
                home,
                env,
            );
            let name = marker.subrange(1, marker.len() as int);
            &&& marker[0] == '^' ==> t == PathView {
                absolute: true,
                parts: (if name.len() == 0 { Seq::empty() } else { seq![name] }) + after,
            }
            &&& marker[0] == '%' ==> (env_lookup(env, name) matches Some(v) ==> t == spec_join(
                spec_parse(v),
                PathView { absolute: false, parts: after },
            ))
        }),
{
    let rel = before.push(marker) + after;
    lemma_config_file_dotfile(dotfiles_dir, group, rel);
    lemma_last_redirect_at(before, marker, after);
    assert(rel[before.len() as int] == marker);
    assert(rel.skip(before.len() as int + 1) =~= after);
}

/// The name of the dotfiles directory of a profile: `dotfiles`, or
/// `dotfiles_<profile>`.
pub open spec fn spec_dotfiles_dir_name(profile: Option<Seq<char>>) -> Seq<char> {
    match profile {
        Some(p) => "dotfiles_"@ + p,
        None => "dotfiles"@,
    }
}

pub open spec fn opt_view(o: Option<String>) -> Option<Seq<char>> {
    match o {
        Some(s) => Some(s@),
        None => None,
    }
}

/// The places a dotfiles directory may be: `<home>/.<name>` and
/// `<config>/<name>`, or only `<TUCKR_HOME>/<name>` when `TUCKR_HOME` is set.
pub struct DotfilesCandidates {
    pub home_dotfiles: FsPath,
    pub config_dotfiles: FsPath,
    pub custom_dotfiles: Option<FsPath>,
}

pub open spec fn spec_custom_candidate(profile: Option<Seq<char>>, tuckr_home: Option<PathView>) -> Option<PathView> {
    match tuckr_home {
        Some(t) => Some(spec_join(t, spec_parse(spec_dotfiles_dir_name(profile)))),
        None => None,
    }
}

pub open spec fn spec_home_candidate(profile: Option<Seq<char>>, home_dir: PathView) -> PathView {
    spec_join(home_dir, spec_parse(seq!['.'] + spec_dotfiles_dir_name(profile)))
}

pub open spec fn spec_config_candidate(profile: Option<Seq<char>>, config_dir: PathView) -> PathView {
    spec_join(config_dir, spec_parse(spec_dotfiles_dir_name(profile)))
}

/// The name of the dotfiles directory of `profile`.
pub fn dotfiles_dir_name(profile: &Option<String>) -> (res: String)
    ensures
        res@ == spec_dotfiles_dir_name(opt_view(*profile)),
{
    match profile {
        Some(p) => {
            let mut name = String::from_str("dotfiles_");
            name.append(p.as_str());
            name
        },
        None => String::from_str("dotfiles"),
    }
}

/// Where the dotfiles directory of `profile` may be, given `TUCKR_HOME`
/// (when it is set), the user's home directory and configuration directory.
pub fn get_potential_dotfiles_paths(
    profile: &Option<String>,
    tuckr_home: &Option<FsPath>,
    home_dir: &FsPath,
    config_dir: &FsPath,
) -> (res: DotfilesCandidates)
    ensures
        res.home_dotfiles@ == spec_home_candidate(opt_view(*profile), home_dir@),
        res.config_dotfiles@ == spec_config_candidate(opt_view(*profile), config_dir@),
        opt_path_view(res.custom_dotfiles) == spec_custom_candidate(opt_view(*profile), opt_path_view(*tuckr_home)),
{
    let dotfiles_dir = dotfiles_dir_name(profile);
    let mut hidden = String::from_str(".");
    hidden.append(dotfiles_dir.as_str());
    proof {
        reveal_strlit(".");
        assert(hidden@ =~= seq!['.'] + dotfiles_dir@);
    }
    let custom_dotfiles = match tuckr_home {
        Some(t) => Some(t.join_str(dotfiles_dir.as_str())),
        None => None,
    };
    DotfilesCandidates {
        home_dotfiles: home_dir.join_str(hidden.as_str()),
        config_dotfiles: config_dir.join_str(dotfiles_dir.as_str()),
        custom_dotfiles,
    }
}

/// The message given when no dotfiles directory exists.
pub open spec fn msg_no_dotfiles(profile: Option<Seq<char>>, config_dotfiles: PathView) -> Seq<char> {
    let init_cmd = match profile {
        Some(p) => "tuckr -p "@ + p + " init"@,
        None => "tuckr init"@,
    };
    "Couldn't find dotfiles directory.\n\nMake sure a `"@ + spec_display(config_dotfiles)
        + "` directory exists.\nOr use `"@ + init_cmd + "`."@
}

/// The dotfiles directory. When `TUCKR_HOME` is set, the one below it if
/// it exists (`custom_exists`). Otherwise the one in the configuration
/// directory if it exists, else the one in the home directory if it exists.
/// When none is found, an error that says where to create it.
pub fn get_dotfiles_path(
    profile: &Option<String>,
    candidates: &DotfilesCandidates,
    custom_exists: bool,
    config_exists: bool,
    home_exists: bool,
) -> (res: Result<FsPath, String>)
    ensures
        candidates.custom_dotfiles matches Some(c) ==> (custom_exists ==> (res matches Ok(p) && p@ == c@)),
        candidates.custom_dotfiles matches Some(c) ==> (!custom_exists ==> (res matches Err(e) && e@
            == msg_no_dotfiles(opt_view(*profile), c@))),
        candidates.custom_dotfiles is None && config_exists ==> (res matches Ok(p) && p@
            == candidates.config_dotfiles@),
        candidates.custom_dotfiles is None && !config_exists && home_exists ==> (res matches Ok(p) && p@
            == candidates.home_dotfiles@),
        candidates.custom_dotfiles is None && !config_exists && !home_exists ==> (res matches Err(e) && e@
            == msg_no_dotfiles(opt_view(*profile), candidates.config_dotfiles@)),
{
    let (found, missing) = match &candidates.custom_dotfiles {
        Some(c) => (if custom_exists { Some(c) } else { None }, c),
        None => (
            if config_exists {
                Some(&candidates.config_dotfiles)
            } else if home_exists {
                Some(&candidates.home_dotfiles)
            } else {
                None
            },
            &candidates.config_dotfiles,
        ),
    };
    if let Some(p) = found {
        return Ok(p.duplicate());
    }
    let init_cmd = match profile {
        Some(p) => {
            let mut c = String::from_str("tuckr -p ");
            c.append(p.as_str());
            c.append(" init");
            c
        },
        None => String::from_str("tuckr init"),
    };
    let mut msg = String::from_str("Couldn't find dotfiles directory.\n\nMake sure a `");
    msg.append(missing.display_string().as_str());
    msg.append("` directory exists.\nOr use `");
    msg.append(init_cmd.as_str());
    msg.append("`.");
    Err(msg)
}

/// The profile named by the component of `file` just below `base`, when
/// that component is `<prefix>_<profile>` (split at its first `_`).
pub open spec fn spec_profile_below(file: PathView, base: PathView, prefix: Seq<char>) -> Option<Seq<char>> {
    if spec_starts_with(file, base) && file.parts.len() > base.parts.len() {
        let name = file.parts[base.parts.len() as int];
        match first_index_of(name, '_') {
            None => None,
            Some(i) => if name.subrange(0, i) == prefix {
                Some(name.subrange(i + 1, name.len() as int))
            } else {
                None
            },
        }
    } else {
        None
    }
}

/// The profile a file belongs to: its dotfiles directory is
/// `dotfiles_<profile>` in the configuration directory (looked at first)
/// or `.dotfiles_<profile>` in the home directory.
pub open spec fn spec_profile_from_path(file: PathView, home_dir: PathView, config_dir: PathView) -> Option<Seq<char>> {
    match spec_profile_below(file, config_dir, "dotfiles"@) {
        Some(p) => Some(p),
        None => spec_profile_below(file, home_dir, ".dotfiles"@),
    }
}

/// The profile named by the component of `file` just below `base`
/// (see `spec_profile_below`).
fn profile_below(file: &FsPath, base: &FsPath, prefix: &str) -> (res: Option<String>)
    ensures
        opt_view(res) == spec_profile_below(file@, base@, prefix@),
{
    if !file.starts_with(base) {
        return None;
    }
    let k = base.parts.len();
    if file.parts.len() <= k {
        return None;
    }
    let dotfiles_dirname = &file.parts[k];
    let (dirname, profile_name) = match split_once_char(dotfiles_dirname.as_str(), '_') {
        Some(pair) => pair,
        None => return None,
    };
    if !text_eq(dirname, prefix) {
        return None;
    }
    Some(String::from_str(profile_name))
}

/// The profile of the dotfiles directory that `file` is in, given the home
/// directory and the configuration directory.
pub fn get_dotfile_profile_from_path(file: &FsPath, home_dir: &FsPath, config_dir: &FsPath) -> (res: Option<String>)
    ensures
        opt_view(res) == spec_profile_from_path(file@, home_dir@, config_dir@),
{
    match profile_below(file, config_dir, "dotfiles") {
        Some(p) => Some(p),
        None => profile_below(file, home_dir, ".dotfiles"),
    }
}

/// `target` relative to the home directory, when it is inside it.
pub fn get_target_basepath(target: &FsPath, home_dir: &FsPath) -> (res: Option<FsPath>)
    ensures
        res matches Some(r) ==> spec_strip_prefix(target@, home_dir@) == Some(r@),
        res is None ==> spec_strip_prefix(target@, home_dir@) is None,
{
    target.strip_prefix(home_dir)
}


proof fn lemma_split_no_slash(t: Seq<char>)
    requires
        forall|i: int| 0 <= i < t.len() ==> t[i] != '/',
    ensures
        split_on_slash(t) == seq![t],
    decreases t.len(),
{
    if t.len() == 0 {
        assert(t =~= Seq::<char>::empty());
    } else {
        lemma_split_no_slash(t.drop_last());
        assert(t.drop_last().push(t.last()) =~= t);
        assert(split_on_slash(t) =~= seq![t]);
    }
}

/// A text without `/` that is neither empty nor `.` denotes the relative
/// path of that one component.
pub proof fn lemma_parse_single(s: Seq<char>)
    requires
        forall|i: int| 0 <= i < s.len() ==> s[i] != '/',
        kept_segment(s),
    ensures
        spec_parse(s) == (PathView { absolute: false, parts: seq![s] }),
{
    lemma_split_no_slash(s);
    reveal(Seq::filter);
    assert(seq![s].drop_last() =~= Seq::<Seq<char>>::empty());
    assert(seq![s].filter(|seg: Seq<char>| kept_segment(seg)) =~= seq![s]);
}

/// The configuration-directory location of the dotfiles directory of
/// `profile`, and any file inside it, belong to that profile: the profile
/// that a dotfiles directory name gives is the one it was made from.
pub proof fn lemma_profile_round_trip(
    profile: Seq<char>,
    home_dir: PathView,
    config_dir: PathView,
    rest: Seq<Seq<char>>,
)
    requires
        forall|i: int| 0 <= i < profile.len() ==> profile[i] != '/',
    ensures
        ({
            let dir = spec_config_candidate(Some(profile), config_dir);
            spec_profile_from_path(
                PathView { absolute: dir.absolute, parts: dir.parts + rest },
                home_dir,
                config_dir,
            ) == Some(profile)
        }),
{
    reveal_strlit("dotfiles_");
    reveal_strlit("dotfiles");
    let name = spec_dotfiles_dir_name(Some(profile));
    assert(name.len() == 9 + profile.len());
    assert(forall|i: int| 0 <= i < name.len() ==> name[i] != '/') by {
        assert forall|i: int| 0 <= i < name.len() implies name[i] != '/' by {
            if i >= 9 {
                assert(name[i] == profile[i - 9]);
            }
        }
    }
    assert(kept_segment(name)) by {
        if name == crate::path::dot() {
            assert(name.len() == 1);
        }
    }
    lemma_parse_single(name);
    let dir = spec_config_candidate(Some(profile), config_dir);
    assert(dir.parts == config_dir.parts.push(name)) by {
        assert(config_dir.parts + seq![name] =~= config_dir.parts.push(name));
    }
    let file = PathView { absolute: dir.absolute, parts: dir.parts + rest };
    let k = config_dir.parts.len() as int;
    assert(file.parts.subrange(0, k) =~= config_dir.parts);
    assert(spec_starts_with(file, config_dir));
    assert(file.parts[k] == name);
    assert(name[8] == '_');
    assert(forall|j: int| 0 <= j < 8 ==> name[j] != '_');
    let i = first_index_of(name, '_')->0;
    assert(first_index_of(name, '_') is Some);
    assert(i == 8) by {
        if i < 8 {
        } else if i > 8 {
            assert(name[8] == '_');
        }
    }
    assert(name.subrange(0, 8) =~= "dotfiles"@);
    assert(name.subrange(9, name.len() as int) =~= profile);
}


/// The same holds of the home-directory location `.dotfiles_<profile>`,
/// unless the file also lies in a dotfiles directory of the configuration
/// directory (which is looked at first).
pub proof fn lemma_profile_round_trip_home(
    profile: Seq<char>,
    home_dir: PathView,
    config_dir: PathView,
    rest: Seq<Seq<char>>,
)
    requires
        forall|i: int| 0 <= i < profile.len() ==> profile[i] != '/',
        spec_profile_below(
            PathView {
                absolute: spec_home_candidate(Some(profile), home_dir).absolute,
                parts: spec_home_candidate(Some(profile), home_dir).parts + rest,
            },
            config_dir,
            "dotfiles"@,
        ) is None,
    ensures
        ({
            let dir = spec_home_candidate(Some(profile), home_dir);
            spec_profile_from_path(
                PathView { absolute: dir.absolute, parts: dir.parts + rest },
                home_dir,
                config_dir,
            ) == Some(profile)
        }),
{
    reveal_strlit("dotfiles_");
    reveal_strlit(".dotfiles");
    let name = seq!['.'] + spec_dotfiles_dir_name(Some(profile));
    assert(name.len() == 10 + profile.len());
    assert(forall|i: int| 0 <= i < name.len() ==> name[i] != '/') by {
        assert forall|i: int| 0 <= i < name.len() implies name[i] != '/' by {
            if i >= 10 {
                assert(name[i] == profile[i - 10]);
            }
        }
    }
    assert(kept_segment(name)) by {
        if name == crate::path::dot() {
            assert(name.len() == 1);
        }
    }
    lemma_parse_single(name);
    let dir = spec_home_candidate(Some(profile), home_dir);
    assert(dir.parts == home_dir.parts.push(name)) by {
        assert(home_dir.parts + seq![name] =~= home_dir.parts.push(name));
    }
    let file = PathView { absolute: dir.absolute, parts: dir.parts + rest };
    let k = home_dir.parts.len() as int;
    assert(file.parts.subrange(0, k) =~= home_dir.parts);
    assert(spec_starts_with(file, home_dir));
    assert(file.parts[k] == name);
    assert(name[9] == '_');
    assert(forall|j: int| 0 <= j < 9 ==> name[j] != '_');
    let i = first_index_of(name, '_')->0;
    assert(first_index_of(name, '_') is Some);
    assert(i == 9) by {
        if i < 9 {
        } else if i > 9 {
            assert(name[9] == '_');
        }
    }
    assert(name.subrange(0, 9) =~= ".dotfiles"@);
    assert(name.subrange(10, name.len() as int) =~= profile);
}

/// The directory of `group` among dotfiles of type `dtype`.
pub open spec fn spec_group_source(dotfiles_dir: PathView, dtype: DotfileType, group: Seq<char>) -> PathView {
    spec_join(spec_push(dotfiles_dir, spec_dtype_dir(dtype)), spec_parse(group))
}

/// The directory of `group` among dotfiles of type `dtype`.
pub fn group_source_path(dotfiles_dir: &FsPath, dtype: DotfileType, group: &str) -> (res: FsPath)
    ensures
        res@ == spec_group_source(dotfiles_dir@, dtype, group@),
{
    dotfiles_dir.push_part(dtype.dir_name()).join_str(group)
}

/// Returns whether a directory has been set up for `group` among dotfiles of
/// type `dtype`: the dotfiles directory was found and `path_exists` says
/// that the group's directory exists.
pub fn dotfile_contains<F: Fn(&FsPath) -> bool>(
    dotfiles_dir: &Result<FsPath, String>,
    dtype: DotfileType,
    group: &str,
    path_exists: &F,
) -> (res: bool)
    requires
        forall|p: &FsPath| path_exists.requires((p,)),
    ensures
        dotfiles_dir is Err ==> !res,
        dotfiles_dir matches Ok(d) ==> exists|p: FsPath|
            p@ == spec_group_source(d@, dtype, group@) && path_exists.ensures((&p,), res),
{
    match dotfiles_dir {
        Ok(dir) => {
            let group_src = group_source_path(dir, dtype, group);
            let found = path_exists(&group_src);
            found
        },
        Err(_) => false,
    }
}

/// The names in `groups`, except `*`, whose entry in `contained` is false.
pub open spec fn spec_invalid_groups(groups: Seq<Seq<char>>, contained: Seq<bool>) -> Seq<Seq<char>>
    decreases groups.len(),
{
    if groups.len() == 0 {
        Seq::empty()
    } else {
        let prev = spec_invalid_groups(groups.drop_last(), contained.take(groups.len() - 1));
        if !contained[groups.len() - 1] && groups.last() != "*"@ {
            prev.push(groups.last())
        } else {
            prev
        }
    }
}

/// Returns the groups that have no directory in the dotfiles, `*` excepted;
/// `contained[i]` tells whether `groups[i]` has one. `None` when there are
/// no such groups.
pub fn check_invalid_groups(groups: &Vec<String>, contained: &Vec<bool>) -> (res: Option<Vec<String>>)
    requires
        groups.len() == contained.len(),
    ensures
        res is None <==> spec_invalid_groups(parts_view(groups@), contained@).len() == 0,
        res matches Some(v) ==> parts_view(v@) == spec_invalid_groups(parts_view(groups@), contained@),
{
    let mut invalid_groups: Vec<String> = Vec::new();
    let star = String::from_str("*");
    let mut i: usize = 0;
    while i < groups.len()
        invariant
            i <= groups.len() == contained.len(),
            star@ == "*"@,
            parts_view(invalid_groups@) == spec_invalid_groups(
                parts_view(groups@).take(i as int),
                contained@.take(i as int),
            ),
        decreases groups.len() - i,
    {
        proof {
            let g = parts_view(groups@);
            assert(g.take(i + 1).drop_last() =~= g.take(i as int));
            assert(contained@.take(i + 1).take(i as int) =~= contained@.take(i as int));
        }
        let group = &groups[i];
        if !contained[i] && *group != star {
            invalid_groups.push(copy_string(group));
            proof {
                assert(parts_view(invalid_groups@) =~= parts_view(invalid_groups@.drop_last()).push(group@));
            }
        }
        i = i + 1;
    }
    proof {
        assert(parts_view(groups@).take(groups.len() as int) =~= parts_view(groups@));
        assert(contained@.take(groups.len() as int) =~= contained@);
    }
    if invalid_groups.len() == 0 {
        return None;
    }
    Some(invalid_groups)
}

/// Which groups can be used on a platform: a group without a target suffix
/// everywhere; a group with a custom target exactly when that target is
/// selected; a group ending with `_<os>` or `_<family>` of the platform,
/// or with `_wsl` on Windows Subsystem for Linux; and no other conditional
/// group.
pub proof fn lemma_valid_target_law(group: Seq<char>, platform: PlatformView)
    ensures
        !spec_ends_with_target(group) ==> spec_is_valid_target(group, platform),
        custom_target_start(group) matches Some(i) ==> (spec_is_valid_target(group, platform)
            <==> platform.custom_targets.contains(group.subrange(i + 2, group.len() as int))),
        custom_target_start(group) is None && spec_ends_with(group, seq!['_'] + platform.os) ==> spec_is_valid_target(
            group,
            platform,
        ),
        custom_target_start(group) is None && spec_ends_with(group, seq!['_'] + platform.family) ==> spec_is_valid_target(
            group,
            platform,
        ),
        custom_target_start(group) is None && platform.wsl && spec_ends_with(group, "_wsl"@) ==> spec_is_valid_target(
            group,
            platform,
        ),
        custom_target_start(group) is None && spec_ends_with_target(group) && !spec_ends_with(group, seq!['_'] + platform.os)
            && !spec_ends_with(group, seq!['_'] + platform.family) && !(platform.wsl && spec_ends_with(group, "_wsl"@))
            ==> !spec_is_valid_target(group, platform),
{
}

proof fn lemma_suffix_is_target(group: Seq<char>, k: int)
    requires
        0 <= k < 13,
        spec_ends_with(group, VALID_TARGETS@[k]@),
    ensures
        spec_ends_with_list_target(group),
{
    lemma_target_list();
    assert(spec_ends_with(group, target_list()[k]));
}

/// The more specific group wins: a group for a custom target outranks any
/// group without one; among those, a group for Windows Subsystem for Linux
/// outranks any other; a group for one operating system outranks a group
/// for the Unix family; and a group without a target suffix ranks below
/// every conditional group.
pub proof fn lemma_priority_law(g: Seq<char>, h: Seq<char>)
    ensures
        custom_target_start(g) is Some && custom_target_start(h) is None ==> spec_group_priority(g) > spec_group_priority(h),
        custom_target_start(g) is None && custom_target_start(h) is None && spec_ends_with(g, "_wsl"@) && !spec_ends_with(
            h,
            "_wsl"@,
        ) ==> spec_group_priority(g) > spec_group_priority(h),
        custom_target_start(g) is None && custom_target_start(h) is None && !spec_ends_with(g, "_wsl"@) && !spec_ends_with(
            g,
            "_unix"@,
        ) && spec_ends_with_list_target(g) && spec_ends_with(h, "_unix"@) && !spec_ends_with(h, "_wsl"@)
            ==> spec_group_priority(g) > spec_group_priority(h),
        !spec_ends_with_target(h) ==> spec_group_priority(h) == 0,
        spec_ends_with_target(g) && !spec_ends_with_target(h) ==> spec_group_priority(g) > spec_group_priority(h),
{
    lemma_target_list();
    reveal_strlit("_wsl");
    reveal_strlit("_unix");
    if spec_ends_with(h, "_wsl"@) {
        lemma_suffix_is_target(h, 12);
    }
    if spec_ends_with(h, "_unix"@) {
        lemma_suffix_is_target(h, 10);
    }
    if spec_ends_with(g, "_wsl"@) {
        lemma_suffix_is_target(g, 12);
    }
    if spec_ends_with(g, "_unix"@) {
        lemma_suffix_is_target(g, 10);
    }
}

/// The groups reported as having no directory are exactly those asked for
/// without one, `*` aside.
pub proof fn lemma_invalid_groups_law(groups: Seq<Seq<char>>, contained: Seq<bool>, g: Seq<char>)
    requires
        groups.len() == contained.len(),
    ensures
        spec_invalid_groups(groups, contained).contains(g) <==> g != "*"@ && exists|i: int|
            0 <= i < groups.len() && #[trigger] groups[i] == g && !contained[i],
    decreases groups.len(),
{
    if groups.len() > 0 {
        let n = groups.len() - 1;
        let d = groups.drop_last();
        let c = contained.take(n);
        lemma_invalid_groups_law(d, c, g);
        let prev = spec_invalid_groups(d, c);
        let r = spec_invalid_groups(groups, contained);
        if r.contains(g) {
            let k = choose|k: int| 0 <= k < r.len() && r[k] == g;
            if k < prev.len() {
                assert(prev[k] == g);
                let i = choose|i: int| 0 <= i < d.len() && #[trigger] d[i] == g && !c[i];
                assert(groups[i] == g && !contained[i]);
            } else {
                assert(groups[n] == g && !contained[n]);
            }
        }
        if g != "*"@ && exists|i: int| 0 <= i < groups.len() && #[trigger] groups[i] == g && !contained[i] {
            let i = choose|i: int| 0 <= i < groups.len() && #[trigger] groups[i] == g && !contained[i];
            if i < n {
                assert(d[i] == g && !c[i]);
                let k = choose|k: int| 0 <= k < prev.len() && prev[k] == g;
                if !contained[n] && groups.last() != "*"@ {
                    assert(r[k] == g);
                }
            } else {
                assert(r == prev.push(g));
                assert(r[prev.len() as int] == g);
            }
        }
    }
}

} // verus!
