//! Decisions behind the file operations: which files are ignored, the order
//! in which a directory tree is walked, and the paths that commands compute.

use vstd::prelude::*;
use crate::order::{sort_dedup, strictly_sorted, text_set, texts_of};
use crate::path::{
    FsPath, PathView, copy_string, copy_strings, parts_view, spec_file_name, spec_join, spec_parent, spec_push,
    spec_starts_with, spec_strip_prefix,
};
use crate::text::{ends_with, spec_ends_with, spec_starts_with_text, starts_with, text_eq};

verus! {

/// Files that macOS creates on its own.
pub const IGNORED_FILES_MACOS: [&'static str; 16] = [
    ".DS_Store",
    ".AppleDouble",
    ".LSOverride",
    "Icon",
    ".DocumentRevisions-V100",
    ".fseventsd",
    ".Spotlight-V100",
    ".TemporaryItems",
    ".Trashes",
    ".VolumeIcon.icns",
    ".com.apple.timemachine.donotpresent",
    ".AppleDB",
    ".AppleDesktop",
    "Network Trash Folder",
    "Temporary Items",
    ".apdisk",
];

/// Files that Windows creates on its own.
pub const IGNORED_FILES_WINDOWS: [&'static str; 5] = [
    "Thumbs.db",
    "Thumbs.db:encryptable",
    "ehthumbs.db",
    "ehthumbs_vista.db",
    "$RECYCLE.BIN",
];

/// Extensions of Windows dump files.
pub const IGNORED_EXTENSIONS_WINDOWS: [&'static str; 1] = [".stackdump"];

/// KDE directory preferences.
pub const IGNORED_FILES_UNIX: [&'static str; 1] = [".directory"];

/// Prefixes of temporary, trash and NFS files on Unix systems.
pub const IGNORED_PREFIXES_UNIX: [&'static str; 3] = [".fuse_hidden", ".Trash-", ".nfs"];

/// Backup files on Unix systems.
pub const IGNORED_EXTENSIONS_UNIX: [&'static str; 1] = ["~"];

pub open spec fn texts(a: Seq<&str>) -> Seq<Seq<char>> {
    a.map_values(|t: &str| t@)
}

pub open spec fn in_list(name: Seq<char>, list: Seq<Seq<char>>) -> bool {
    exists|i: int| 0 <= i < list.len() && list[i] == name
}

pub open spec fn ends_with_any(name: Seq<char>, list: Seq<Seq<char>>) -> bool {
    exists|i: int| 0 <= i < list.len() && spec_ends_with(name, list[i])
}

pub open spec fn starts_with_any(name: Seq<char>, list: Seq<Seq<char>>) -> bool {
    exists|i: int| 0 <= i < list.len() && spec_starts_with_text(name, list[i])
}

/// A file named `name` is one that the platform (operating system `os`,
/// family `family`) creates on its own and that is never a dotfile: the
/// files that macOS creates (on macOS), and those of the operating system
/// family (Windows or Unix).
pub open spec fn spec_is_ignored_name(name: Seq<char>, os: Seq<char>, family: Seq<char>) -> bool {
    ||| (os == "macos"@ && in_list(name, texts(IGNORED_FILES_MACOS@)))
    ||| (family == "windows"@ && (in_list(name, texts(IGNORED_FILES_WINDOWS@)) || ends_with_any(
        name,
        texts(IGNORED_EXTENSIONS_WINDOWS@),
    )))
    ||| (family == "unix"@ && (in_list(name, texts(IGNORED_FILES_UNIX@)) || starts_with_any(
        name,
        texts(IGNORED_PREFIXES_UNIX@),
    ) || ends_with_any(name, texts(IGNORED_EXTENSIONS_UNIX@))))
}

/// The file at `file` is ignored on the platform.
pub open spec fn spec_is_ignored_file(file: PathView, os: Seq<char>, family: Seq<char>) -> bool {
    spec_is_ignored_name(spec_file_name(file)->0, os, family)
}

fn name_in_list(name: &str, list: &[&'static str]) -> (res: bool)
    ensures
        res == in_list(name@, texts(list@)),
{
    let mut i: usize = 0;
    while i < list.len()
        invariant
            i <= list@.len(),
            forall|j: int| 0 <= j < i ==> texts(list@)[j] != name@,
        decreases list.len() - i,
    {
        if text_eq(list[i], name) {
            assert(texts(list@)[i as int] == name@);
            return true;
        }
        i = i + 1;
    }
    false
}

fn name_ends_with_any(name: &str, list: &[&'static str]) -> (res: bool)
    ensures
        res == ends_with_any(name@, texts(list@)),
{
    let mut i: usize = 0;
    while i < list.len()
        invariant
            i <= list@.len(),
            forall|j: int| 0 <= j < i ==> !spec_ends_with(name@, #[trigger] texts(list@)[j]),
        decreases list.len() - i,
    {
        if ends_with(name, list[i]) {
            assert(spec_ends_with(name@, texts(list@)[i as int]));
            return true;
        }
        i = i + 1;
    }
    false
}

fn name_starts_with_any(name: &str, list: &[&'static str]) -> (res: bool)
    ensures
        res == starts_with_any(name@, texts(list@)),
{
    let mut i: usize = 0;
    while i < list.len()
        invariant
            i <= list@.len(),
            forall|j: int| 0 <= j < i ==> !spec_starts_with_text(name@, #[trigger] texts(list@)[j]),
        decreases list.len() - i,
    {
        if starts_with(name, list[i]) {
            assert(spec_starts_with_text(name@, texts(list@)[i as int]));
            return true;
        }
        i = i + 1;
    }
    false
}

/// Whether the file named `name` is one the platform creates on its own.
pub fn is_ignored_name(name: &str, os: &str, family: &str) -> (res: bool)
    ensures
        res == spec_is_ignored_name(name@, os@, family@),
{
    proof {
        reveal_strlit("windows");
        reveal_strlit("unix");
        assert("windows"@.len() != "unix"@.len());
    }
    if text_eq(os, "macos") && name_in_list(name, &IGNORED_FILES_MACOS) {
        return true;
    }
    if text_eq(family, "windows") {
        return name_in_list(name, &IGNORED_FILES_WINDOWS) || name_ends_with_any(
            name,
            &IGNORED_EXTENSIONS_WINDOWS,
        );
    }
    if text_eq(family, "unix") {
        return name_in_list(name, &IGNORED_FILES_UNIX) || name_starts_with_any(
            name,
            &IGNORED_PREFIXES_UNIX,
        ) || name_ends_with_any(name, &IGNORED_EXTENSIONS_UNIX);
    }
    false
}

/// Whether `file` is a file the platform (operating system `os`, family
/// `family`) creates on its own, judged by its name.
pub fn is_ignored_file(file: &FsPath, os: &str, family: &str) -> (res: bool)
    requires
        spec_file_name(file@) is Some,
    ensures
        res == spec_is_ignored_file(file@, os@, family@),
{
    let name = file.file_name().unwrap();
    is_ignored_name(name.as_str(), os, family)
}


/// Every path in `q` has a file name.
pub open spec fn all_named(q: Seq<PathView>) -> bool {
    forall|i: int| 0 <= i < q.len() ==> (#[trigger] spec_file_name(q[i])) is Some
}

/// Taking the next entry of a walk queue: entries are taken from the end;
/// ignored files are dropped without being returned.
pub open spec fn spec_take_next(q: Seq<PathView>, os: Seq<char>, family: Seq<char>) -> (Seq<PathView>, Option<PathView>)
    decreases q.len(),
{
    if q.len() == 0 {
        (q, None)
    } else if spec_is_ignored_file(q.last(), os, family) {
        spec_take_next(q.drop_last(), os, family)
    } else {
        (q.drop_last(), Some(q.last()))
    }
}

/// A depth-first walk through a directory tree. The walk holds the entries
/// still to visit; the caller reads directories and hands their entries in.
pub struct DirWalk {
    queue: Vec<FsPath>,
}

pub open spec fn paths_view(v: Seq<FsPath>) -> Seq<PathView> {
    v.map_values(|p: FsPath| p@)
}

impl View for DirWalk {
    type V = Seq<PathView>;

    closed spec fn view(&self) -> Seq<PathView> {
        paths_view(self.queue@)
    }
}

impl DirWalk {
    /// Every entry still to visit has a file name.
    pub closed spec fn wf(self) -> bool {
        all_named(paths_view(self.queue@))
    }

    /// A walk over the entries of a directory, as read from it.
    pub fn new(entries: Vec<FsPath>) -> (res: DirWalk)
        requires
            all_named(paths_view(entries@)),
        ensures
            res@ == paths_view(entries@),
            res.wf(),
    {
        DirWalk { queue: entries }
    }

    /// Adds the entries of a directory that the walk has just returned.
    pub fn push_entries(&mut self, entries: Vec<FsPath>)
        requires
            old(self).wf(),
            all_named(paths_view(entries@)),
        ensures
            final(self).wf(),
            final(self)@ == old(self)@ + paths_view(entries@),
    {
        let ghost start = self@;
        let mut i: usize = 0;
        while i < entries.len()
            invariant
                i <= entries.len(),
                all_named(paths_view(entries@)),
                all_named(paths_view(self.queue@)),
                paths_view(self.queue@) == start + paths_view(entries@).take(i as int),
            decreases entries.len() - i,
        {
            let e = entries[i].duplicate();
            let ghost before = paths_view(self.queue@);
            proof {
                assert(spec_file_name(paths_view(entries@)[i as int]) is Some);
            }
            self.queue.push(e);
            proof {
                assert(paths_view(self.queue@) =~= before.push(e@));
                lemma_all_named_push(before, e@);
                assert(paths_view(entries@).take(i + 1) =~= paths_view(entries@).take(i as int).push(e@));
                assert(paths_view(self.queue@) =~= start + paths_view(entries@).take(i + 1));
            }
            i = i + 1;
        }
        proof {
            assert(paths_view(entries@).take(entries.len() as int) =~= paths_view(entries@));
        }
    }

    /// The next entry to visit, skipping (and dropping) files that the
    /// platform creates on its own. `None` when the walk is over.
    pub fn next_entry(&mut self, os: &str, family: &str) -> (res: Option<FsPath>)
        requires
            old(self).wf(),
        ensures
            final(self).wf(),
            (final(self)@, opt_path_view(res)) == spec_take_next(old(self)@, os@, family@),
    {
        loop
            invariant
                all_named(paths_view(self.queue@)),
                spec_take_next(old(self)@, os@, family@) == spec_take_next(paths_view(self.queue@), os@, family@),
            decreases self.queue.len(),
        {
            let ghost before = paths_view(self.queue@);
            let curr_file = match self.queue.pop() {
                Some(f) => f,
                None => {
                    assert(paths_view(self.queue@) =~= Seq::<PathView>::empty());
                    return None;
                },
            };
            proof {
                assert(before.drop_last() =~= paths_view(self.queue@));
                assert(before.last() == curr_file@);
                assert(spec_file_name(before[before.len() - 1]) is Some);
                lemma_all_named_drop_last(before);
            }
            if !is_ignored_file(&curr_file, os, family) {
                return Some(curr_file);
            }
        }
    }

    /// Whether there is nothing left to visit.
    pub fn is_done(&self) -> (res: bool)
        ensures
            res == (self@.len() == 0),
    {
        self.queue.len() == 0
    }
}

proof fn lemma_all_named_push(q: Seq<PathView>, x: PathView)
    requires
        all_named(q),
        spec_file_name(x) is Some,
    ensures
        all_named(q.push(x)),
{
    assert forall|i: int| 0 <= i < q.push(x).len() implies (#[trigger] spec_file_name(q.push(x)[i])) is Some by {
        if i < q.len() {
            assert(q.push(x)[i] == q[i]);
        }
    }
}

proof fn lemma_all_named_drop_last(q: Seq<PathView>)
    requires
        all_named(q),
        q.len() > 0,
    ensures
        all_named(q.drop_last()),
{
    assert forall|i: int| 0 <= i < q.drop_last().len() implies (#[trigger] spec_file_name(q.drop_last()[i])) is Some by {
        assert(q.drop_last()[i] == q[i]);
    }
}

pub open spec fn opt_path_view(o: Option<FsPath>) -> Option<PathView> {
    match o {
        Some(p) => Some(p@),
        None => None,
    }
}

/// The directories that make a dotfiles directory.
pub fn init_dirs(dotfiles_dir: &FsPath) -> (res: Vec<FsPath>)
    ensures
        res@.len() == 3,
        res@[0]@ == spec_push(dotfiles_dir@, "Configs"@),
        res@[1]@ == spec_push(dotfiles_dir@, "Hooks"@),
        res@[2]@ == spec_push(dotfiles_dir@, "Secrets"@),
{
    let mut res: Vec<FsPath> = Vec::new();
    res.push(dotfiles_dir.push_part("Configs"));
    res.push(dotfiles_dir.push_part("Hooks"));
    res.push(dotfiles_dir.push_part("Secrets"));
    res
}

/// Where a file of the home directory is put when pushed into the group
/// directory `group_dir`: at its place relative to the home directory.
pub fn push_target(group_dir: &FsPath, file: &FsPath, home: &FsPath) -> (res: FsPath)
    requires
        spec_strip_prefix(file@, home@) is Some,
    ensures
        res@ == spec_join(group_dir@, spec_strip_prefix(file@, home@)->0),
{
    let rel = file.strip_prefix(home).unwrap();
    group_dir.join(&rel)
}

/// What pushing a file into the dotfiles does.
#[derive(Clone, Copy, PartialEq, Eq, Structural, Debug)]
pub enum PushAction {
    /// Nothing: the file is a symlink to where it would be put.
    SkipSelfLink,
    /// Dry run: report the copy, and the parent directory to create.
    Report { report_parent: bool },
    /// Move the file into the dotfiles, creating the parent directory.
    Move { create_parent: bool },
    /// Copy the file into the dotfiles, creating the parent directory.
    Copy { create_parent: bool },
}

/// The parent directories reported so far while pushing files in a dry run.
pub struct PushLog {
    pub reported: Vec<FsPath>,
}

/// What pushing does, given where the file links to (`link`, when it is a
/// symlink), where it goes (`target`), whether its parent directory exists
/// and whether that directory was already reported.
pub open spec fn spec_push_action(
    link: Option<PathView>,
    target: PathView,
    dry_run: bool,
    add: bool,
    parent_exists: bool,
    parent_reported: bool,
) -> PushAction {
    if link == Some(target) {
        PushAction::SkipSelfLink
    } else if dry_run {
        PushAction::Report { report_parent: !parent_exists && !parent_reported }
    } else if add {
        PushAction::Move { create_parent: !parent_exists }
    } else {
        PushAction::Copy { create_parent: !parent_exists }
    }
}

impl PushLog {
    pub fn new() -> (res: PushLog)
        ensures
            res.reported@.len() == 0,
    {
        PushLog { reported: Vec::new() }
    }

    /// What pushing a file to `target` does (see `spec_push_action`); a
    /// parent directory reported now is remembered.
    pub fn plan(&mut self, link: &Option<FsPath>, target: &FsPath, dry_run: bool, add: bool, parent_exists: bool) -> (res: PushAction)
        ensures
            ({
                let reported = exists|i: int| 0 <= i < old(self).reported@.len() && (#[trigger] old(self).reported@[i])@ == spec_parent(target@);
                &&& res == spec_push_action(
                    match link {
                        Some(l) => Some(l@),
                        None => None,
                    },
                    target@,
                    dry_run,
                    add,
                    parent_exists,
                    reported,
                )
                &&& paths_view(final(self).reported@) == (if res == (PushAction::Report { report_parent: true }) {
                    paths_view(old(self).reported@).push(spec_parent(target@))
                } else {
                    paths_view(old(self).reported@)
                })
            }),
    {
        let parent = target.parent();
        let mut reported = false;
        let mut i: usize = 0;
        while i < self.reported.len()
            invariant
                i <= self.reported@.len(),
                self.reported@ == old(self).reported@,
                parent@ == spec_parent(target@),
                reported == exists|k: int| 0 <= k < i && (#[trigger] self.reported@[k])@ == spec_parent(target@),
            decreases self.reported@.len() - i,
        {
            if self.reported[i].same_as(&parent) {
                reported = true;
            }
            i = i + 1;
        }
        let self_link = match link {
            Some(l) => l.same_as(target),
            None => false,
        };
        if self_link {
            PushAction::SkipSelfLink
        } else if dry_run {
            let report_parent = !parent_exists && !reported;
            if report_parent {
                let ghost before = self.reported@;
                self.reported.push(parent);
                assert(paths_view(self.reported@) =~= paths_view(before).push(spec_parent(target@)));
            }
            PushAction::Report { report_parent }
        } else if add {
            PushAction::Move { create_parent: !parent_exists }
        } else {
            PushAction::Copy { create_parent: !parent_exists }
        }
    }
}

/// The groups of `groups` whose entry in `is_dir` is false, in order.
pub open spec fn spec_missing_groups(groups: Seq<Seq<char>>, is_dir: Seq<bool>) -> Seq<Seq<char>>
    decreases groups.len(),
{
    if groups.len() == 0 {
        Seq::empty()
    } else {
        let prev = spec_missing_groups(groups.drop_last(), is_dir);
        if !is_dir[groups.len() - 1] {
            prev.push(groups.last())
        } else {
            prev
        }
    }
}

/// The groups to pop that have no directory in `dotfiles/Configs`;
/// `is_dir[i]` tells whether `groups[i]` has one.
pub fn pop_invalid_groups(groups: &Vec<String>, is_dir: &Vec<bool>) -> (res: Vec<String>)
    requires
        groups@.len() == is_dir@.len(),
    ensures
        texts_of(res@) == spec_missing_groups(texts_of(groups@), is_dir@),
{
    let mut res: Vec<String> = Vec::new();
    let mut i: usize = 0;
    while i < groups.len()
        invariant
            i <= groups@.len(),
            groups@.len() == is_dir@.len(),
            texts_of(res@) == spec_missing_groups(texts_of(groups@).take(i as int), is_dir@),
        decreases groups@.len() - i,
    {
        let ghost before = texts_of(res@);
        if !is_dir[i] {
            res.push(copy_string(&groups[i]));
        }
        proof {
            let t = texts_of(groups@).take(i + 1);
            assert(t.drop_last() =~= texts_of(groups@).take(i as int));
            assert(t.last() == groups@[i as int]@);
            if !is_dir@[i as int] {
                assert(texts_of(res@) =~= before.push(groups@[i as int]@));
            } else {
                assert(texts_of(res@) =~= before);
            }
        }
        i = i + 1;
    }
    proof {
        assert(texts_of(groups@).take(groups@.len() as int) =~= texts_of(groups@));
    }
    res
}

/// The profiles found, in increasing order and each once; `found[i]` is
/// the profile of the `i`-th entry looked at, if it is a dotfiles directory.
pub fn distinct_profiles(found: &Vec<Option<String>>) -> (res: Vec<String>)
    ensures
        strictly_sorted(texts_of(res@)),
        forall|p: Seq<char>|
            #[trigger] text_set(texts_of(res@)).contains(p) <==> exists|i: int|
                0 <= i < found@.len() && (#[trigger] found@[i]) is Some && found@[i]->0@ == p,
{
    let mut all: Vec<String> = Vec::new();
    let mut i: usize = 0;
    while i < found.len()
        invariant
            i <= found@.len(),
            forall|p: Seq<char>|
                #[trigger] texts_of(all@).contains(p) <==> exists|k: int|
                    0 <= k < i && (#[trigger] found@[k]) is Some && found@[k]->0@ == p,
        decreases found@.len() - i,
    {
        let ghost before = texts_of(all@);
        match &found[i] {
            Some(p) => {
                all.push(copy_string(p));
            },
            None => {},
        }
        proof {
            assert forall|p: Seq<char>|
                #[trigger] texts_of(all@).contains(p) <==> exists|k: int|
                    0 <= k < i + 1 && (#[trigger] found@[k]) is Some && found@[k]->0@ == p by {
                assert(before.contains(p) <==> exists|k: int| 0 <= k < i && (#[trigger] found@[k]) is Some && found@[k]->0@ == p);
                if texts_of(all@).contains(p) {
                    let m = choose|m: int| 0 <= m < texts_of(all@).len() && texts_of(all@)[m] == p;
                    if m < before.len() {
                        assert(before[m] == p);
                    } else {
                        assert(found@[i as int] is Some && found@[i as int]->0@ == p);
                    }
                }
                if exists|k: int| 0 <= k < i + 1 && (#[trigger] found@[k]) is Some && found@[k]->0@ == p {
                    let k = choose|k: int| 0 <= k < i + 1 && (#[trigger] found@[k]) is Some && found@[k]->0@ == p;
                    if k < i {
                        let m = choose|m: int| 0 <= m < before.len() && before[m] == p;
                        assert(texts_of(all@)[m] == p);
                    } else {
                        assert(texts_of(all@)[before.len() as int] == p);
                    }
                }
            }
        }
        i = i + 1;
    }
    let res = sort_dedup(&all);
    proof {
        assert forall|p: Seq<char>| #[trigger] text_set(texts_of(res@)).contains(p) == texts_of(all@).contains(p) by {
            assert(text_set(texts_of(all@)).contains(p) == texts_of(all@).contains(p));
        }
    }
    res
}

/// A whitespace character: one with the Unicode property `White_Space`,
/// which is what `char::is_whitespace` tests.
pub open spec fn is_white_space(c: char) -> bool {
    let u = c as int;
    ||| 0x9 <= u <= 0xD
    ||| u == 0x20
    ||| u == 0x85
    ||| u == 0xA0
    ||| u == 0x1680
    ||| 0x2000 <= u <= 0x200A
    ||| u == 0x2028
    ||| u == 0x2029
    ||| u == 0x202F
    ||| u == 0x205F
    ||| u == 0x3000
}

/// `s` without its leading whitespace.
pub open spec fn trimmed_start(s: Seq<char>) -> Seq<char>
    decreases s.len(),
{
    if s.len() > 0 && is_white_space(s[0]) {
        trimmed_start(s.drop_first())
    } else {
        s
    }
}

/// `s` without its trailing whitespace.
pub open spec fn trimmed_end(s: Seq<char>) -> Seq<char>
    decreases s.len(),
{
    if s.len() > 0 && is_white_space(s.last()) {
        trimmed_end(s.drop_last())
    } else {
        s
    }
}

/// `s` without leading and trailing whitespace: what `str::trim` gives.
pub open spec fn trimmed(s: Seq<char>) -> Seq<char> {
    trimmed_end(trimmed_start(s))
}

/// What `str::to_lowercase` gives for `s`.
pub uninterp spec fn lowercased(s: Seq<char>) -> Seq<char>;

/// `s` without leading and trailing whitespace, by `str::trim`, whose
/// documentation defines whitespace as the characters with the Unicode
/// property `White_Space` (see `trimmed`).
#[verifier::external_body]
fn trim_text<'a>(s: &'a str) -> (res: &'a str)
    ensures
        res@ == trimmed(s@),
{
    s.trim()
}

/// `s` in lower case (`str::to_lowercase`).
#[verifier::external_body]
fn lowercase_text(s: &str) -> (res: String)
    ensures
        res@ == lowercased(s@),
{
    s.to_lowercase()
}

/// A normalized answer to a yes/no question means yes: there is a word for
/// yes, and the answer is that word, or is one ASCII character (one byte)
/// equal to its first character.
pub open spec fn spec_answer_matches(answer: Seq<char>, yes: Seq<char>) -> bool {
    if yes.len() == 0 {
        false
    } else if answer == yes {
        true
    } else {
        answer.len() == 1 && (answer[0] as u32) < 128 && answer[0] == yes[0]
    }
}

/// Whether the answer `answer` means `yes`, both already trimmed and in
/// lower case (see `spec_answer_matches`).
pub fn answer_matches(answer: &str, yes: &str) -> (res: bool)
    ensures
        res == spec_answer_matches(answer@, yes@),
{
    if yes.unicode_len() == 0 {
        return false;
    }
    if text_eq(answer, yes) {
        return true;
    }
    if answer.unicode_len() == 1 {
        let c = answer.get_char(0);
        (c as u32) < 128 && c == yes.get_char(0)
    } else {
        false
    }
}

/// Whether the line `answer` typed at a yes/no question means `yes` (the
/// word for yes): compared without surrounding whitespace, in lower case.
pub fn is_confirmation(answer: &str, yes: &str) -> (res: bool)
    ensures
        res == spec_answer_matches(lowercased(trimmed(answer@)), lowercased(yes@)),
{
    let a = lowercase_text(trim_text(answer));
    let y = lowercase_text(yes);
    answer_matches(a.as_str(), y.as_str())
}

/// The profile a conversion from Stow works in until it is done.
pub open spec fn spec_temp_profile(profile: Option<Seq<char>>) -> Seq<char> {
    match profile {
        Some(p) => p + "_incomplete_conversion"@,
        None => "incomplete_conversion"@,
    }
}

/// The profile a conversion from Stow works in (see `spec_temp_profile`).
pub fn temp_profile(profile: &Option<String>) -> (res: String)
    ensures
        res@ == spec_temp_profile(match profile {
            Some(p) => Some(p@),
            None => None,
        }),
{
    match profile {
        Some(p) => {
            let mut name = copy_string(p);
            name.append("_incomplete_conversion");
            name
        },
        None => String::from_str("incomplete_conversion"),
    }
}

/// A path component of a Stow repository as Tuckr names it: with
/// `--dotfiles`, a leading `dot-` stands for `.`.
pub open spec fn spec_stow_component(c: Seq<char>, used_dot_prefix: bool) -> Seq<char> {
    if used_dot_prefix && spec_starts_with_text(c, "dot-"@) {
        seq!['.'] + c.subrange(4, c.len() as int)
    } else {
        c
    }
}

/// A path component of a Stow repository as Tuckr names it.
pub fn stow_component(c: &str, used_dot_prefix: bool) -> (res: String)
    ensures
        res@ == spec_stow_component(c@, used_dot_prefix),
{
    proof {
        reveal_strlit("dot-");
    }
    if used_dot_prefix && starts_with(c, "dot-") {
        let mut name = String::from_str(".");
        proof {
            reveal_strlit(".");
        }
        let rest = c.substring_char(4, c.unicode_len());
        name.append(rest);
        assert(name@ =~= seq!['.'] + c@.subrange(4, c@.len() as int));
        name
    } else {
        String::from_str(c)
    }
}

/// Where a file of a Stow repository goes in the new `Configs` directory:
/// at its place in the repository, each component renamed.
pub open spec fn spec_stow_target(stow_path: PathView, file: PathView, configs_dir: PathView, used_dot_prefix: bool) -> PathView {
    PathView {
        absolute: configs_dir.absolute,
        parts: configs_dir.parts + spec_strip_prefix(file, stow_path)->0.parts.map_values(
            |c: Seq<char>| spec_stow_component(c, used_dot_prefix),
        ),
    }
}

/// Where the file `file` of the Stow repository `stow_path` goes in the
/// new `Configs` directory `configs_dir`.
pub fn stow_target(stow_path: &FsPath, file: &FsPath, configs_dir: &FsPath, used_dot_prefix: bool) -> (res: FsPath)
    requires
        spec_starts_with(file@, stow_path@),
    ensures
        res@ == spec_stow_target(stow_path@, file@, configs_dir@, used_dot_prefix),
{
    let rel = file.strip_prefix(stow_path).unwrap();
    let ghost f = |c: Seq<char>| spec_stow_component(c, used_dot_prefix);
    let mut parts = copy_strings(&configs_dir.parts);
    let ghost base = parts_view(parts@);
    let mut i: usize = 0;
    while i < rel.parts.len()
        invariant
            i <= rel.parts@.len(),
            base == configs_dir@.parts,
            f == (|c: Seq<char>| spec_stow_component(c, used_dot_prefix)),
            parts_view(parts@) == base + rel@.parts.take(i as int).map_values(f),
        decreases rel.parts@.len() - i,
    {
        let c = stow_component(rel.parts[i].as_str(), used_dot_prefix);
        let ghost before = parts_view(parts@);
        parts.push(c);
        proof {
            assert(rel@.parts.take(i + 1) =~= rel@.parts.take(i as int).push(rel@.parts[i as int]));
            assert(rel@.parts.take(i + 1).map_values(f) =~= rel@.parts.take(i as int).map_values(f).push(f(rel@.parts[i as int])));
            assert(parts_view(parts@) =~= before.push(f(rel@.parts[i as int])));
        }
        i = i + 1;
    }
    proof {
        assert(rel@.parts.take(rel.parts@.len() as int) =~= rel@.parts);
    }
    FsPath { absolute: configs_dir.absolute, parts }
}

/// Where the previous dotfiles directory is kept after a conversion: the
/// same place, its name followed by `_old`.
pub open spec fn spec_old_dotfiles(dotfiles_dir: PathView) -> PathView {
    PathView {
        absolute: dotfiles_dir.absolute,
        parts: dotfiles_dir.parts.drop_last().push(dotfiles_dir.parts.last() + "_old"@),
    }
}

/// Where the previous dotfiles directory is kept after a conversion.
pub fn old_dotfiles_path(dotfiles_dir: &FsPath) -> (res: FsPath)
    requires
        dotfiles_dir@.parts.len() > 0,
    ensures
        res@ == spec_old_dotfiles(dotfiles_dir@),
{
    let mut parts = copy_strings(&dotfiles_dir.parts);
    let n = parts.len();
    let mut last = copy_string(&parts[n - 1]);
    last.append("_old");
    parts.set(n - 1, last);
    let res = FsPath { absolute: dotfiles_dir.absolute, parts };
    assert(res@.parts =~= spec_old_dotfiles(dotfiles_dir@).parts);
    res
}

/// Pushing without `--add` copies the file (the home directory keeps it),
/// with `--add` it moves it, whether or not the parent directory exists; a
/// dry run only reports, and a file that already links to its place is left
/// alone. The parent directory is created exactly when it is missing.
pub proof fn lemma_push_copies_unless_added(
    link: Option<PathView>,
    target: PathView,
    dry_run: bool,
    add: bool,
    parent_exists: bool,
    parent_reported: bool,
)
    ensures
        ({
            let a = spec_push_action(link, target, dry_run, add, parent_exists, parent_reported);
            &&& link == Some(target) ==> a is SkipSelfLink
            &&& link != Some(target) && dry_run ==> a is Report
            &&& link != Some(target) && !dry_run && !add ==> (a matches PushAction::Copy { create_parent } && create_parent
                == !parent_exists)
            &&& link != Some(target) && !dry_run && add ==> (a matches PushAction::Move { create_parent } && create_parent
                == !parent_exists)
            &&& !add ==> !(a is Move)
        }),
{
}

/// Files that the platform creates on its own are never taken as dotfiles:
/// on Unix, backup files (`...~`) and trash directories (`.Trash-...`); on
/// macOS also `.DS_Store`; on Windows `Thumbs.db` and dump files
/// (`....stackdump`). On a platform that is none of these, nothing is
/// ignored.
pub proof fn lemma_ignored_names_law(rest: Seq<char>, name: Seq<char>, os: Seq<char>, family: Seq<char>)
    ensures
        family == "unix"@ ==> spec_is_ignored_name(rest + "~"@, os, family),
        family == "unix"@ ==> spec_is_ignored_name(".Trash-"@ + rest, os, family),
        os == "macos"@ ==> spec_is_ignored_name(".DS_Store"@, os, family),
        family == "windows"@ ==> spec_is_ignored_name("Thumbs.db"@, os, family),
        family == "windows"@ ==> spec_is_ignored_name(rest + ".stackdump"@, os, family),
        os != "macos"@ && family != "unix"@ && family != "windows"@ ==> !spec_is_ignored_name(name, os, family),
{
    if family == "unix"@ {
        reveal_strlit("~");
        reveal_strlit(".Trash-");
        let ext = texts(IGNORED_EXTENSIONS_UNIX@);
        assert(ext[0] == "~"@);
        assert((rest + "~"@).subrange((rest + "~"@).len() - 1, (rest + "~"@).len() as int) =~= "~"@);
        assert(spec_ends_with(rest + "~"@, ext[0]));
        let pre = texts(IGNORED_PREFIXES_UNIX@);
        assert(pre[1] == ".Trash-"@);
        assert((".Trash-"@ + rest).subrange(0, 7) =~= ".Trash-"@);
        assert(spec_starts_with_text(".Trash-"@ + rest, pre[1]));
    }
    if os == "macos"@ {
        assert(texts(IGNORED_FILES_MACOS@)[0] == ".DS_Store"@);
    }
    if family == "windows"@ {
        reveal_strlit(".stackdump");
        assert(texts(IGNORED_FILES_WINDOWS@)[0] == "Thumbs.db"@);
        let ext = texts(IGNORED_EXTENSIONS_WINDOWS@);
        assert(ext[0] == ".stackdump"@);
        let n = rest + ".stackdump"@;
        assert(n.subrange(n.len() - 10, n.len() as int) =~= ".stackdump"@);
        assert(spec_ends_with(n, ext[0]));
    }
}

/// The groups to pop that are reported missing are exactly those asked
/// for without a directory.
pub proof fn lemma_missing_groups_law(groups: Seq<Seq<char>>, is_dir: Seq<bool>, g: Seq<char>)
    requires
        groups.len() <= is_dir.len(),
    ensures
        spec_missing_groups(groups, is_dir).contains(g) <==> exists|i: int| 0 <= i < groups.len() && #[trigger] groups[i] == g
            && !is_dir[i],
    decreases groups.len(),
{
    if groups.len() > 0 {
        let d = groups.drop_last();
        lemma_missing_groups_law(d, is_dir, g);
        let prev = spec_missing_groups(d, is_dir);
        let r = spec_missing_groups(groups, is_dir);
        let n = groups.len() - 1;
        if r.contains(g) {
            let k = choose|k: int| 0 <= k < r.len() && r[k] == g;
            if k < prev.len() {
                assert(prev[k] == g);
                let i = choose|i: int| 0 <= i < d.len() && #[trigger] d[i] == g && !is_dir[i];
                assert(groups[i] == g);
            } else {
                assert(groups[n] == g && !is_dir[n]);
            }
        }
        if exists|i: int| 0 <= i < groups.len() && #[trigger] groups[i] == g && !is_dir[i] {
            let i = choose|i: int| 0 <= i < groups.len() && #[trigger] groups[i] == g && !is_dir[i];
            if i < n {
                assert(d[i] == g);
                let k = choose|k: int| 0 <= k < prev.len() && prev[k] == g;
                if !is_dir[n] {
                    assert(r[k] == g);
                }
            } else {
                assert(r == prev.push(g));
                assert(r[prev.len() as int] == g);
            }
        }
    }
}

/// A conversion from Stow works in a profile of its own: its name starts
/// with the profile's name and is longer, so it never is the profile in use.
pub proof fn lemma_temp_profile_law(p: Seq<char>)
    ensures
        spec_temp_profile(Some(p)).len() > p.len(),
        spec_temp_profile(Some(p)).subrange(0, p.len() as int) == p,
        spec_temp_profile(None) != "dotfiles"@,
        spec_temp_profile(None).len() > 0,
{
    reveal_strlit("_incomplete_conversion");
    reveal_strlit("incomplete_conversion");
    reveal_strlit("dotfiles");
    assert(spec_temp_profile(Some(p)).subrange(0, p.len() as int) =~= p);
    assert(spec_temp_profile(None).len() != "dotfiles"@.len());
}

/// With `--dotfiles`, a component `dot-<rest>` becomes `.<rest>`; any other
/// component, and every component without `--dotfiles`, is kept.
pub proof fn lemma_stow_component_law(c: Seq<char>, rest: Seq<char>, used_dot_prefix: bool)
    ensures
        !used_dot_prefix ==> spec_stow_component(c, used_dot_prefix) == c,
        used_dot_prefix ==> spec_stow_component("dot-"@ + rest, used_dot_prefix) == seq!['.'] + rest,
        !(c.len() >= 4 && c.subrange(0, 4) == "dot-"@) ==> spec_stow_component(c, used_dot_prefix) == c,
{
    reveal_strlit("dot-");
    let d = "dot-"@ + rest;
    assert(d.subrange(0, 4) =~= "dot-"@);
    assert(d.subrange(4, d.len() as int) =~= rest);
}

/// A Stow file goes below the new `Configs` directory, at the place it had
/// in the repository, one renamed component for each of its components.
pub proof fn lemma_stow_target_law(stow_path: PathView, file: PathView, configs_dir: PathView, used_dot_prefix: bool)
    requires
        spec_starts_with(file, stow_path),
    ensures
        ({
            let t = spec_stow_target(stow_path, file, configs_dir, used_dot_prefix);
            &&& spec_starts_with(t, configs_dir)
            &&& t.parts.len() == configs_dir.parts.len() + file.parts.len() - stow_path.parts.len()
            &&& forall|k: int|
                stow_path.parts.len() <= k < file.parts.len() ==> #[trigger] t.parts[configs_dir.parts.len() + k
                    - stow_path.parts.len()] == spec_stow_component(file.parts[k], used_dot_prefix)
        }),
{
    let t = spec_stow_target(stow_path, file, configs_dir, used_dot_prefix);
    let rel = spec_strip_prefix(file, stow_path)->0;
    assert(t.parts.subrange(0, configs_dir.parts.len() as int) =~= configs_dir.parts);
    assert forall|k: int| stow_path.parts.len() <= k < file.parts.len() implies #[trigger] t.parts[configs_dir.parts.len() + k
        - stow_path.parts.len()] == spec_stow_component(file.parts[k], used_dot_prefix) by {
        assert(rel.parts[k - stow_path.parts.len()] == file.parts[k]);
    }
}

/// The previous dotfiles directory is kept beside it, under its name
/// followed by `_old`: never at the same place.
pub proof fn lemma_old_dotfiles_law(dotfiles_dir: PathView)
    requires
        dotfiles_dir.parts.len() > 0,
    ensures
        spec_old_dotfiles(dotfiles_dir) != dotfiles_dir,
        spec_parent(spec_old_dotfiles(dotfiles_dir)) == spec_parent(dotfiles_dir),
        spec_old_dotfiles(dotfiles_dir).parts.last() == dotfiles_dir.parts.last() + "_old"@,
{
    reveal_strlit("_old");
    let o = spec_old_dotfiles(dotfiles_dir);
    assert(o.parts.drop_last() =~= dotfiles_dir.parts.drop_last());
    assert(o.parts.last().len() != dotfiles_dir.parts.last().len());
}

/// An answer means yes when it is the word for yes, or its first letter
/// alone (one ASCII character); an empty answer, or a longer answer that is
/// not the word, never does.
pub proof fn lemma_answer_law(answer: Seq<char>, yes: Seq<char>)
    ensures
        yes.len() > 0 && answer == yes ==> spec_answer_matches(answer, yes),
        yes.len() > 0 && (yes[0] as u32) < 128 ==> spec_answer_matches(seq![yes[0]], yes),
        answer.len() != 1 && answer != yes ==> !spec_answer_matches(answer, yes),
        yes.len() == 0 ==> !spec_answer_matches(answer, yes),
        answer.len() == 1 && answer[0] != yes[0] && answer != yes ==> !spec_answer_matches(answer, yes),
{
}

/// A pushed file goes below the group directory, at the place it had
/// below the home directory.
pub proof fn lemma_push_target_law(group_dir: PathView, file: PathView, home: PathView)
    requires
        spec_strip_prefix(file, home) is Some,
    ensures
        spec_strip_prefix(spec_join(group_dir, spec_strip_prefix(file, home)->0), group_dir) == spec_strip_prefix(file, home),
{
    let rel = spec_strip_prefix(file, home)->0;
    let t = spec_join(group_dir, rel);
    assert(t.parts.subrange(0, group_dir.parts.len() as int) =~= group_dir.parts);
    assert(t.parts.skip(group_dir.parts.len() as int) =~= rel.parts);
}

/// A walk hands out entries that are not ignored, taken from the end of
/// what is left to visit; it stops only when nothing that is not ignored is
/// left, and it drops only ignored entries on the way.
pub proof fn lemma_take_next_law(q: Seq<PathView>, os: Seq<char>, family: Seq<char>)
    ensures
        spec_take_next(q, os, family).1 matches Some(p) ==> !spec_is_ignored_file(p, os, family) && q.contains(p),
        spec_take_next(q, os, family).1 is None <==> forall|i: int| 0 <= i < q.len() ==> spec_is_ignored_file(
            #[trigger] q[i],
            os,
            family,
        ),
        spec_take_next(q, os, family).1 matches Some(p) ==> q == spec_take_next(q, os, family).0.push(p) + q.skip(
            spec_take_next(q, os, family).0.len() as int + 1,
        ),
        forall|i: int|
            spec_take_next(q, os, family).0.len() < i < q.len() ==> spec_is_ignored_file(#[trigger] q[i], os, family),
    decreases q.len(),
{
    if q.len() > 0 {
        let d = q.drop_last();
        lemma_take_next_law(d, os, family);
        let r = spec_take_next(q, os, family);
        if spec_is_ignored_file(q.last(), os, family) {
            assert(r == spec_take_next(d, os, family));
            if let Some(p) = r.1 {
                let k = choose|k: int| 0 <= k < d.len() && d[k] == p;
                assert(q[k] == p);
                let m = r.0.len() as int;
                assert(q =~= d.push(q.last()));
                assert(d == r.0.push(p) + d.skip(m + 1));
                assert(q.skip(m + 1) =~= d.skip(m + 1).push(q.last()));
                assert(q =~= r.0.push(p) + q.skip(m + 1));
            }
            if r.1 is None {
                assert forall|i: int| 0 <= i < q.len() implies spec_is_ignored_file(#[trigger] q[i], os, family) by {
                    if i < d.len() {
                        assert(d[i] == q[i]);
                    }
                }
            } else {
                if forall|i: int| 0 <= i < q.len() ==> spec_is_ignored_file(#[trigger] q[i], os, family) {
                    assert forall|j: int| 0 <= j < d.len() implies spec_is_ignored_file(#[trigger] d[j], os, family) by {
                        assert(q[j] == d[j]);
                    }
                }
            }
            assert forall|i: int| r.0.len() < i < q.len() implies spec_is_ignored_file(#[trigger] q[i], os, family) by {
                if i < d.len() {
                    assert(d[i] == q[i]);
                }
            }
        } else {
            assert(q.contains(q.last()));
            assert(q.skip(d.len() as int + 1) =~= Seq::<PathView>::empty());
            assert(q =~= d.push(q.last()) + q.skip(d.len() as int + 1));
            assert(!spec_is_ignored_file(q[q.len() - 1], os, family));
        }
    }
}

} // verus!
