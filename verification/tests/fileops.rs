use tuckr::fileops::{
    answer_matches, distinct_profiles, init_dirs, is_confirmation, is_ignored_file, old_dotfiles_path, pop_invalid_groups,
    push_target, stow_component, stow_target, temp_profile, DirWalk, PushAction, PushLog,
};
use tuckr::path::FsPath;

fn is_ignored(name: &str, os: &str, family: &str) -> bool {
    is_ignored_file(&FsPath::parse(name), os, family)
}

#[test]
fn ignore_garbage_files() {
    // the platforms: (target_os, target_family)
    for (os, family) in [("linux", "unix"), ("macos", "unix"), ("windows", "windows")] {
        assert!(is_ignored("asdfadsfaf", os, family) == false);

        if os == "macos" {
            assert!(is_ignored(".DS_Store", os, family));
        }

        if family == "windows" {
            assert!(is_ignored("Thumbs.db", os, family));
            assert!(is_ignored("test.stackdump", os, family));
        }

        if family == "unix" {
            assert!(is_ignored(".Trash-tuckr", os, family));
            assert!(is_ignored("tuckr-backup~", os, family));
        }
    }
}

#[test]
fn ignored_files_depend_on_the_platform() {
    assert!(!is_ignored(".DS_Store", "linux", "unix"));
    assert!(!is_ignored("Thumbs.db", "linux", "unix"));
    assert!(!is_ignored(".Trash-tuckr", "windows", "windows"));
    assert!(is_ignored("/some/dir/.nfs0001", "linux", "unix"));
}

#[test]
fn walk_takes_entries_from_the_end_and_skips_garbage() {
    let mut walk = DirWalk::new(vec![FsPath::parse("/d/a"), FsPath::parse("/d/b~")]);
    let first = walk.next_entry("linux", "unix").unwrap();
    assert_eq!(first.display_string(), "/d/a");
    walk.push_entries(vec![FsPath::parse("/d/a/x")]);
    assert!(!walk.is_done());
    assert_eq!(walk.next_entry("linux", "unix").unwrap().display_string(), "/d/a/x");
    assert!(walk.next_entry("linux", "unix").is_none());
    assert!(walk.is_done());
}

#[test]
fn init_creates_three_directories() {
    let dirs = init_dirs(&FsPath::parse("/home/u/.config/dotfiles"));
    let names: Vec<String> = dirs.iter().map(|d| d.display_string()).collect();
    assert_eq!(
        names,
        vec![
            "/home/u/.config/dotfiles/Configs".to_string(),
            "/home/u/.config/dotfiles/Hooks".to_string(),
            "/home/u/.config/dotfiles/Secrets".to_string(),
        ]
    );
}

#[test]
fn pushed_file_keeps_its_place_relative_to_home() {
    let t = push_target(
        &FsPath::parse("/home/u/.config/dotfiles/Configs/nvim"),
        &FsPath::parse("/home/u/.config/nvim/init.lua"),
        &FsPath::parse("/home/u"),
    );
    assert_eq!(t.display_string(), "/home/u/.config/dotfiles/Configs/nvim/.config/nvim/init.lua");
}

#[test]
fn push_plans() {
    let target = FsPath::parse("/d/Configs/g/.zshrc");
    let mut log = PushLog::new();
    assert_eq!(log.plan(&Some(target.duplicate()), &target, false, false, true), PushAction::SkipSelfLink);
    assert_eq!(log.plan(&None, &target, true, false, false), PushAction::Report { report_parent: true });
    // the parent directory is reported once
    assert_eq!(log.plan(&None, &target, true, false, false), PushAction::Report { report_parent: false });
    assert_eq!(log.reported.len(), 1);
    assert_eq!(log.plan(&None, &target, false, true, false), PushAction::Move { create_parent: true });
    assert_eq!(log.plan(&None, &target, false, false, true), PushAction::Copy { create_parent: false });
}

#[test]
fn popping_missing_groups_is_refused() {
    let groups = vec!["a".to_string(), "b".to_string(), "c".to_string()];
    assert_eq!(pop_invalid_groups(&groups, &vec![true, false, false]), vec!["b".to_string(), "c".to_string()]);
    assert!(pop_invalid_groups(&groups, &vec![true, true, true]).is_empty());
}

#[test]
fn profiles_are_listed_once_in_order() {
    let found = vec![Some("work".to_string()), None, Some("home".to_string()), Some("work".to_string())];
    assert_eq!(distinct_profiles(&found), vec!["home".to_string(), "work".to_string()]);
}

#[test]
fn confirmation_answers() {
    assert!(answer_matches("yes", "yes"));
    assert!(answer_matches("y", "yes"));
    assert!(!answer_matches("n", "yes"));
    assert!(!answer_matches("", "yes"));
    assert!(!answer_matches("yes", ""));
    assert!(!answer_matches("ye", "yes"));
    assert!(is_confirmation("  Y\n", "yes"));
    assert!(is_confirmation("YES", "Yes"));
    assert!(!is_confirmation("no", "yes"));
}

#[test]
fn stow_conversion_names() {
    assert_eq!(temp_profile(&None), "incomplete_conversion");
    assert_eq!(temp_profile(&Some("work".to_string())), "work_incomplete_conversion");
    assert_eq!(stow_component("dot-zshrc", true), ".zshrc");
    assert_eq!(stow_component("dot-zshrc", false), "dot-zshrc");
    assert_eq!(stow_component("zshrc", true), "zshrc");
    let t = stow_target(
        &FsPath::parse("/home/u/stow"),
        &FsPath::parse("/home/u/stow/zsh/dot-zshrc"),
        &FsPath::parse("/home/u/.config/dotfiles_tmp/Configs"),
        true,
    );
    assert_eq!(t.display_string(), "/home/u/.config/dotfiles_tmp/Configs/zsh/.zshrc");
    let old = old_dotfiles_path(&FsPath::parse("/home/u/.config/dotfiles"));
    assert_eq!(old.display_string(), "/home/u/.config/dotfiles_old");
}

#[test]
fn confirmation_ignores_unicode_whitespace_around_the_answer() {
    assert!(is_confirmation("\u{3000}yes\u{00A0}\t", "yes"));
    assert!(!is_confirmation("y e s", "yes"));
}
