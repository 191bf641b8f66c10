use tuckr::dotfiles::{Dotfile, EnvVars, Platform, ReturnCode};
use tuckr::path::FsPath;
use tuckr::symlinks::{
    confirmation_prompt, conflict_plan, conflict_reason, conflicts_after_add, link_action, skips_entry, status_rows,
    unlink_action, ConflictReason, LinkAction, LinkObservation, Observation, SymlinkHandler, SymlinkTypes,
    TargetStatus, UnlinkAction,
};

fn p(s: &str) -> FsPath {
    FsPath::parse(s)
}

fn platform(os: &str, family: &str) -> Platform {
    Platform { os: os.to_string(), family: family.to_string(), wsl: false, custom_targets: vec![] }
}

fn strings(v: &[&str]) -> Vec<String> {
    v.iter().map(|s| s.to_string()).collect()
}

fn obs(file: &str, target: TargetStatus) -> Observation {
    Observation { file: p(file), target }
}

fn sample_observations() -> Vec<Observation> {
    vec![
        obs("/d/Configs/vim", TargetStatus::NotLinked),
        obs("/d/Configs/zsh/.zshrc", TargetStatus::Link(p("/d/Configs/zsh/.zshrc"))),
        obs("/d/Configs/zsh/.config", TargetStatus::NotLinked),
        obs("/d/Configs/zsh/.config/zsh/aliases", TargetStatus::NotLinked),
        obs("/d/Configs/vim/.vimrc", TargetStatus::Link(p("/elsewhere/.vimrc"))),
        obs("/d/Configs/git/.gitconfig", TargetStatus::UnreadableLink),
        obs("/d/Configs/git/.config", TargetStatus::Directory),
        obs("/d/Configs/nvim/.config/nvim", TargetStatus::Link(p("/d/Configs/nvim/.config/nvim"))),
        obs("/d/Configs/nvim/.config/nvim/init.lua", TargetStatus::NotLinked),
    ]
}

fn sample() -> SymlinkHandler {
    SymlinkHandler::try_new(p("/d"), true, &sample_observations()).ok().unwrap()
}

fn paths(v: &Vec<Dotfile>) -> Vec<String> {
    let mut out: Vec<String> = v.iter().map(|d| d.path.display_string()).collect();
    out.sort();
    out
}

#[test]
fn missing_configs_directory_fails() {
    let res = SymlinkHandler::try_new(p("/d"), false, &vec![]);
    assert!(matches!(res, Err(ReturnCode::CouldntFindDotfiles)));
}

#[test]
fn dotfiles_are_sorted_by_status() {
    let sym = sample();
    assert!(!sym.is_empty());
    assert!(sym.symlinked.contains_key("zsh"));
    assert!(sym.symlinked.contains_key("nvim"));
    assert!(!sym.symlinked.contains_key("vim"));
    assert_eq!(paths(sym.symlinked.get("zsh").unwrap()), strings(&["/d/Configs/zsh/.zshrc"]));
    // only the topmost not symlinked entry is kept
    assert_eq!(paths(sym.not_symlinked.get("zsh").unwrap()), strings(&["/d/Configs/zsh/.config"]));
    // a file inside a symlinked directory is not "not symlinked"
    assert!(!sym.not_symlinked.contains_key("nvim"));
    assert_eq!(paths(sym.not_owned.get("vim").unwrap()), strings(&["/d/Configs/vim/.vimrc"]));
    // unreadable links and directories are left out
    assert!(!sym.symlinked.contains_key("git"));
    assert!(!sym.not_symlinked.contains_key("git"));
    assert!(!sym.not_owned.contains_key("git"));
}

#[test]
fn empty_dotfiles_give_an_empty_status() {
    let sym = SymlinkHandler::try_new(p("/d"), true, &vec![obs("/d/Configs/vim", TargetStatus::NotLinked)]).ok().unwrap();
    assert!(sym.is_empty());
}

#[test]
fn related_groups_follow_the_platform() {
    let observations = vec![
        obs("/d/Configs/zsh/.zshrc", TargetStatus::NotLinked),
        obs("/d/Configs/zsh_linux/.zprofile", TargetStatus::NotLinked),
        obs("/d/Configs/zsh_windows/.zprofile", TargetStatus::NotLinked),
    ];
    let sym = SymlinkHandler::try_new(p("/d"), true, &observations).ok().unwrap();
    let mut rel = sym.get_related_cond_groups("zsh", &sym.not_symlinked, &platform("linux", "unix")).unwrap();
    rel.sort();
    assert_eq!(rel, strings(&["zsh", "zsh_linux"]));
    assert_eq!(
        sym.get_related_cond_groups("zsh_windows", &sym.not_symlinked, &platform("linux", "unix")),
        Some(strings(&["zsh_windows"]))
    );
    assert_eq!(sym.get_related_cond_groups("vim", &sym.not_symlinked, &platform("linux", "unix")), None);
    let types = SymlinkTypes { symlinked: true, not_symlinked: false, not_owned: false };
    assert_eq!(sym.get_related_conditional_groups("zsh", types, &platform("linux", "unix")), None);
    // the most specific group is symlinked first
    assert_eq!(sym.add_order("zsh", &platform("linux", "unix")), strings(&["zsh_linux", "zsh"]));
}

#[test]
fn conflicts_are_found() {
    let sym = sample();
    let existing = vec![p("/h/.config")];
    let links = vec![LinkObservation { target: p("/h/.vimrc"), source: p("/elsewhere/.vimrc"), source_dotfiles_dir: None }];
    let conflicts = sym.get_conflicts_in_cache(&p("/h"), &EnvVars { pairs: vec![] }, &existing, &links, &platform("linux", "unix"));
    assert_eq!(paths(conflicts.get("zsh").unwrap()), strings(&["/d/Configs/zsh/.config"]));
    assert_eq!(paths(conflicts.get("vim").unwrap()), strings(&["/d/Configs/vim/.vimrc"]));
    assert!(!conflicts.contains_key("nvim"));

    let none_existing = sym.get_conflicts_in_cache(&p("/h"), &EnvVars { pairs: vec![] }, &vec![], &links, &platform("linux", "unix"));
    assert!(!none_existing.contains_key("zsh"));
}

#[test]
fn fallback_links_are_no_conflict() {
    // `zsh/.zshrc` is not owned: its place links to the more specific `zsh_linux/.zshrc`
    let observations = vec![
        obs("/d/Configs/zsh/.zshrc", TargetStatus::Link(p("/d/Configs/zsh_linux/.zshrc"))),
        obs("/d/Configs/zsh_linux/.zshrc", TargetStatus::Link(p("/d/Configs/zsh_linux/.zshrc"))),
    ];
    let sym = SymlinkHandler::try_new(p("/d"), true, &observations).ok().unwrap();
    let links = vec![LinkObservation {
        target: p("/h/.zshrc"),
        source: p("/d/Configs/zsh_linux/.zshrc"),
        source_dotfiles_dir: Some(p("/d")),
    }];
    let conflicts = sym.get_conflicts_in_cache(&p("/h"), &EnvVars { pairs: vec![] }, &vec![], &links, &platform("linux", "unix"));
    assert!(conflicts.is_empty());

    // a link into a higher priority group with another base group is a conflict
    let observations = vec![obs("/d/Configs/zsh/.zshrc", TargetStatus::Link(p("/d/Configs/bash_linux/.zshrc")))];
    let sym = SymlinkHandler::try_new(p("/d"), true, &observations).ok().unwrap();
    let links = vec![LinkObservation {
        target: p("/h/.zshrc"),
        source: p("/d/Configs/bash_linux/.zshrc"),
        source_dotfiles_dir: Some(p("/d")),
    }];
    let conflicts = sym.get_conflicts_in_cache(&p("/h"), &EnvVars { pairs: vec![] }, &vec![], &links, &platform("linux", "unix"));
    assert!(conflicts.contains_key("zsh"));
}

#[test]
fn groups_to_add_and_remove() {
    let sym = sample();
    assert_eq!(sym.groups_to_add(&strings(&["zsh"]), &strings(&[]), &platform("linux", "unix")), strings(&["zsh"]));
    assert_eq!(sym.groups_to_add(&strings(&["vim"]), &strings(&[]), &platform("linux", "unix")), strings(&["vim"]));
    assert_eq!(sym.groups_to_add(&strings(&["vim"]), &strings(&["vim"]), &platform("linux", "unix")), strings(&[]));
    assert_eq!(sym.groups_to_add(&strings(&["*"]), &strings(&[]), &platform("linux", "unix")), strings(&["zsh"]));
    assert_eq!(sym.groups_to_remove(&strings(&["zsh"]), &strings(&[])), strings(&["zsh"]));
    let mut all = sym.groups_to_remove(&strings(&["*"]), &strings(&[]));
    all.sort();
    assert_eq!(all, strings(&["nvim", "zsh"]));
    assert_eq!(sym.groups_to_remove(&strings(&["*"]), &strings(&["nvim"])), strings(&["zsh"]));
}

#[test]
fn global_status_of_the_sample() {
    let sym = sample();
    let conflicts = sym.get_conflicts_in_cache(&p("/h"), &EnvVars { pairs: vec![] }, &vec![], &vec![
        LinkObservation { target: p("/h/.vimrc"), source: p("/elsewhere/.vimrc"), source_dotfiles_dir: None },
    ], &platform("linux", "unix"));
    let status = sym.global_status(&conflicts, &platform("linux", "unix"));
    assert_eq!(status.symlinked, strings(&["nvim"]));
    assert_eq!(status.not_symlinked, strings(&["zsh"]));
    assert_eq!(status.conflicts, strings(&["vim"]));
    assert!(!status.ok);
    let rows = status_rows(&status.symlinked, &strings(&["a", "b"]));
    assert_eq!(rows, vec![("nvim".to_string(), "a".to_string()), ("".to_string(), "b".to_string())]);
}

#[test]
fn groups_status_of_the_sample() {
    let sym = sample();
    let conflicts = sym.get_conflicts_in_cache(&p("/h"), &EnvVars { pairs: vec![] }, &vec![p("/h/.config")], &vec![
        LinkObservation { target: p("/h/.vimrc"), source: p("/elsewhere/.vimrc"), source_dotfiles_dir: None },
    ], &platform("linux", "unix"));
    let groups = strings(&["zsh", "tmux_windows"]);
    let status = sym.groups_status(&groups, &conflicts, &vec![true, false], &platform("linux", "unix"));
    assert_eq!(status.not_symlinked, strings(&["zsh"]));
    assert_eq!(status.symlinked, strings(&["zsh"]));
    assert_eq!(status.unsupported, strings(&["tmux_windows"]));
    assert!(status.conflicts.contains_key("zsh"));
    assert!(!status.conflicts.contains_key("vim"));
    assert_eq!(status.invalid, Some(strings(&["tmux_windows"])));
    assert!(matches!(status.outcome, Err(ReturnCode::NoSetupFolder)));

    let status = sym.groups_status(&strings(&["zsh"]), &conflicts, &vec![true], &platform("linux", "unix"));
    assert!(status.outcome.is_ok());
}

#[test]
fn symlink_decisions() {
    assert_eq!(link_action(true, false), LinkAction::Skip);
    assert_eq!(link_action(true, true), LinkAction::ReportExisting);
    assert_eq!(link_action(false, true), LinkAction::ReportPlanned);
    assert_eq!(link_action(false, false), LinkAction::Create);
    assert!(skips_entry(true, true));
    assert!(!skips_entry(false, true));

    let dotfiles = p("/d");
    let d = Dotfile::try_from(p("/d/Configs/zsh/.zshrc"), &dotfiles).unwrap();
    assert_eq!(unlink_action(&d, &None, false), UnlinkAction::Keep);
    assert_eq!(unlink_action(&d, &Some(p("/other")), false), UnlinkAction::Keep);
    assert_eq!(unlink_action(&d, &Some(p("/d/Configs/zsh/.zshrc")), true), UnlinkAction::ReportPlanned);
    assert_eq!(unlink_action(&d, &Some(p("/d/Configs/zsh/.zshrc")), false), UnlinkAction::Remove);

    let force = conflict_plan(&d, &dotfiles, &p("/h"), &EnvVars { pairs: vec![] }, false);
    assert_eq!(force.target.display_string(), "/h/.zshrc");
    assert_eq!(force.deleted.display_string(), "/h/.zshrc");
    let adopt = conflict_plan(&d, &dotfiles, &p("/h"), &EnvVars { pairs: vec![] }, true);
    assert_eq!(adopt.deleted.display_string(), "/d/Configs/zsh/.zshrc");
    assert!(adopt.adopt);

    assert_eq!(conflict_reason(&d, &None), ConflictReason::AlreadyExists);
    let elsewhere = LinkObservation { target: p("/h/.zshrc"), source: p("/x"), source_dotfiles_dir: None };
    assert_eq!(conflict_reason(&d, &Some(elsewhere)), ConflictReason::SymlinksElsewhere);
}

#[test]
fn add_prompts_and_reports() {
    assert_eq!(confirmation_prompt(true, false, false), Some("Are you sure you want to override conflicts?".to_string()));
    assert_eq!(confirmation_prompt(false, true, false), Some("Are you sure you want to adopt conflicts?".to_string()));
    assert_eq!(confirmation_prompt(true, true, true), None);
    assert_eq!(confirmation_prompt(false, false, false), None);

    let sym = sample();
    let conflicts = sym.get_conflicts_in_cache(&p("/h"), &EnvVars { pairs: vec![] }, &vec![p("/h/.config")], &vec![
        LinkObservation { target: p("/h/.vimrc"), source: p("/elsewhere/.vimrc"), source_dotfiles_dir: None },
    ], &platform("linux", "unix"));
    assert_eq!(conflicts_after_add(&strings(&["zsh"]), &conflicts), (false, true));
    assert_eq!(conflicts_after_add(&strings(&["*"]), &conflicts), (true, false));
    assert_eq!(conflicts_after_add(&strings(&["git"]), &conflicts), (false, false));
}
