use tuckr::dotfiles::Platform;
use tuckr::hooks::{
    all_hooks_are_nonexistent, deploy_skipped, hook_groups_to_run, hook_kinds, hook_runs_for_step, is_cleanup_hook,
    DeployStages, DeployStep,
};

fn platform(os: &str, family: &str) -> Platform {
    Platform { os: os.to_string(), family: family.to_string(), wsl: false, custom_targets: vec![] }
}

fn strings(v: &[&str]) -> Vec<String> {
    v.iter().map(|s| s.to_string()).collect()
}

#[test]
fn run_deploy_steps() {
    let mut steps = DeployStages::new();
    assert!(steps.0 == DeployStep::Initialize);
    steps.next_step();
    assert!(steps.0 == DeployStep::PreHook);
    steps.next_step();
    assert!(steps.0 == DeployStep::Symlink);
    steps.next_step();
    assert!(steps.0 == DeployStep::PostHook);
}

#[test]
fn deploy_stages_end_after_post_hooks() {
    let mut steps = DeployStages::new();
    assert_eq!(steps.next_step(), Some(DeployStep::PreHook));
    assert_eq!(steps.next_step(), Some(DeployStep::Symlink));
    assert_eq!(steps.next_step(), Some(DeployStep::PostHook));
    assert_eq!(steps.next_step(), None);
    assert!(steps.0 == DeployStep::PostHook);
    assert_eq!(steps.next_step(), None);
}

#[test]
fn hooks_run_by_their_prefix() {
    assert!(hook_runs_for_step(DeployStep::PreHook, "pre_install.sh"));
    assert!(!hook_runs_for_step(DeployStep::PreHook, "post_install.sh"));
    assert!(hook_runs_for_step(DeployStep::PostHook, "post_install.sh"));
    assert!(!hook_runs_for_step(DeployStep::PostHook, "pre_install.sh"));
    assert!(hook_runs_for_step(DeployStep::Symlink, "anything"));
    assert!(is_cleanup_hook("rm_stuff.sh"));
    assert!(!is_cleanup_hook("pre_rm.sh"));
}

#[test]
fn hook_kinds_of_a_group() {
    assert_eq!(hook_kinds(&strings(&["pre.sh", "rm.sh"])), (true, false, true));
    assert_eq!(hook_kinds(&strings(&["post.sh"])), (false, true, false));
    assert_eq!(hook_kinds(&strings(&["readme"])), (false, false, false));
}

#[test]
fn all_hooks_nonexistent_only_when_none_exist() {
    let groups = strings(&["a", "b"]);
    assert!(all_hooks_are_nonexistent(&groups, &vec![false, false]));
    assert!(!all_hooks_are_nonexistent(&groups, &vec![true, false]));
    // `*` is never a missing group
    assert!(!all_hooks_are_nonexistent(&strings(&["*"]), &vec![false]));
    assert!(!all_hooks_are_nonexistent(&strings(&[]), &vec![]));
}

#[test]
fn deployment_skips_excluded_and_foreign_groups() {
    let exclude = strings(&["vim"]);
    assert!(deploy_skipped("vim", &exclude, &platform("linux", "unix")));
    assert!(deploy_skipped("zsh_windows", &exclude, &platform("linux", "unix")));
    assert!(!deploy_skipped("zsh_linux", &exclude, &platform("linux", "unix")));
    assert!(!deploy_skipped("zsh", &exclude, &platform("linux", "unix")));
}

#[test]
fn hook_groups_include_conditional_variants_in_order() {
    let groups = strings(&["zsh"]);
    let hooks = strings(&["zsh_linux", "vim", "zsh"]);
    let res = hook_groups_to_run(&groups, &hooks, &strings(&[]));
    assert_eq!(res, strings(&["zsh", "zsh_linux"]));
}

#[test]
fn hook_groups_with_wildcard_take_every_directory() {
    let groups = strings(&["*"]);
    let hooks = strings(&["zsh", "vim"]);
    let configs = strings(&["vim", "git"]);
    let res = hook_groups_to_run(&groups, &hooks, &configs);
    assert_eq!(res, strings(&["git", "vim", "zsh"]));
}

#[test]
fn hook_groups_grow_with_the_variants_found() {
    let groups = strings(&["zsh"]);
    let res = hook_groups_to_run(&groups, &strings(&["zsh_linux", "zsh_linux_unix"]), &strings(&[]));
    assert_eq!(res, strings(&["zsh", "zsh_linux", "zsh_linux_unix"]));
    // a variant of a variant counts only once that variant was found
    let res = hook_groups_to_run(&groups, &strings(&["zsh_linux_unix", "zsh_linux"]), &strings(&[]));
    assert_eq!(res, strings(&["zsh", "zsh_linux"]));
}
