use std::path::Path;
use tuckr::dotfiles::{
    check_invalid_groups, deploy_order, dotfile_contains, get_dotfile_profile_from_path,
    get_group_priority, get_highest_priority_target_idx, get_potential_dotfiles_paths, get_target_basepath,
    group_ends_with_target_name, group_is_valid_target, group_source_path, group_without_target, Context, Dotfile,
    DotfileType, EnvVars, Platform, ReturnCode,
};
use tuckr::path::FsPath;

fn fs(p: &Path) -> FsPath {
    FsPath::parse(p.to_str().unwrap())
}

fn no_env() -> EnvVars {
    EnvVars { pairs: vec![] }
}

fn platform(os: &str, family: &str) -> Platform {
    Platform { os: os.to_string(), family: family.to_string(), wsl: false, custom_targets: vec![] }
}

fn strings(v: &[&str]) -> Vec<String> {
    v.iter().map(|s| s.to_string()).collect()
}

fn home() -> FsPath {
    fs(&dirs::home_dir().unwrap())
}

fn config() -> FsPath {
    fs(&dirs::config_dir().unwrap())
}

fn test_dotfiles_dir() -> FsPath {
    FsPath::parse("/tmp/tuckr-tests/dotfiles")
}

#[test]
fn dotfiles_dotfile_to_target_path() {
    let dotfiles = test_dotfiles_dir();
    let group = fs(&Path::new(&dotfiles.display_string()).join("Configs").join("zsh").join(".zshrc"));
    let expected = fs(&dirs::home_dir().unwrap().join(".zshrc"));
    let target = Dotfile::try_from(group, &dotfiles).unwrap().to_target_path(&dotfiles, &home(), &no_env());
    assert_eq!(target.display_string(), expected.display_string());
}

#[test]
fn dotfiles_dotfile_targets_root() {
    let dotfiles = test_dotfiles_dir();
    let configs = dotfiles.push_part("Configs");

    let root_dotfile = Dotfile::try_from(configs.push_part("Root"), &dotfiles).unwrap();
    assert!(root_dotfile.targets_root(&dotfiles));

    let nonroot_dotfile = Dotfile::try_from(configs.push_part("Zsh"), &dotfiles).unwrap();
    assert!(!nonroot_dotfile.targets_root(&dotfiles));
}

#[test]
fn detect_valid_targets() {
    fn new_group(name: &str) -> Dotfile {
        Dotfile {
            group_name: name.to_string(),
            path: FsPath::parse(""),
            group_path: FsPath::parse(""),
        }
    }

    for (os, family) in [("linux", "unix"), ("windows", "windows"), ("macos", "unix")] {
        let target_tests = [
            (new_group("group_windows"), family == "windows"),
            (new_group("group_linux"), os == "linux"),
            (new_group("group_unix"), family == "unix"),
            (new_group("group_something"), true),
            (new_group("some_random_group"), true),
        ];

        for (dotfile, expected) in target_tests {
            assert_eq!(dotfile.is_valid_target(&platform(os, family)), expected);
        }
    }
}

#[test]
fn get_profile_name_from_dotfile_path() {
    let home_dir = home();
    let config_path = dirs::config_dir().unwrap();
    let config_dir = fs(&config_path);
    let no_profile_dir = fs(&config_path);
    let invalid_dir = fs(&config_path.join("somethingelse_work").join("Configs").join("Vim"));
    let work_profile_dir = fs(&config_path.join("dotfiles_work").join("Configs").join("Vim"));
    let home_profile_dir = fs(&config_path
        .join("dotfiles_my_home")
        .join("Configs")
        .join("Somethign")
        .join("test.cfg"));

    assert_eq!(
        get_dotfile_profile_from_path(&work_profile_dir, &home_dir, &config_dir),
        Some("work".into())
    );
    assert_eq!(
        get_dotfile_profile_from_path(&home_profile_dir, &home_dir, &config_dir),
        Some("my_home".into())
    );
    assert_eq!(get_dotfile_profile_from_path(&no_profile_dir, &home_dir, &config_dir), None,);
    assert_eq!(get_dotfile_profile_from_path(&invalid_dir, &home_dir, &config_dir), None,);
}

#[test]
fn get_dotfiles_path() {
    // /home/$USER/.dotfiles
    let home_dotfiles = fs(&dirs::home_dir().unwrap().join(".dotfiles"));
    // /home/$USER/.config/dotfiles
    let config_dotfiles = fs(&dirs::config_dir().unwrap().join("dotfiles"));

    let candidates = get_potential_dotfiles_paths(&None, &None, &home(), &config());
    for (config_exists, home_exists) in [(true, false), (false, true), (true, true)] {
        let path_found = tuckr::dotfiles::get_dotfiles_path(&None, &candidates, false, config_exists, home_exists).unwrap();
        assert!(path_found.same_as(&home_dotfiles) || path_found.same_as(&config_dotfiles));
    }
}

#[test]
fn utils_dotfile_to_target_path() {
    let config_path = dirs::config_dir().unwrap();
    let dotfiles = fs(&config_path.join("dotfiles"));
    let group = fs(&config_path.join("dotfiles").join("Configs").join("zsh").join(".zshrc"));

    // /home/$USER/.config/dotfiles/Configs/zsh/.zshrc -> /home/$USER/.zshrc
    let target = Dotfile::try_from(group, &dotfiles).unwrap().to_target_path(&dotfiles, &home(), &no_env());
    assert_eq!(target.display_string(), fs(&dirs::home_dir().unwrap().join(".zshrc")).display_string());

    let config_file = fs(&config_path
        .join("dotfiles")
        .join("Configs")
        .join("zsh")
        .join(".config")
        .join("group"));

    // /home/$USER/.config/dotfiles/Configs/zsh/.config/$group -> /home/$USER/.config/$group
    let target = Dotfile::try_from(config_file, &dotfiles).unwrap().to_target_path(&dotfiles, &home(), &no_env());
    assert_eq!(target.display_string(), fs(&config_path.join("group")).display_string());
}

#[test]
fn utils_dotfile_targets_root() {
    let dotfiles = fs(&dirs::config_dir().unwrap().join("dotfiles"));
    let configs = dotfiles.push_part("Configs");

    let root_dotfile = Dotfile::try_from(configs.push_part("Root"), &dotfiles).unwrap();
    assert!(root_dotfile.targets_root(&dotfiles));

    let nonroot_dotfile = Dotfile::try_from(configs.push_part("Zsh"), &dotfiles).unwrap();
    assert!(!nonroot_dotfile.targets_root(&dotfiles));
}

#[test]
fn root_group_deploys_at_filesystem_root() {
    let dotfiles = test_dotfiles_dir();
    let file = FsPath::parse("/tmp/tuckr-tests/dotfiles/Configs/Root/etc/hosts");
    let d = Dotfile::try_from(file, &dotfiles).unwrap();
    assert_eq!(d.group_name, "Root");
    assert_eq!(d.to_target_path(&dotfiles, &home(), &no_env()).display_string(), "/etc/hosts");
}

#[test]
fn group_dir_of_a_dotfile() {
    let dotfiles = test_dotfiles_dir();
    let d = Dotfile::try_from(FsPath::parse("/tmp/tuckr-tests/dotfiles/Hooks/zsh/pre.sh"), &dotfiles).unwrap();
    assert_eq!(d.group_name, "zsh");
    assert_eq!(d.group_path.display_string(), "/tmp/tuckr-tests/dotfiles/Hooks/zsh");
}

#[test]
fn paths_outside_dotfiles_are_refused() {
    let dotfiles = test_dotfiles_dir();
    let err = Dotfile::try_from(FsPath::parse("/tmp/elsewhere/file"), &dotfiles).err().unwrap();
    assert_eq!(err, "path does not belong to dotfiles.");
    let err = Dotfile::try_from(FsPath::parse("/tmp/tuckr-tests/dotfiles/Configs/../x"), &dotfiles).err().unwrap();
    assert_eq!(err, "failed to get group path relative to dotfile dir.");
}

#[test]
fn conditional_groups() {
    assert!(group_ends_with_target_name("zsh_linux"));
    assert!(!group_ends_with_target_name("zsh"));
    assert_eq!(group_without_target("zsh_linux"), "zsh");
    assert_eq!(group_without_target("zsh_unix"), "zsh");
    assert_eq!(group_without_target("zsh"), "zsh");
    assert!(group_is_valid_target("zsh_unix", &platform("macos", "unix")));
    assert!(!group_is_valid_target("zsh_windows", &platform("linux", "unix")));
}

#[test]
fn group_priorities_follow_specificity() {
    assert_eq!(get_group_priority("zsh"), 0);
    assert_eq!(get_group_priority("zsh_unix"), 1);
    assert_eq!(get_group_priority("zsh_linux"), 2);
    assert_eq!(get_highest_priority_target_idx(&strings(&[])), None);
    assert_eq!(get_highest_priority_target_idx(&strings(&["zsh", "zsh_unix", "zsh_linux", "zsh_macos"])), Some(2));
}

#[test]
fn deploy_order_puts_specific_groups_first() {
    let order = deploy_order(strings(&["zsh", "zsh_unix", "vim", "zsh_linux"]));
    assert_eq!(order, strings(&["zsh_linux", "zsh_unix", "zsh", "vim"]));
}

#[test]
fn invalid_groups_are_listed() {
    let groups = strings(&["a", "*", "b", "c"]);
    assert_eq!(check_invalid_groups(&groups, &vec![true, false, false, false]), Some(strings(&["b", "c"])));
    assert_eq!(check_invalid_groups(&groups, &vec![true, false, true, true]), None);
}

#[test]
fn group_source_and_containment() {
    let dotfiles = test_dotfiles_dir();
    let src = group_source_path(&dotfiles, DotfileType::Secrets, "ssh");
    assert_eq!(src.display_string(), "/tmp/tuckr-tests/dotfiles/Secrets/ssh");
    let exists = |p: &FsPath| p.display_string() == "/tmp/tuckr-tests/dotfiles/Configs/zsh";
    assert!(dotfile_contains(&Ok(dotfiles.duplicate()), DotfileType::Configs, "zsh", &exists));
    assert!(!dotfile_contains(&Ok(dotfiles.duplicate()), DotfileType::Hooks, "zsh", &exists));
    assert!(!dotfile_contains(&Err("no dotfiles".to_string()), DotfileType::Configs, "zsh", &exists));
}

#[test]
fn missing_dotfiles_directory_is_reported() {
    let candidates = get_potential_dotfiles_paths(&Some("work".to_string()), &None, &home(), &config());
    let err = tuckr::dotfiles::get_dotfiles_path(&Some("work".to_string()), &candidates, false, false, false).err().unwrap();
    assert!(err.contains("Couldn't find dotfiles directory."));
    assert!(err.contains("tuckr -p work init"));
    assert!(err.contains("dotfiles_work"));
}

#[test]
fn target_basepath_is_relative_to_home() {
    let home_dir = FsPath::parse("/home/u");
    let rel = get_target_basepath(&FsPath::parse("/home/u/.config/nvim"), &home_dir).unwrap();
    assert_eq!(rel.display_string(), ".config/nvim");
    assert!(get_target_basepath(&FsPath::parse("/etc/hosts"), &home_dir).is_none());
}

#[test]
fn custom_targets_are_merged_sorted_and_deduplicated() {
    let mut ctx = Context::default();
    assert_eq!(ctx.custom_targets, strings(&["custom", "laptop"]));
    ctx.add_custom_targets("desktop,laptop,arm");
    assert_eq!(ctx.custom_targets, strings(&["arm", "custom", "desktop", "laptop"]));
    assert!(!ctx.dry_run);
    assert!(ctx.profile.is_none());
}

#[test]
fn return_codes() {
    assert_eq!(ReturnCode::CouldntFindDotfiles.code(), 2);
    assert_eq!(ReturnCode::NoSetupFolder.code(), 3);
    assert_eq!(ReturnCode::NoSuchFileOrDir.code(), 4);
    assert_eq!(ReturnCode::EncryptionFailed.code(), 5);
    assert_eq!(ReturnCode::DecryptionFailed.code(), 6);
    assert_eq!(ReturnCode::EncryptedReadFailed.code(), 7);
}

#[test]
fn dotfile_iter_walks_a_group() {
    let dotfiles = test_dotfiles_dir();
    let group = Dotfile::try_from(FsPath::parse("/tmp/tuckr-tests/dotfiles/Configs/nvim"), &dotfiles).unwrap();
    let entries = vec![
        FsPath::parse("/tmp/tuckr-tests/dotfiles/Configs/nvim/init.lua"),
        FsPath::parse("/tmp/tuckr-tests/dotfiles/Configs/nvim/.directory"),
    ];
    let mut it = group.try_iter(&dotfiles, true, entries).unwrap();
    // `.directory` is a file that KDE creates on its own
    let first = it.next("linux", "unix").unwrap();
    assert_eq!(first.path.display_string(), "/tmp/tuckr-tests/dotfiles/Configs/nvim/init.lua");
    assert_eq!(first.group_name, "nvim");
    assert!(it.next("linux", "unix").is_none());

    let err = group.try_iter(&dotfiles, false, vec![]).err().unwrap();
    assert_eq!(err, "/tmp/tuckr-tests/dotfiles/Configs/nvim is not a directory");
}

#[test]
fn profile_is_recovered_from_the_home_directory_too() {
    let home_dir = FsPath::parse("/home/u");
    let config_dir = FsPath::parse("/home/u/.config");
    let in_home = FsPath::parse("/home/u/.dotfiles_work/Configs/zsh");
    assert_eq!(get_dotfile_profile_from_path(&in_home, &home_dir, &config_dir), Some("work".into()));
    let plain_home = FsPath::parse("/home/u/.dotfiles/Configs/zsh");
    assert_eq!(get_dotfile_profile_from_path(&plain_home, &home_dir, &config_dir), None);
    let unhidden_in_home = FsPath::parse("/home/u/dotfiles_work/Configs/zsh");
    assert_eq!(get_dotfile_profile_from_path(&unhidden_in_home, &home_dir, &config_dir), None);
}

#[test]
fn tuckr_home_overrides_the_lookup() {
    let tuckr_home = Some(FsPath::parse("/srv/user"));
    let candidates = get_potential_dotfiles_paths(&None, &tuckr_home, &home(), &config());
    let found = tuckr::dotfiles::get_dotfiles_path(&None, &candidates, true, true, true).unwrap();
    assert_eq!(found.display_string(), "/srv/user/dotfiles");
    let missing = tuckr::dotfiles::get_dotfiles_path(&None, &candidates, false, true, true).err().unwrap();
    assert!(missing.contains("/srv/user/dotfiles"));
    let work = get_potential_dotfiles_paths(&Some("work".to_string()), &tuckr_home, &home(), &config());
    let found = tuckr::dotfiles::get_dotfiles_path(&Some("work".to_string()), &work, true, false, false).unwrap();
    assert_eq!(found.display_string(), "/srv/user/dotfiles_work");
}

#[test]
fn root_and_environment_components_redirect_the_target() {
    let dotfiles = FsPath::parse("/d/dotfiles");
    let crontab = Dotfile::try_from(FsPath::parse("/d/dotfiles/Configs/crontab/^etc/crontab"), &dotfiles).unwrap();
    assert_eq!(crontab.to_target_path(&dotfiles, &home(), &no_env()).display_string(), "/etc/crontab");
    let env = EnvVars { pairs: vec![("PROGRAM_PATH".to_string(), "/home/user/Documents".to_string())] };
    let program = Dotfile::try_from(FsPath::parse("/d/dotfiles/Configs/program/%PROGRAM_PATH/config.txt"), &dotfiles).unwrap();
    assert_eq!(program.to_target_path(&dotfiles, &home(), &env).display_string(), "/home/user/Documents/config.txt");
    // the last redirect decides
    let nested = Dotfile::try_from(FsPath::parse("/d/dotfiles/Configs/xorg/^etc/%PROGRAM_PATH/some_file"), &dotfiles).unwrap();
    assert_eq!(nested.to_target_path(&dotfiles, &home(), &env).display_string(), "/home/user/Documents/some_file");
    let reversed = Dotfile::try_from(FsPath::parse("/d/dotfiles/Configs/xorg/%PROGRAM_PATH/^etc/some_file"), &dotfiles).unwrap();
    assert_eq!(reversed.to_target_path(&dotfiles, &home(), &env).display_string(), "/etc/some_file");
    // a variable that is not set redirects nothing
    let unset = Dotfile::try_from(FsPath::parse("/d/dotfiles/Configs/program/%UNSET_VAR/config.txt"), &dotfiles).unwrap();
    let expected = format!("{}/%UNSET_VAR/config.txt", home().display_string());
    assert_eq!(unset.to_target_path(&dotfiles, &home(), &env).display_string(), expected);
}

#[test]
fn wsl_groups_are_used_only_on_wsl() {
    let linux = platform("linux", "unix");
    let wsl = Platform { wsl: true, ..platform("linux", "unix") };
    assert!(group_ends_with_target_name("config_wsl"));
    assert_eq!(group_without_target("config_wsl"), "config");
    assert!(!group_is_valid_target("config_wsl", &linux));
    assert!(group_is_valid_target("config_wsl", &wsl));
    assert!(group_is_valid_target("config_linux", &wsl));
    assert!(group_is_valid_target("config", &wsl));
}

#[test]
fn custom_targets_are_used_only_when_selected() {
    let plain = platform("linux", "unix");
    let pi = Platform { custom_targets: strings(&["raspberrypi", "desktop"]), ..platform("linux", "unix") };
    assert!(group_ends_with_target_name("group_#raspberrypi"));
    assert_eq!(group_without_target("group_#raspberrypi"), "group");
    assert!(!group_is_valid_target("group_#raspberrypi", &plain));
    assert!(group_is_valid_target("group_#raspberrypi", &pi));
    assert!(!group_is_valid_target("group_#laptop", &pi));
}

#[test]
fn priorities_put_custom_targets_then_wsl_first() {
    assert_eq!(get_group_priority("group_#desktop"), 4);
    assert_eq!(get_group_priority("group_wsl"), 3);
    assert_eq!(get_group_priority("group_linux"), 2);
    assert_eq!(get_group_priority("group_unix"), 1);
    assert_eq!(get_group_priority("group"), 0);
    let groups = strings(&["group", "group_linux", "group_#desktop", "group_wsl"]);
    assert_eq!(get_highest_priority_target_idx(&groups), Some(2));
}

#[test]
fn profile_is_recovered_when_the_config_directory_is_the_home_directory() {
    let home_dir = FsPath::parse("/home/u");
    let in_home = FsPath::parse("/home/u/.dotfiles_work/Configs/zsh");
    assert_eq!(get_dotfile_profile_from_path(&in_home, &home_dir, &home_dir), Some("work".into()));
    let in_config = FsPath::parse("/home/u/dotfiles_work/Configs/zsh");
    assert_eq!(get_dotfile_profile_from_path(&in_config, &home_dir, &home_dir), Some("work".into()));
}
