use tuckr::filetree::FileTree;
use tuckr::path::FsPath;

fn get_dotfiles_configs() -> FsPath {
    FsPath::parse("/tmp/tuckr-tests/dotfiles/Configs")
}

#[test]
fn ftree_initialized_with_root_at_idx_0() {
    let dotfiles_root = get_dotfiles_configs();
    let ft = FileTree::new(&dotfiles_root);
    assert_eq!(ft.dotfile_count(), 1);
    assert_eq!(ft.node_count(), 1);
    assert_eq!(ft.get_groups().len(), 0);

    let root_idx = ft.node_dotfile_idx(0).unwrap();
    assert_eq!(root_idx, 0);

    let root_path = ft.dotfile_at(root_idx).unwrap();
    assert!(root_path.same_as(&dotfiles_root));
}

#[test]
fn inserting_items() {
    let root = get_dotfiles_configs();
    let nvim = root.join_str("nvim");
    let nvim_config = nvim.join_str(".config");
    let nvim_config_nvim = nvim_config.join_str("neovim");

    let mut ft = FileTree::new(&root);

    ft.insert(Some("test".into()), &nvim);
    ft.insert(Some("test".into()), &nvim_config);

    assert!(ft.contains_group("test"));
    assert!(ft.dotfile_count() == 3 && ft.node_count() == 3);

    assert!(!ft.insert(Some("test".into()), &nvim));
    assert!(ft.insert(Some("test".into()), &nvim_config_nvim));
}

#[test]
fn removing_items() {
    let root = get_dotfiles_configs();
    let mut ft = FileTree::new(&root);

    let test = root.join_str("usr");
    let test_child = test.join_str("bin").join_str("ls");

    ft.insert(Some("test".into()), &test);
    ft.insert(Some("test2".into()), &test_child);

    ft.remove_path(&test_child);

    assert!(!ft.contains_group("test2"));
    assert!(ft.has_empty_slot());
}

#[test]
fn insert_rejects_paths_outside_of_root() {
    let root = get_dotfiles_configs().join_str("nvim");
    let in_root = root.join_str("test");
    let out_of_root = get_dotfiles_configs().join_str("something");
    let nonexistent = get_dotfiles_configs().join_str("nonexistent");

    let mut ft = FileTree::new(&root);
    assert_eq!(ft.insert(Some("test".into()), &in_root), true);

    assert_eq!(ft.insert(Some("test".into()), &out_of_root), false);
    assert!(ft.remove_path(&nonexistent).is_none());
}

#[test]
fn inserted_paths_are_found_and_grouped() {
    let root = get_dotfiles_configs();
    let mut ft = FileTree::new(&root);
    let a = root.join_str("zsh/.zshrc");
    let b = root.join_str("vim/.vimrc");
    assert!(ft.insert(Some("zsh".into()), &a));
    assert!(ft.insert(Some("vim".into()), &b));
    assert!(ft.contains_path(&a));
    assert!(ft.path_is_in_root(&b));
    assert!(!ft.path_is_in_root(&FsPath::parse("/etc")));
    let zsh = ft.get("zsh").unwrap();
    assert_eq!(zsh.len(), 1);
    assert!(zsh[0].same_as(&a));
    let mut groups = ft.get_groups();
    groups.sort();
    assert_eq!(groups, vec!["vim".to_string(), "zsh".to_string()]);
    assert!(!ft.is_empty());
}

#[test]
fn iteration_visits_every_file_below_the_root() {
    let root = get_dotfiles_configs();
    let mut ft = FileTree::new(&root);
    let a = root.join_str("zsh/.zshrc");
    ft.insert(Some("zsh".into()), &a);
    let mut it = ft.iter();
    let mut seen = Vec::new();
    while let Some(f) = it.next() {
        seen.push((f.group.clone(), f.path.display_string()));
    }
    // the intermediate directory `zsh` belongs to no group
    assert_eq!(
        seen,
        vec![
            (None, "/tmp/tuckr-tests/dotfiles/Configs/zsh".to_string()),
            (Some("zsh".to_string()), "/tmp/tuckr-tests/dotfiles/Configs/zsh/.zshrc".to_string()),
        ]
    );
    assert!(it.next().is_none());
}

#[test]
fn removing_a_directory_removes_what_is_below() {
    let root = get_dotfiles_configs();
    let mut ft = FileTree::new(&root);
    let dir = root.join_str("usr");
    let child = dir.join_str("bin");
    ft.insert(Some("g".into()), &dir);
    ft.insert(Some("g".into()), &child);
    let removed = ft.remove_path(&dir).unwrap();
    assert!(removed.same_as(&dir));
    assert!(!ft.contains_path(&dir));
    assert!(!ft.contains_path(&child));
}

#[test]
fn default_tree_is_empty_and_a_new_one_is_not() {
    assert!(FileTree::default().is_empty());
    assert!(!FileTree::new(&get_dotfiles_configs()).is_empty());
}

#[test]
fn intermediate_paths_get_no_group() {
    let root = FsPath::parse("/r");
    let mut ft = FileTree::new(&root);
    let value = root.join_str("x/x");
    assert!(ft.insert(Some("g".into()), &value));
    let in_g = ft.get("g").unwrap();
    assert_eq!(in_g.len(), 1);
    assert!(in_g[0].same_as(&value));
    let mut it = ft.iter();
    let mut seen = Vec::new();
    while let Some(f) = it.next() {
        seen.push((f.group.clone(), f.path.display_string()));
    }
    assert_eq!(
        seen,
        vec![(None, "/r/x".to_string()), (Some("g".to_string()), "/r/x/x".to_string())]
    );
}

#[test]
fn groups_agree_with_get_and_iteration() {
    let root = FsPath::parse("/r");
    let mut ft = FileTree::new(&root);
    assert!(ft.insert(Some("zsh".into()), &root.join_str("zsh/.zshrc")));
    assert!(ft.insert(Some("vim".into()), &root.join_str("vim/.vimrc")));
    assert!(!ft.insert(Some("vim".into()), &root.join_str("vim/.vimrc")));
    for g in ["zsh", "vim", "git"] {
        let in_tree = ft.contains_group(g);
        let found = !ft.get(g).unwrap().is_empty();
        let mut it = ft.iter();
        let mut iterated = false;
        while let Some(f) = it.next() {
            if f.group.as_deref() == Some(g) {
                iterated = true;
            }
        }
        assert_eq!(in_tree, found);
        assert_eq!(in_tree, iterated);
    }
    let mut it = ft.iter();
    let mut paths = Vec::new();
    while let Some(f) = it.next() {
        paths.push(f.path.display_string());
    }
    paths.sort();
    assert_eq!(paths, vec!["/r/vim", "/r/vim/.vimrc", "/r/zsh", "/r/zsh/.zshrc"]);
}

#[test]
fn groups_stay_consistent_after_removing_a_file() {
    let root = FsPath::parse("/r");
    let mut ft = FileTree::new(&root);
    assert!(ft.insert(Some("zsh".into()), &root.join_str("zsh/.zshrc")));
    assert!(ft.insert(Some("vim".into()), &root.join_str("vim/.vimrc")));
    let removed = ft.remove_path(&root.join_str("zsh/.zshrc")).unwrap();
    assert!(removed.same_as(&root.join_str("zsh/.zshrc")));
    assert!(!ft.contains_path(&root.join_str("zsh")));
    for g in ["zsh", "vim"] {
        let in_tree = ft.contains_group(g);
        let found = !ft.get(g).unwrap().is_empty();
        assert_eq!(in_tree, found);
    }
    assert!(!ft.contains_group("zsh"));
    assert!(ft.contains_group("vim"));
}
