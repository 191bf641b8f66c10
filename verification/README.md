# tuckr

A dotfile manager in the style of GNU Stow: dotfiles live in
`dotfiles/Configs/<group>` and are deployed as symlinks into the home
directory; hooks in `dotfiles/Hooks/<group>` run around deployment, and
secrets in `dotfiles/Secrets/<group>` are kept encrypted.

The decisions of the program are a library verified with Verus; the command
line program around it reads and changes the file system.

## Layout

- `src/` — the verified library
  - `path.rs`: paths as components, with `starts_with`, `strip_prefix`, `join`
  - `text.rs`, `order.rs`: text operations, the order of texts, sorting
  - `dotfiles.rs`: dotfiles and their groups, conditional groups (by
    operating system, family, Windows Subsystem for Linux or custom target)
    and their priorities, where a dotfile is deployed (with `^` and `%VAR`
    redirects), where the dotfiles directory is (`TUCKR_HOME`) and its profile
  - `cache.rs`: dotfiles sorted by group, and keeping only the topmost ones
  - `symlinks.rs`: the symlink status of every dotfile, conflicts, and the
    decisions of the `add`, `rm` and `status` commands
  - `hooks.rs`: the stages of deploying a group and which hooks run
  - `fileops.rs`: ignored files, directory walks, pushing, popping, and
    converting from Stow
  - `filetree.rs`: a tree of paths with groups
  - `secrets.rs`: encrypting with `age` and where secrets go
- `tests/` — tests of the library
- `app/` — the command line program
