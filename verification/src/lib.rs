//! Dotfile management: groups of configuration files kept under a
//! `dotfiles` directory and deployed as symlinks into the user's home.

pub mod cache;
pub mod dotfiles;
pub mod fileops;
pub mod order;
pub mod filetree;
pub mod hooks;
pub mod path;
pub mod secrets;
pub mod text;
pub mod symlinks;
