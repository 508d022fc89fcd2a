//! Dependency resolution and build orchestration for an AUR helper:
//! classifying dependencies, parsing source metadata, building the
//! dependency graph over source bases, and planning installs.

pub mod api;
pub mod aur;
pub mod builder;
pub mod cli;
pub mod config;
pub mod dependency;
pub mod driver;
pub mod gpg;
pub mod graph;
pub mod interactive;
pub mod lock;
pub mod pacman;
pub mod resolver;
pub mod selection;
pub mod srcinfo;
pub mod text;
pub mod upgrade;
