//! Verified core logic of an AUR helper: strict typo correction of
//! repository targets, the number-menu selection language, Arch Linux
//! Archive date and file-name handling, and PKGBUILD scan decisions.

pub mod text;
pub mod typo;
pub mod menu;
pub mod ala;
pub mod targets;
pub mod scan;
pub mod downgrade;
pub mod prompt;
pub mod deps;

pub use crate::menu::NumberMenu;
pub use crate::scan::Tier;
pub use crate::targets::{is_arch_repo, split_repo_aur_pkgs, Subcommand};
