//! The components a screen is composed of: what each of them shows, as styled
//! lines, and how each of them answers keys.

pub mod layout;
pub mod sessions;
pub mod skill_menu;
pub mod status;
pub mod team;
pub mod themes;
pub mod usage;
