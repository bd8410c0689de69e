//! The logic of a terminal front end for a coding agent, verified.
//!
//! Everything that decides, parses or lays out text lives here, with its
//! behaviour stated in contracts. Reading a terminal, a clock or a file is the
//! caller's: it hands plain values in and takes plain values back.

pub mod component;
pub mod escrepair;
pub mod event;
pub mod external;
pub mod graphics;
pub mod history;
pub mod keybind;
pub mod keys;
pub mod lister;
pub mod markdown;
pub mod member;
pub mod mention;
pub mod notify;
pub mod rank;
pub mod run;
pub mod spell;
pub mod startup;
pub mod style;
pub mod text;
pub mod theme;
pub mod width;

use vstd::prelude::*;

verus! {

} // verus!
