use vstd::prelude::*;

pub mod api;
pub mod db;
pub mod hs;
pub mod lol;
pub mod order;
pub mod payload;
pub mod rl;
pub mod scanner;
pub mod status;
pub mod text;
pub mod time;
pub mod tray;
pub mod update;
pub mod ws;

verus! {
} // verus!
