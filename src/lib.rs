// A verified core for a tool-assisted speedrun editor: the bytecode interpreter and its memory,
// copy-on-write snapshots, the game adapter's host services, animation curves for inputs, and
// the run controller's snapshot ladder.

pub mod animation;
pub mod game;
pub mod memory;
pub mod q3;
pub mod run;
pub mod vm;
