//! Process-tree monitor core: hierarchy reconstruction, memory roll-up,
//! ordered table rows and proportional layout of a process snapshot.

pub mod process;
pub mod sums;
pub mod hierarchy;
pub mod helpers;
pub mod text;
pub mod sorted;
pub mod layout;
pub mod config;
pub mod input;
