//! What the operations of the service promise, told by what goes into them
//! and what comes out.
pub mod announcing;
pub mod answering;
pub mod arranging;
pub mod asking;
pub mod changing;
pub mod following;
pub mod levels;
pub mod linking;
pub mod ordering;
pub mod paths;
pub mod restoring;
pub mod seeking;
pub mod showing;
pub mod spelling;
pub mod telling;
pub mod trees;
