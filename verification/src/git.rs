//! The rules of a tenant repository: what a commit's tree holds, what an
//! operation changes in it, and what history says about it.
pub mod dates;
pub mod effects;
pub mod files;
pub mod folders;
pub mod history;
pub mod index;
pub mod listing;
pub mod log;
pub mod model;
pub mod shown;
pub mod tree;
pub mod upkeep;
