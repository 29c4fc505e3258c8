//! A git-backed, multi-tenant content store served over HTTP.
//!
//! This crate holds the rules of the service as plain functions over plain
//! values: what a request means, what a commit changes, what a listing shows,
//! what a webhook says, and how a replica follows its master. Reading
//! repositories, sockets and clocks is left to the program around it.
pub mod checkout;
pub mod config;
pub mod error;
pub mod git;
pub mod hooks;
pub mod json;
pub mod keyed;
pub mod laws;
pub mod maintenance;
pub mod middleware;
pub mod order;
pub mod replication;
pub mod rfc3339;
pub mod routes;
pub mod seek;
pub mod sorting;
pub mod text;
pub mod url;
pub mod validate;
