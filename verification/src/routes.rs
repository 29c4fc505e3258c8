//! What requests mean: how their parameters are read and judged, and what is
//! answered.
use vstd::prelude::*;
use crate::git::dates::Timestamp;
use crate::git::model::{CommitRequest, FileChange, Request};
use crate::hooks::{file_part, order_part, HookJob, HookSource};
use crate::sorting::views;
use crate::text::{copy_optional_text, optional_text};

pub mod commits;
pub mod files;
pub mod health;
pub mod order;
pub mod replay;
pub mod replication;
pub mod root;

verus! {

/// Who a change is by.
#[derive(Debug, Clone)]
pub struct AuthorRequest {
    pub name: String,
    pub email: String,
}

impl AuthorRequest {
    /// What a commit by this author takes, with the message if there is one.
    pub fn signs(&self, message: &Option<String>) -> (result: CommitRequest)
        ensures
            result@ == signed_by(*self, *message),
    {
        CommitRequest {
            message: copy_optional_text(message),
            author_name: self.name.clone(),
            author_email: self.email.clone(),
        }
    }
}

/// What a commit by an author takes.
pub open spec fn signed_by(author: AuthorRequest, message: Option<String>) -> Request {
    Request {
        message: optional_text(message),
        author_name: author.name@,
        author_email: author.email@,
    }
}

/// Entries of a page if a request does not say.
pub const DEFAULT_PER_PAGE: usize = 100;

/// The most entries of a page.
pub const MAX_PER_PAGE: usize = 500;

/// The page that a request asks for, the first one by default.
pub open spec fn page_number(page: Option<usize>) -> usize {
    match page {
        Some(number) => if number == 0 {
            1
        } else {
            number
        },
        None => 1,
    }
}

/// How many entries of a page a request asks for, within the limits.
pub open spec fn page_size(per_page: Option<usize>) -> usize {
    match per_page {
        Some(size) => if size == 0 {
            1
        } else if size > MAX_PER_PAGE {
            MAX_PER_PAGE
        } else {
            size
        },
        None => DEFAULT_PER_PAGE,
    }
}

/// The page and its size that a request asks for.
pub fn page_window(page: Option<usize>, per_page: Option<usize>) -> (result: (usize, usize))
    ensures
        result.0 == page_number(page),
        result.1 == page_size(per_page),
        result.0 >= 1,
        1 <= result.1 <= 500,
{
    let number: usize = match page {
        Some(number) => if number == 0 {
            1
        } else {
            number
        },
        None => 1,
    };
    let size: usize = match per_page {
        Some(size) => if size == 0 {
            1
        } else if size > MAX_PER_PAGE {
            MAX_PER_PAGE
        } else {
            size
        },
        None => DEFAULT_PER_PAGE,
    };
    (number, size)
}

/// The hook job of a write: none where it changed nothing.
pub fn committed_job(
    collection_id: String,
    tenant_id: String,
    commit_sha: String,
    committed_at: Timestamp,
    changes: Vec<FileChange>,
) -> (result: Option<HookJob>)
    ensures
        result is None <==> changes@.len() == 0,
        match result {
            Some(job) => {
                &&& job.collection_id == collection_id
                &&& job.tenant_id == tenant_id
                &&& job.commit_sha == commit_sha
                &&& job.committed_at == committed_at
                &&& match job.source {
                    HookSource::Commit { file_changes, order_changes } => {
                        &&& views(file_changes@) == file_part(views(changes@))
                        &&& views(order_changes@) == order_part(views(changes@))
                    },
                    HookSource::Replay(_) => false,
                }
            },
            None => true,
        },
{
    if changes.len() == 0 {
        return None;
    }
    Some(HookJob::new(collection_id, tenant_id, commit_sha, committed_at, changes))
}

} // verus!
