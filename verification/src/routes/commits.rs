//! Requests about commits.
use vstd::prelude::*;
use crate::error::{AppError, Fault};
use crate::routes::{page_number, page_size, page_window, AuthorRequest};
use crate::text::optional_text;
use crate::validate::{file_path, file_path_of};

verus! {

/// The parameters of a list of commits.
#[derive(Debug, Clone)]
pub struct ListCommitsQuery {
    pub page: Option<usize>,
    pub per_page: Option<usize>,
    /// The file whose commits are listed, by its current path.
    pub file_path: Option<String>,
    pub include_statistics: Option<bool>,
}

/// The body of a revert.
#[derive(Debug, Clone)]
pub struct RevertCommitRequest {
    pub author: AuthorRequest,
    pub message: Option<String>,
}

/// The body of a rollback: the commit says which files it is about.
pub type RollbackCommitRequest = RevertCommitRequest;

/// What a list of commits is to show.
#[derive(Debug)]
pub struct CommitListing {
    pub page: usize,
    pub per_page: usize,
    pub file_path: Option<String>,
    pub include_statistics: bool,
}

/// The file that a listing is about, or why it is refused.
pub open spec fn listed_file(raw: Option<String>) -> Result<Option<Seq<char>>, Fault> {
    match raw {
        Some(text) => match file_path_of(text@) {
            Ok(path) => Ok(Some(path)),
            Err(fault) => Err(fault),
        },
        None => Ok(None),
    }
}

impl ListCommitsQuery {
    /// What is asked for.
    pub fn listing(&self) -> (result: Result<CommitListing, AppError>)
        ensures
            match result {
                Ok(listing) => {
                    &&& listed_file(self.file_path) == Ok::<_, Fault>(
                        optional_text(listing.file_path),
                    )
                    &&& listing.page == page_number(self.page)
                    &&& listing.per_page == page_size(self.per_page)
                    &&& listing.include_statistics == (self.include_statistics == Some(true))
                    &&& listing.page >= 1
                },
                Err(error) => listed_file(self.file_path) == Err::<Option<Seq<char>>, _>(error@),
            },
    {
        let (page, per_page): (usize, usize) = page_window(self.page, self.per_page);
        let path: Option<String> = match &self.file_path {
            Some(raw) => match file_path(raw.as_str()) {
                Ok(path) => Some(path),
                Err(error) => {
                    return Err(error);
                },
            },
            None => None,
        };
        Ok(
            CommitListing {
                page,
                per_page,
                file_path: path,
                include_statistics: match self.include_statistics {
                    Some(wanted) => wanted,
                    None => false,
                },
            },
        )
    }
}

} // verus!
