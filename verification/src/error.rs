//! The application error, its message and its HTTP status.
use vstd::prelude::*;

verus! {

/// Everything that can go wrong while a request is served.
#[derive(Debug, Clone)]
pub enum AppError {
    FileNotFound { path: String },
    CommitNotFound { sha: String },
    /// No order index is stored for that directory.
    OrderNotFound { directory: String },
    TenantNotFound { tenant_id: String },
    InvalidTenant { tenant_id: String },
    InvalidPath { reason: String },
    InvalidOperation { reason: String },
    InvalidUtf8 { path: String },
    /// A failure of the repository, by its message.
    Git(String),
    /// A failure of the filesystem, by its message.
    Io(String),
    TaskFailed(String),
}

/// An error as its kind and the text that it carries.
pub enum Fault {
    FileNotFound(Seq<char>),
    CommitNotFound(Seq<char>),
    OrderNotFound(Seq<char>),
    TenantNotFound(Seq<char>),
    InvalidTenant(Seq<char>),
    InvalidPath(Seq<char>),
    InvalidOperation(Seq<char>),
    InvalidUtf8(Seq<char>),
    Git(Seq<char>),
    Io(Seq<char>),
    TaskFailed(Seq<char>),
}

impl View for AppError {
    type V = Fault;

    open spec fn view(&self) -> Fault {
        match *self {
            AppError::FileNotFound { path } => Fault::FileNotFound(path@),
            AppError::CommitNotFound { sha } => Fault::CommitNotFound(sha@),
            AppError::OrderNotFound { directory } => Fault::OrderNotFound(directory@),
            AppError::TenantNotFound { tenant_id } => Fault::TenantNotFound(tenant_id@),
            AppError::InvalidTenant { tenant_id } => Fault::InvalidTenant(tenant_id@),
            AppError::InvalidPath { reason } => Fault::InvalidPath(reason@),
            AppError::InvalidOperation { reason } => Fault::InvalidOperation(reason@),
            AppError::InvalidUtf8 { path } => Fault::InvalidUtf8(path@),
            AppError::Git(message) => Fault::Git(message@),
            AppError::Io(message) => Fault::Io(message@),
            AppError::TaskFailed(message) => Fault::TaskFailed(message@),
        }
    }
}

/// The message of an error.
pub open spec fn fault_message(fault: Fault) -> Seq<char> {
    match fault {
        Fault::FileNotFound(path) => "file not found: "@ + path,
        Fault::CommitNotFound(sha) => "commit not found: "@ + sha,
        Fault::OrderNotFound(directory) => "order index not found for directory: "@ + directory,
        Fault::TenantNotFound(tenant_id) => "tenant not found: "@ + tenant_id,
        Fault::InvalidTenant(tenant_id) => "invalid tenant id: "@ + tenant_id,
        Fault::InvalidPath(reason) => "invalid path: "@ + reason,
        Fault::InvalidOperation(reason) => "invalid operation: "@ + reason,
        Fault::InvalidUtf8(path) => "file content is not valid UTF-8 at path: "@ + path,
        Fault::Git(message) => "git error: "@ + message,
        Fault::Io(message) => "io error: "@ + message,
        Fault::TaskFailed(message) => "background task failed: "@ + message,
    }
}

/// The HTTP status of an error: 404 for what does not exist, 400 for what the
/// caller got wrong, 422 for content that JSON cannot carry, 500 otherwise.
pub open spec fn fault_status(fault: Fault) -> u16 {
    match fault {
        Fault::FileNotFound(_)
        | Fault::CommitNotFound(_)
        | Fault::OrderNotFound(_)
        | Fault::TenantNotFound(_) => 404,
        Fault::InvalidTenant(_) | Fault::InvalidPath(_) | Fault::InvalidOperation(_) => 400,
        Fault::InvalidUtf8(_) => 422,
        Fault::Git(_) | Fault::Io(_) | Fault::TaskFailed(_) => 500,
    }
}

impl AppError {
    /// The message shown to the caller.
    pub fn message(&self) -> (result: String)
        ensures
            result@ == fault_message(self@),
    {
        let (prefix, detail): (&str, &String) = match self {
            AppError::FileNotFound { path } => ("file not found: ", path),
            AppError::CommitNotFound { sha } => ("commit not found: ", sha),
            AppError::OrderNotFound { directory } => (
                "order index not found for directory: ",
                directory,
            ),
            AppError::TenantNotFound { tenant_id } => ("tenant not found: ", tenant_id),
            AppError::InvalidTenant { tenant_id } => ("invalid tenant id: ", tenant_id),
            AppError::InvalidPath { reason } => ("invalid path: ", reason),
            AppError::InvalidOperation { reason } => ("invalid operation: ", reason),
            AppError::InvalidUtf8 { path } => ("file content is not valid UTF-8 at path: ", path),
            AppError::Git(message) => ("git error: ", message),
            AppError::Io(message) => ("io error: ", message),
            AppError::TaskFailed(message) => ("background task failed: ", message),
        };
        crate::text::joined(prefix, detail.as_str())
    }

    /// The HTTP status of the response that carries this error.
    pub fn status(&self) -> (result: u16)
        ensures
            result == fault_status(self@),
    {
        match self {
            AppError::FileNotFound { .. }
            | AppError::CommitNotFound { .. }
            | AppError::OrderNotFound { .. }
            | AppError::TenantNotFound { .. } => 404,
            AppError::InvalidTenant { .. }
            | AppError::InvalidPath { .. }
            | AppError::InvalidOperation { .. } => 400,
            AppError::InvalidUtf8 { .. } => 422,
            AppError::Git(_) | AppError::Io(_) | AppError::TaskFailed(_) => 500,
        }
    }
}

/// An invalid-operation error for the given reason.
pub fn invalid_operation(reason: &str) -> (result: AppError)
    ensures
        result@ == Fault::InvalidOperation(reason@),
{
    AppError::InvalidOperation { reason: reason.to_owned() }
}

} // verus!
