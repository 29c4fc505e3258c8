//! The URLs of peers and receivers.
use vstd::prelude::*;
use crate::text::{strip_trailing, without_trailing};

verus! {

/// What the service needs of a parsed URL.
#[derive(Debug)]
pub struct UrlParts {
    pub scheme: String,
    pub username: String,
    pub has_password: bool,
    pub text: String,
}

/// The parts of a URL over characters.
pub struct Parts {
    pub scheme: Seq<char>,
    pub username: Seq<char>,
    pub has_password: bool,
    pub text: Seq<char>,
}

impl View for UrlParts {
    type V = Parts;

    open spec fn view(&self) -> Parts {
        Parts {
            scheme: self.scheme@,
            username: self.username@,
            has_password: self.has_password,
            text: self.text@,
        }
    }
}

/// The parts of the URL that `reqwest::Url::parse` reads, if it does.
pub uninterp spec fn url_parts(raw: Seq<char>) -> Option<Parts>;

/// The URL that `reqwest::Url::parse` reads, once `set_username` and
/// `set_password` have cleared both.
pub uninterp spec fn url_without_credentials(raw: Seq<char>) -> Option<Seq<char>>;

/// `reqwest::Url::parse`, and what the URL says of itself.
///
/// Claims that the outcome depends on the text alone.
#[verifier::external_body]
pub(crate) fn parse_url(raw: &str) -> (result: Option<UrlParts>)
    ensures
        match result {
            Some(parts) => url_parts(raw@) == Some(parts@),
            None => url_parts(raw@) is None,
        },
{
    let url: reqwest::Url = reqwest::Url::parse(raw).ok()?;
    Some(
        UrlParts {
            scheme: url.scheme().to_owned(),
            username: url.username().to_owned(),
            has_password: url.password().is_some(),
            text: url.to_string(),
        },
    )
}

/// `reqwest::Url::set_username` and `set_password`, clearing both in the URL
/// that `reqwest::Url::parse` reads.
///
/// Claims that the outcome depends on the text alone, that there is one
/// wherever the text is a URL, and that for `http` and `https`, whose URLs
/// always have a host, it carries neither name nor password.
#[verifier::external_body]
fn clear_credentials(raw: &str) -> (result: Option<String>)
    ensures
        match result {
            Some(text) => {
                &&& url_without_credentials(raw@) == Some(text@)
                &&& url_parts(raw@) matches Some(parts) && (is_web(parts.scheme) ==> is_clear(
                    text@,
                ))
            },
            None => url_without_credentials(raw@) is None && url_parts(raw@) is None,
        },
{
    let mut url: reqwest::Url = reqwest::Url::parse(raw).ok()?;
    let _ = url.set_username("");
    let _ = url.set_password(None);
    Some(url.to_string())
}

/// Whether a scheme is one of the web.
pub open spec fn is_web(scheme: Seq<char>) -> bool {
    scheme == "http"@ || scheme == "https"@
}

/// Whether a URL carries neither a user name nor a password.
pub open spec fn is_clear(raw: Seq<char>) -> bool {
    url_parts(raw) matches Some(parts) && parts.username.len() == 0 && !parts.has_password
}

/// A URL as it may be shown, by its parts and by what is left of it without
/// credentials: without either, and without trailing slashes.
pub open spec fn shown_url(parts: Option<Parts>, cleared: Option<Seq<char>>) -> Seq<char> {
    match parts {
        None => "<invalid url>"@,
        Some(url) => if url.username.len() == 0 && !url.has_password {
            without_trailing(url.text, '/')
        } else {
            match cleared {
                Some(text) => without_trailing(text, '/'),
                None => "<invalid url>"@,
            }
        },
    }
}

/// A URL as it may be shown.
pub open spec fn redacted(raw: Seq<char>) -> Seq<char> {
    shown_url(url_parts(raw), url_without_credentials(raw))
}

/// A URL as it may be shown, once it is parsed and cleared.
pub fn show_url(parts: Option<&UrlParts>, cleared: Option<&str>) -> (result: String)
    ensures
        result@ == shown_url(
            match parts {
                Some(url) => Some(url@),
                None => None,
            },
            match cleared {
                Some(text) => Some(text@),
                None => None,
            },
        ),
{
    match parts {
        None => "<invalid url>".to_owned(),
        Some(url) => if url.username.as_str().is_empty() && !url.has_password {
            strip_trailing(url.text.as_str(), '/')
        } else {
            match cleared {
                Some(text) => strip_trailing(text, '/'),
                None => "<invalid url>".to_owned(),
            }
        },
    }
}

/// A URL as it may be shown in logs and health reports: any credentials in it
/// are removed.
pub fn redact_url(raw: &str) -> (result: String)
    ensures
        result@ == redacted(raw@),
{
    let parts: Option<UrlParts> = parse_url(raw);
    let cleared: Option<String> = clear_credentials(raw);
    match (&parts, &cleared) {
        (Some(url), Some(text)) => show_url(Some(url), Some(text.as_str())),
        (Some(url), None) => show_url(Some(url), None),
        (None, _) => show_url(None, None),
    }
}

} // verus!
