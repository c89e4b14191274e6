//! Forwarding to the destination provider: the URI a request is sent to,
//! and the error that reports a failed upstream exchange.
use vstd::prelude::*;
use crate::error::{AppError, AppErrorView, concat_str};

verus! {

#[verifier::external_type_specification]
#[verifier::external_body]
pub struct ExUri(hyper::Uri);

/// Whether `http::Uri`'s `FromStr` accepts the text.
pub uninterp spec fn uri_parses(text: Seq<char>) -> bool;

/// The `Display` text of the `http::uri::InvalidUri` that `http::Uri`'s
/// `FromStr` returns for a text it rejects.
pub uninterp spec fn uri_error_text(text: Seq<char>) -> Seq<char>;

/// A parsed URI, kept beside the text it was parsed from.
pub struct ForwardUri {
    text: String,
    uri: hyper::Uri,
}

impl View for ForwardUri {
    type V = Seq<char>;

    /// The text the URI was parsed from.
    closed spec fn view(&self) -> Seq<char> {
        self.text@
    }
}

impl ForwardUri {
    /// The text the URI was parsed from.
    pub fn text(&self) -> (t: &str)
        ensures
            t@ == self@,
    {
        self.text.as_str()
    }

    /// The parsed URI.
    pub fn into_uri(self) -> hyper::Uri {
        self.uri
    }
}

/// `<http::Uri as FromStr>::from_str`: parses a URI, and keeps the text
/// beside it; a rejection is given as the error's `Display` text. The
/// contract claims that success, and the error, depend on the text alone.
#[verifier::external_body]
fn parse_uri(text: &str) -> (r: Result<ForwardUri, String>)
    ensures
        r is Ok <==> uri_parses(text@),
        r matches Ok(u) ==> u@ == text@,
        r matches Err(m) ==> m@ == uri_error_text(text@),
{
    match text.parse::<hyper::Uri>() {
        Ok(uri) => Ok(ForwardUri { text: text.to_owned(), uri }),
        Err(e) => Err(e.to_string()),
    }
}

/// The URI text a request is forwarded to: the destination endpoint followed
/// by the request's path and query.
pub open spec fn forward_target(endpoint: Seq<char>, path_and_query: Seq<char>) -> Seq<char> {
    endpoint + path_and_query
}

/// The forwarded URI text is the endpoint and then the path and query, for
/// every path and query: it starts with the endpoint, ends with the path
/// and query, and is as long as both together.
pub proof fn lemma_forward_target_joins(endpoint: Seq<char>, path_and_query: Seq<char>)
    ensures
        forward_target(endpoint, path_and_query) == endpoint + path_and_query,
        forward_target(endpoint, path_and_query).len() == endpoint.len() + path_and_query.len(),
        forward_target(endpoint, path_and_query).subrange(0, endpoint.len() as int) == endpoint,
        forward_target(endpoint, path_and_query).skip(endpoint.len() as int) == path_and_query,
{
    assert(forward_target(endpoint, path_and_query).subrange(0, endpoint.len() as int) =~= endpoint);
    assert(forward_target(endpoint, path_and_query).skip(endpoint.len() as int) =~= path_and_query);
}

/// The URI a request is forwarded to (parsed from the endpoint followed by
/// the path and query), or the internal error
/// `Invalid URI construction: ..` with http's reason where the joined text
/// is no URI.
pub fn forward_uri(destination_endpoint: &str, path_and_query: &str) -> (r: Result<ForwardUri, AppError>)
    ensures
        r is Ok <==> uri_parses(forward_target(destination_endpoint@, path_and_query@)),
        r matches Ok(u) ==> u@ == forward_target(destination_endpoint@, path_and_query@),
        r matches Ok(u) ==> u@ == destination_endpoint@ + path_and_query@,
        r matches Err(e) ==> e@ == AppErrorView::Internal(
            "Invalid URI construction: "@ + uri_error_text(forward_target(destination_endpoint@, path_and_query@)),
        ),
{
    let target = concat_str(destination_endpoint, path_and_query);
    match parse_uri(target.as_str()) {
        Ok(uri) => Ok(uri),
        Err(detail) => Err(AppError::Internal(concat_str("Invalid URI construction: ", detail.as_str()))),
    }
}

/// The error that reports a failed upstream request.
pub fn upstream_failure(detail: &str) -> (e: AppError)
    ensures
        e@ == AppErrorView::Destination("Upstream request failed: "@ + detail@),
{
    AppError::Destination(concat_str("Upstream request failed: ", detail))
}

} // verus!
