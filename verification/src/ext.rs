//! Items taken on trust: contracts for the outside crates the library calls
//! and for the few pieces of std that vstd leaves unspecified.

use vstd::prelude::*;

verus! {

/// Relies on `String::push`: appends the given character to the end of the
/// string.
pub assume_specification[ String::push ](s: &mut String, ch: char)
    ensures
        final (s)@ == old(s)@.push(ch),
;

/// The components that the URL utilities read from a parsed URL, held as
/// plain values.
pub struct UrlParts {
    /// The serialization up to the start of the query string; it ends with a
    /// `?` exactly when the URL has a query.
    pub before_query: String,
    /// The serialization up to the start of the path.
    pub before_path: String,
    /// The raw query string, without the leading `?`.
    pub query: Option<String>,
    /// The query decoded as form-urlencoded key/value pairs, in order.
    pub pairs: Vec<(String, String)>,
    /// The `/`-separated path segments; absent for cannot-be-a-base URLs.
    pub segments: Option<Vec<String>>,
    /// The host, in its serialized form.
    pub host: Option<String>,
}

/// The mathematical image of `UrlParts`.
pub struct UrlPartsModel {
    pub before_query: Seq<char>,
    pub before_path: Seq<char>,
    pub query: Option<Seq<char>>,
    pub pairs: Seq<(Seq<char>, Seq<char>)>,
    pub segments: Option<Seq<Seq<char>>>,
    pub host: Option<Seq<char>>,
}

impl View for UrlParts {
    type V = UrlPartsModel;

    open spec fn view(&self) -> UrlPartsModel {
        UrlPartsModel {
            before_query: self.before_query@,
            before_path: self.before_path@,
            query: match self.query {
                Some(q) => Some(q@),
                None => None,
            },
            pairs: self.pairs.deep_view(),
            segments: match self.segments {
                Some(segs) => Some(segs.deep_view()),
                None => None,
            },
            host: match self.host {
                Some(h) => Some(h@),
                None => None,
            },
        }
    }
}

/// What parsing a URL string yields: absent when the string is not a valid
/// absolute URL, otherwise the components of the parse. A given string parses
/// to the same components in every call.
pub uninterp spec fn url_parse(s: Seq<char>) -> Option<UrlPartsModel>;

/// Relies on `url::Url::parse` and, on the parsed value, the accessors
/// `query`, `query_pairs`, `path_segments` and `host_str` together with
/// `Position` slicing: the slice before `BeforeQuery` ends with the `?` when
/// a query is present, the slice before `BeforePath` ends where the path
/// starts, `query_pairs` decodes the query as form-urlencoded pairs in
/// order, and `path_segments` is absent exactly for cannot-be-a-base URLs.
#[verifier::external_body]
pub fn parse_url(s: &str) -> (r: Option<UrlParts>)
    ensures
        match (r, url_parse(s@)) {
            (Some(p), Some(m)) => p@ == m,
            (None, None) => true,
            _ => false,
        },
{
    match url::Url::parse(s) {
        Ok(u) => Some(UrlParts {
            before_query: u[..url::Position::BeforeQuery].to_string(),
            before_path: u[..url::Position::BeforePath].to_string(),
            query: u.query().map(|q| q.to_string()),
            pairs: u.query_pairs().into_owned().collect(),
            segments: u.path_segments().map(|ps| ps.map(|seg| seg.to_string()).collect()),
            host: u.host_str().map(|h| h.to_string()),
        }),
        Err(_) => None,
    }
}

/// What percent-decoding followed by a UTF-8 check makes of a string: absent
/// when the decoded bytes are not valid UTF-8. The result depends on the
/// input characters alone.
pub uninterp spec fn percent_decoded(s: Seq<char>) -> Option<Seq<char>>;

/// Relies on `percent_encoding::percent_decode` and
/// `PercentDecode::decode_utf8`: replaces `%XX` escapes by the bytes they
/// name and checks that the result is valid UTF-8.
#[verifier::external_body]
pub fn percent_decode_str(s: &str) -> (r: Option<String>)
    ensures
        match (r, percent_decoded(s@)) {
            (Some(d), Some(m)) => d@ == m,
            (None, None) => true,
            _ => false,
        },
{
    match percent_encoding::percent_decode(s.as_bytes()).decode_utf8() {
        Ok(decoded) => Some(decoded.into_owned()),
        Err(_) => None,
    }
}

/// What `str::trim` returns: the string without leading and trailing
/// whitespace. The result depends on the input characters alone.
pub uninterp spec fn trimmed(s: Seq<char>) -> Seq<char>;

/// Relies on `str::trim`: removes leading and trailing whitespace.
#[verifier::external_body]
pub fn trim_str(s: &str) -> (r: String)
    ensures
        r@ == trimmed(s@),
{
    s.trim().to_string()
}

/// What `str::to_lowercase` returns. The result depends on the input
/// characters alone.
pub uninterp spec fn lowercased(s: Seq<char>) -> Seq<char>;

/// Relies on `str::to_lowercase`: the Unicode lowercase form of the string.
#[verifier::external_body]
pub fn lowercase_str(s: &str) -> (r: String)
    ensures
        r@ == lowercased(s@),
{
    s.to_lowercase()
}

} // verus!
