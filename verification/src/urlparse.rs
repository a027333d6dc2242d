//! URLs reduced to what the crawler reads of them: the serialized
//! form, the scheme, and the host. Parsing itself is done by the `url`
//! crate behind a trusted wrapper; everything downstream works on the
//! plain values kept here.
use vstd::prelude::*;

verus! {

/// What parsing a URL yields: its normalized serialization, its
/// scheme, and its host if it has one.
#[verifier::ext_equal]
pub ghost struct UrlModel {
    pub serialized: Seq<char>,
    pub scheme: Seq<char>,
    pub host: Option<Seq<char>>,
}

/// The result of URL parsing, as a function of the input text alone.
pub uninterp spec fn url_parse(s: Seq<char>) -> Option<UrlModel>;

/// The host of a URL, if the URL parses and has one.
pub open spec fn host_of(s: Seq<char>) -> Option<Seq<char>> {
    match url_parse(s) {
        Some(m) => m.host,
        None => None,
    }
}

/// A parsed URL held as plain values.
pub struct ParsedUrl {
    pub serialized: String,
    pub scheme: String,
    pub host: Option<String>,
}

impl View for ParsedUrl {
    type V = UrlModel;

    open spec fn view(&self) -> UrlModel {
        UrlModel {
            serialized: self.serialized@,
            scheme: self.scheme@,
            host: match self.host {
                Some(h) => Some(h@),
                None => None,
            },
        }
    }
}

/// Relies on `url::Url::parse` for syntax checking and normalization;
/// the scheme and host are read off the parsed value.
#[verifier::external_body]
pub(crate) fn parse_url(s: &str) -> (r: Option<ParsedUrl>)
    ensures
        match r {
            Some(p) => url_parse(s@) == Some(p@),
            None => url_parse(s@) is None,
        },
{
    match url::Url::parse(s) {
        Ok(u) => {
            let scheme = u.scheme().to_string();
            let host = u.host_str().map(|h| h.to_string());
            Some(ParsedUrl { serialized: u.as_str().to_string(), scheme, host })
        },
        Err(_) => None,
    }
}

} // verus!
