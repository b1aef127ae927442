//! A value read from a percent-encoded path segment.
use vstd::prelude::*;
use crate::error::CrawlError;
use crate::page_url::{parsed_url, PageUrl};

verus! {

/// What `urlencoding::decode` makes of a text: `None` where the decoded
/// bytes are no UTF-8, else the decoded text.
pub uninterp spec fn percent_decoded(s: Seq<char>) -> Option<Seq<char>>;

/// Relies on `urlencoding::decode`: percent-decodes `s` as UTF-8, and hands
/// a text without `%` back as it is.
#[verifier::external_body]
fn percent_decode(s: &str) -> (r: Option<String>)
    ensures
        match r {
            Some(d) => percent_decoded(s@) == Some(d@) && (!has_escape(s@) ==> d@ == s@),
            None => percent_decoded(s@) is None && has_escape(s@),
        },
{
    match urlencoding::decode(s) {
        Ok(d) => Some(d.into_owned()),
        Err(_) => None,
    }
}

/// Whether a text holds a `%`, which starts an escape.
pub open spec fn has_escape(s: Seq<char>) -> bool {
    s.contains('%')
}

/// A value that arrived percent-encoded.
#[derive(Debug)]
pub struct UrlEncoded<T>(T);

impl<T> UrlEncoded<T> {
    pub closed spec fn inner(&self) -> T {
        self.0
    }

    /// The decoded value.
    pub fn into_inner(self) -> (r: T)
        ensures
            r == self.inner(),
    {
        self.0
    }
}

impl UrlEncoded<String> {
    /// Percent-decodes a text; `None` where the decoded bytes are no UTF-8.
    pub fn decode(s: &str) -> (r: Option<UrlEncoded<String>>)
        ensures
            match r {
                Some(u) => percent_decoded(s@) == Some(u.inner()@),
                None => percent_decoded(s@) is None,
            },
            !has_escape(s@) ==> (r matches Some(u) && u.inner()@ == s@),
    {
        match percent_decode(s) {
            Some(d) => Some(UrlEncoded(d)),
            None => None,
        }
    }
}

impl UrlEncoded<PageUrl> {
    /// Percent-decodes a text and parses it as an absolute URL; `None` where
    /// either step fails.
    pub fn decode(s: &str) -> (r: Option<UrlEncoded<PageUrl>>)
        ensures
            match percent_decoded(s@) {
                Some(d) => match parsed_url(d) {
                    Some(p) => r matches Some(u) && u.inner().parts() == p && u.inner().wf(),
                    None => r is None,
                },
                None => r is None,
            },
    {
        match percent_decode(s) {
            Some(d) => match PageUrl::parse(d.as_str()) {
                Some(u) => Some(UrlEncoded(u)),
                None => None,
            },
            None => None,
        }
    }
}

impl std::str::FromStr for UrlEncoded<String> {
    type Err = CrawlError;

    fn from_str(s: &str) -> (r: Result<UrlEncoded<String>, CrawlError>)
        ensures
            match r {
                Ok(u) => percent_decoded(s@) == Some(u.inner()@),
                Err(e) => percent_decoded(s@) is None && e == CrawlError::InvalidInput,
            },
            !has_escape(s@) ==> (r matches Ok(u) && u.inner()@ == s@),
    {
        match UrlEncoded::<String>::decode(s) {
            Some(u) => Ok(u),
            None => Err(CrawlError::InvalidInput),
        }
    }
}

impl std::str::FromStr for UrlEncoded<PageUrl> {
    type Err = CrawlError;

    fn from_str(s: &str) -> (r: Result<UrlEncoded<PageUrl>, CrawlError>)
        ensures
            match percent_decoded(s@) {
                Some(d) => match parsed_url(d) {
                    Some(p) => r matches Ok(u) && u.inner().parts() == p && u.inner().wf(),
                    None => r == Err::<UrlEncoded<PageUrl>, CrawlError>(CrawlError::InvalidInput),
                },
                None => r == Err::<UrlEncoded<PageUrl>, CrawlError>(CrawlError::InvalidInput),
            },
    {
        match UrlEncoded::<PageUrl>::decode(s) {
            Some(u) => Ok(u),
            None => Err(CrawlError::InvalidInput),
        }
    }
}

} // verus!
