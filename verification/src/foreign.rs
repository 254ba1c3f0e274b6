//! Calls into other crates, and into parts of std that come without a
//! specification.
//!
//! Nothing in this file is proved. Each function below has a body that the
//! verifier does not read; its contract is an assumption about the code it
//! calls. Results that are too intricate to spell out are given a name (a
//! specification function without a definition), so that the rest of the
//! library can speak of them exactly.

use vstd::prelude::*;
use vstd::utf8::*;

verus! {

/// What the `url` crate makes of `text`.
///
/// `None` where `url::Url::parse` returns an error. Otherwise the pair of
/// what `Url::host_str` and `Url::port` return for the parsed URL: the host
/// as the URL serialises it, if the URL has one, and the port, if the URL
/// names one that is not the default port of its scheme.
pub uninterp spec fn url_parts(text: Seq<char>) -> Option<(Option<Seq<char>>, Option<u16>)>;

/// What `String::from_utf8_lossy` returns for `bytes`: their text, with
/// U+FFFD in place of each ill-formed part.
pub uninterp spec fn utf8_lossy(bytes: Seq<u8>) -> Seq<char>;

/// What `html_escape::decode_html_entities` returns for `text`: the text
/// with each named or numeric character reference that ends in `;` replaced
/// by what it stands for.
pub uninterp spec fn html_decoded(text: Seq<char>) -> Seq<char>;

/// The two parts of a parsed URL that discovery reads.
#[derive(Debug)]
pub struct UrlParts {
    pub host: Option<String>,
    pub port: Option<u16>,
}

impl UrlParts {
    pub open spec fn view(&self) -> (Option<Seq<char>>, Option<u16>) {
        (
            match self.host {
                Some(h) => Some(h@),
                None => None,
            },
            self.port,
        )
    }
}

/// The view of an optional `UrlParts`.
pub open spec fn parts_view(p: Option<UrlParts>) -> Option<(Option<Seq<char>>, Option<u16>)> {
    match p {
        Some(p) => Some(p@),
        None => None,
    }
}

/// Calls `url::Url::parse`, then `Url::host_str` and `Url::port` on the URL
/// it returns. Assumed: the outcome is the one that `url_parts` names, so it
/// depends on `text` alone.
#[verifier::external_body]
pub(crate) fn parse_url(text: &str) -> (r: Option<UrlParts>)
    ensures
        parts_view(r) == url_parts(text@),
{
    match url::Url::parse(text) {
        Ok(u) => Some(UrlParts { host: u.host_str().map(str::to_string), port: u.port() }),
        Err(_) => None,
    }
}

/// Calls `String::from_utf8_lossy`. Assumed: the result is the text that
/// `utf8_lossy` names, and for well-formed UTF-8 it is the text that the
/// bytes encode.
#[verifier::external_body]
pub(crate) fn text_of_bytes(bytes: &[u8]) -> (s: String)
    ensures
        s@ == utf8_lossy(bytes@),
        valid_utf8(bytes@) ==> s@ == decode_utf8(bytes@),
{
    String::from_utf8_lossy(bytes).into_owned()
}

/// Calls `html_escape::decode_html_entities`. Assumed: the result is the
/// text that `html_decoded` names.
#[verifier::external_body]
pub(crate) fn decode_entities(text: &str) -> (s: String)
    ensures
        s@ == html_decoded(text@),
{
    html_escape::decode_html_entities(text).into_owned()
}

} // verus!
