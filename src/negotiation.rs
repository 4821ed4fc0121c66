//! Choice of response format for a lookup: by an explicit extension on the
//! key, else by the client's accepted media types.

use vstd::prelude::*;
use crate::text::{concat_str, ends_with, is_prefix, is_suffix, starts_with, substring};

verus! {

/// A response format.
#[derive(Debug, Clone, Copy, PartialEq, Eq, Structural)]
pub enum ContentNegotiation {
    Html,
    RdfXml,
    Turtle,
    Json,
}

/// The format that one accepted media type asks for, if it names one.
pub open spec fn format_of_media(v: Seq<char>) -> Option<ContentNegotiation> {
    if is_prefix("text/html"@, v) {
        Some(ContentNegotiation::Html)
    } else if is_prefix("application/rdf+xml"@, v) {
        Some(ContentNegotiation::RdfXml)
    } else if is_prefix("text/turtle"@, v) || is_prefix("application/x-turtle"@, v) {
        Some(ContentNegotiation::Turtle)
    } else if is_prefix("application/json"@, v) || is_prefix("application/javascript"@, v) {
        Some(ContentNegotiation::Json)
    } else {
        None
    }
}

/// The format chosen by the first of `values` that names one; HTML if none does.
pub open spec fn format_of_accept(values: Seq<String>) -> ContentNegotiation
    decreases values.len(),
{
    if values.len() == 0 {
        ContentNegotiation::Html
    } else {
        match format_of_media(values[0]@) {
            Some(f) => f,
            None => format_of_accept(values.subrange(1, values.len() as int)),
        }
    }
}

impl ContentNegotiation {
    /// The format that the `Accept` values of a request ask for.
    pub fn from_accept(values: &Vec<String>) -> (r: ContentNegotiation)
        ensures
            r == format_of_accept(values@),
    {
        let mut i: usize = 0;
        assert(values@.subrange(0, values@.len() as int) =~= values@);
        while i < values.len()
            invariant
                i <= values@.len(),
                format_of_accept(values@) == format_of_accept(values@.subrange(i as int, values@.len() as int)),
            decreases values@.len() - i,
        {
            let v = values[i].as_str();
            let ghost rest = values@.subrange(i as int, values@.len() as int);
            assert(rest[0] == values@[i as int]);
            assert(rest.subrange(1, rest.len() as int) =~= values@.subrange(i + 1, values@.len() as int));
            if starts_with(v, "text/html") {
                return ContentNegotiation::Html;
            } else if starts_with(v, "application/rdf+xml") {
                return ContentNegotiation::RdfXml;
            } else if starts_with(v, "text/turtle") || starts_with(v, "application/x-turtle") {
                return ContentNegotiation::Turtle;
            } else if starts_with(v, "application/json") || starts_with(v, "application/javascript") {
                return ContentNegotiation::Json;
            }
            i = i + 1;
        }
        ContentNegotiation::Html
    }
}

/// The answer to a lookup: the page itself, or a redirect to the location of
/// the data in another format.
#[derive(Debug, PartialEq)]
pub enum NegotiatedResponse {
    Redirect(String),
    Html(&'static str),
    HtmlDyn(String),
}

/// The key and format of a request once a trailing format extension (`.rdf`,
/// `.ttl`, `.json`, `.html`, repeatedly) is taken off the key.
pub open spec fn strip_extensions(key: Seq<char>, neg: ContentNegotiation) -> (Seq<char>, ContentNegotiation)
    decreases key.len(),
{
    if key.len() >= 4 && is_suffix(".rdf"@, key) {
        strip_extensions(key.subrange(0, key.len() - 4), ContentNegotiation::RdfXml)
    } else if key.len() >= 4 && is_suffix(".ttl"@, key) {
        strip_extensions(key.subrange(0, key.len() - 4), ContentNegotiation::Turtle)
    } else if key.len() >= 5 && is_suffix(".json"@, key) {
        strip_extensions(key.subrange(0, key.len() - 5), ContentNegotiation::Json)
    } else if key.len() >= 5 && is_suffix(".html"@, key) {
        strip_extensions(key.subrange(0, key.len() - 5), ContentNegotiation::Html)
    } else {
        (key, neg)
    }
}

/// The location of the data for `key` in index `idx` in a format other than HTML.
pub open spec fn redirect_target(neg: ContentNegotiation, idx: Seq<char>, key: Seq<char>) -> Seq<char> {
    let dir = match neg {
        ContentNegotiation::RdfXml => "/rdf/"@,
        ContentNegotiation::Turtle => "/ttl/"@,
        _ => "/json/"@,
    };
    dir + idx + "/"@ + key
}

/// Answers a lookup of `key` in index `idx`: a key extension chooses the
/// format, else `neg` does; HTML gets the page `index`, any other format a
/// redirect to where its data is served.
pub fn negotiated(idx: &str, key: &str, index: &'static str, neg: ContentNegotiation) -> (r: NegotiatedResponse)
    ensures
        ({
            let (k, f) = strip_extensions(key@, neg);
            if f == ContentNegotiation::Html {
                r == NegotiatedResponse::Html(index)
            } else {
                r is Redirect && r->Redirect_0@ == redirect_target(f, idx@, k)
            }
        }),
    decreases key@.len(),
{
    proof {
        reveal_strlit(".rdf");
        reveal_strlit(".ttl");
        reveal_strlit(".json");
        reveal_strlit(".html");
    }
    let n = key.unicode_len();
    if ends_with(key, ".rdf") {
        let k = substring(key, 0, n - 4);
        negotiated(idx, k.as_str(), index, ContentNegotiation::RdfXml)
    } else if ends_with(key, ".ttl") {
        let k = substring(key, 0, n - 4);
        negotiated(idx, k.as_str(), index, ContentNegotiation::Turtle)
    } else if ends_with(key, ".json") {
        let k = substring(key, 0, n - 5);
        negotiated(idx, k.as_str(), index, ContentNegotiation::Json)
    } else if ends_with(key, ".html") {
        let k = substring(key, 0, n - 5);
        negotiated(idx, k.as_str(), index, ContentNegotiation::Html)
    } else {
        match neg {
            ContentNegotiation::Html => NegotiatedResponse::Html(index),
            _ => {
                let dir = match neg {
                    ContentNegotiation::RdfXml => "/rdf/",
                    ContentNegotiation::Turtle => "/ttl/",
                    _ => "/json/",
                };
                let a = concat_str(dir, idx);
                let b = concat_str(a.as_str(), "/");
                let c = concat_str(b.as_str(), key);
                NegotiatedResponse::Redirect(c)
            },
        }
    }
}

} // verus!
