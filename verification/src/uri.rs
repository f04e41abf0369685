//! URIs, taken apart into plain values.

use vstd::prelude::*;
use vstd::string::*;

use crate::text::{index_of, text_view};

verus! {

/// The parts of a URI.
#[derive(Debug, Clone)]
pub struct Uri {
    pub scheme: Option<String>,
    pub authority: Option<String>,
    /// The host in the authority.
    pub host: Option<String>,
    /// The port in the authority.
    pub port: Option<u16>,
    pub path: String,
    pub query: Option<String>,
}

/// The parts of a URI as texts.
pub ghost struct UriParts {
    pub scheme: Option<Seq<char>>,
    pub authority: Option<Seq<char>>,
    pub host: Option<Seq<char>>,
    pub port: Option<u16>,
    pub path: Seq<char>,
    pub query: Option<Seq<char>>,
}

impl View for Uri {
    type V = UriParts;

    open spec fn view(&self) -> UriParts {
        UriParts {
            scheme: text_view(self.scheme),
            authority: text_view(self.authority),
            host: text_view(self.host),
            port: self.port,
            path: self.path@,
            query: text_view(self.query),
        }
    }
}

/// The path of a path and query; `/` when there is none.
pub open spec fn path_part(s: Seq<char>) -> Seq<char> {
    if index_of(s, '?') == 0 {
        seq!['/']
    } else {
        s.take(index_of(s, '?'))
    }
}

/// The query of a path and query: what follows the first question mark.
pub open spec fn query_part(s: Seq<char>) -> Option<Seq<char>> {
    if index_of(s, '?') < s.len() {
        Some(s.skip(index_of(s, '?') + 1))
    } else {
        None
    }
}

/// What `hyper` reads a text as, or why it is no URI.
pub uninterp spec fn uri_read(text: Seq<char>) -> Result<UriParts, Seq<char>>;

/// What `hyper` builds from a scheme, an authority and a path with query, or why it does not.
pub uninterp spec fn uri_built(
    scheme: Seq<char>,
    authority: Seq<char>,
    path_and_query: Seq<char>,
) -> Result<UriParts, Seq<char>>;

/// `hyper::Uri`'s `FromStr`, with the error as text. What a text is read as is not said beyond
/// the name.
#[verifier::external_body]
pub(crate) fn parse_uri(text: &str) -> (r: Result<Uri, String>)
    ensures
        match r {
            Ok(uri) => uri_read(text@) == Ok::<UriParts, Seq<char>>(uri@),
            Err(error) => uri_read(text@) == Err::<UriParts, Seq<char>>(error@),
        },
{
    text.parse::<hyper::Uri>().map(|uri| Uri {
        scheme: uri.scheme_str().map(str::to_string),
        authority: uri.authority().map(|authority| authority.as_str().to_string()),
        host: uri.host().map(str::to_string),
        port: uri.port_u16(),
        path: uri.path().to_string(),
        query: uri.query().map(str::to_string),
    }).map_err(|error| error.to_string())
}

/// `hyper::Uri::builder` with a scheme, an authority and a path with query, with the error as
/// text. A URI that is built has the scheme and the authority it was built with; when no
/// fragment was given, its path and query are those that were given, split at the first question
/// mark, with `/` for an empty path. When a URI is built at all is not said beyond the name.
#[verifier::external_body]
pub(crate) fn build_uri(scheme: &str, authority: &str, path_and_query: &str) -> (r: Result<
    Uri,
    String,
>)
    ensures
        match r {
            Ok(uri) => {
                &&& uri_built(scheme@, authority@, path_and_query@) == Ok::<UriParts, Seq<char>>(uri@)
                &&& uri@.scheme == Some(scheme@)
                &&& uri@.authority == Some(authority@)
                &&& !path_and_query@.contains('#') ==> uri@.path == path_part(path_and_query@)
                    && uri@.query == query_part(path_and_query@)
            },
            Err(error) => uri_built(scheme@, authority@, path_and_query@) == Err::<
                UriParts,
                Seq<char>,
            >(error@),
        },
{
    hyper::Uri::builder()
        .scheme(scheme)
        .authority(authority)
        .path_and_query(path_and_query)
        .build()
        .map(|uri| Uri {
        scheme: uri.scheme_str().map(str::to_string),
        authority: uri.authority().map(|authority| authority.as_str().to_string()),
        host: uri.host().map(str::to_string),
        port: uri.port_u16(),
        path: uri.path().to_string(),
        query: uri.query().map(str::to_string),
    })
        .map_err(|error| error.to_string())
}

/// A URI written out.
pub open spec fn uri_text(uri: UriParts) -> Seq<char> {
    (match uri.scheme {
        Some(scheme) => scheme + "://"@,
        None => Seq::empty(),
    }) + (match uri.authority {
        Some(authority) => authority,
        None => Seq::empty(),
    }) + uri.path + (match uri.query {
        Some(query) => "?"@ + query,
        None => Seq::empty(),
    })
}

impl Uri {
    /// The URI written out.
    pub fn text(&self) -> (text: String)
        ensures
            text@ == uri_text(self@),
    {
        let mut text = String::new();
        if let Some(scheme) = &self.scheme {
            text.append(scheme.as_str());
            text.append("://");
        }
        if let Some(authority) = &self.authority {
            text.append(authority.as_str());
        }
        text.append(self.path.as_str());
        if let Some(query) = &self.query {
            text.append("?");
            text.append(query.as_str());
        }
        assert(text@ == uri_text(self@));
        text
    }

    /// Reads a URI, as [`uri_read`] names it.
    pub fn parse(text: &str) -> (r: Result<Uri, String>)
        ensures
            match r {
                Ok(uri) => uri_read(text@) == Ok::<UriParts, Seq<char>>(uri@),
                Err(error) => uri_read(text@) == Err::<UriParts, Seq<char>>(error@),
            },
    {
        parse_uri(text)
    }
}

/// A URI is written as its scheme, its authority, its path and its query, each as it is where there
/// is one.
pub proof fn uri_is_written_in_parts(uri: UriParts)
    ensures
        uri_text(uri) == (match uri.scheme {
            Some(scheme) => scheme + seq![':', '/', '/'],
            None => Seq::empty(),
        }) + (match uri.authority {
            Some(authority) => authority,
            None => Seq::empty(),
        }) + uri.path + (match uri.query {
            Some(query) => seq!['?'] + query,
            None => Seq::empty(),
        }),
{
    reveal_strlit("://");
    reveal_strlit("?");
    assert("://"@ =~= seq![':', '/', '/']);
    assert("?"@ =~= seq!['?']);
}

/// A path and query comes apart at its first question mark.
pub proof fn query_follows_the_first_question_mark(path: Seq<char>, query: Seq<char>)
    requires
        path.len() > 0,
        !path.contains('?'),
    ensures
        path_part(path + seq!['?'] + query) == path,
        query_part(path + seq!['?'] + query) == Some(query),
        path_part(path) == path,
        query_part(path) is None,
{
    let all = path + seq!['?'] + query;
    first_question_mark(path, query);
    assert(all.take(path.len() as int) == path);
    assert(all.skip(path.len() as int + 1) == query);
    assert(path.take(path.len() as int) == path);
}

proof fn first_question_mark(path: Seq<char>, query: Seq<char>)
    requires
        !path.contains('?'),
    ensures
        index_of(path + seq!['?'] + query, '?') == path.len(),
        index_of(path, '?') == path.len(),
    decreases path.len(),
{
    let all = path + seq!['?'] + query;
    if path.len() > 0 {
        let rest = path.skip(1);
        assert(path.contains(path[0]));
        assert(all[0] == path[0]);
        assert(all.skip(1) == rest + seq!['?'] + query);
        assert(!rest.contains('?')) by {
            if rest.contains('?') {
                let i = choose|i: int| 0 <= i < rest.len() && rest[i] == '?';
                assert(path[i + 1] == '?');
            }
        }
        first_question_mark(rest, query);
    } else {
        assert(all[0] == '?');
    }
}

} // verus!
