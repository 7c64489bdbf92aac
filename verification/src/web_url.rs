use vstd::prelude::*;

use crate::text::ascii_lower;

verus! {

/// The `url` crate's URL type, opaque to proofs.
#[verifier::external_type_specification]
#[verifier::external_body]
pub struct ExUrl(url::Url);

/// The serialization of the URL that `url::Url::parse` reads from a text,
/// or the text of its parse error.
pub uninterp spec fn url_parsed(text: Seq<char>) -> Result<Seq<char>, Seq<char>>;

/// `Url::scheme` of the URL with a given serialization.
pub uninterp spec fn url_scheme(url: Seq<char>) -> Seq<char>;

/// `Url::host_str` of the URL with a given serialization.
pub uninterp spec fn url_host(url: Seq<char>) -> Option<Seq<char>>;

/// `Url::port` of the URL with a given serialization.
pub uninterp spec fn url_port(url: Seq<char>) -> Option<u16>;

/// `Url::username` of the URL with a given serialization.
pub uninterp spec fn url_username(url: Seq<char>) -> Seq<char>;

/// `Url::password` of the URL with a given serialization.
pub uninterp spec fn url_password(url: Seq<char>) -> Option<Seq<char>>;

/// `Url::query` of the URL with a given serialization.
pub uninterp spec fn url_query(url: Seq<char>) -> Option<Seq<char>>;

/// `Url::fragment` of the URL with a given serialization.
pub uninterp spec fn url_fragment(url: Seq<char>) -> Option<Seq<char>>;

/// The serialization after `Url::set_query`.
pub uninterp spec fn url_with_query(url: Seq<char>, query: Option<Seq<char>>) -> Seq<char>;

/// The decoded names of the pairs that `Url::query_pairs` reads, in order.
pub uninterp spec fn url_query_names(url: Seq<char>) -> Seq<Seq<char>>;

/// The serialization after `Url::query_pairs_mut().append_pair(name, value)`.
pub uninterp spec fn url_with_pair(url: Seq<char>, name: Seq<char>, value: Seq<char>) -> Seq<char>;

/// Whether every character is ASCII and none is an uppercase letter.
pub open spec fn lowercase_ascii(s: Seq<char>) -> bool {
    &&& forall|i: int| 0 <= i < s.len() ==> (#[trigger] s[i]) < 128
    &&& ascii_lower(s) == s
}

/// The host of an http or https URL as the `url` crate writes it: not
/// empty, lowercase ASCII, and free of `/`, `?`, `#` and `@`.
pub open spec fn web_host(h: Seq<char>) -> bool {
    &&& h.len() > 0
    &&& lowercase_ascii(h)
    &&& forall|i: int| 0 <= i < h.len() ==> (#[trigger] h[i]) != '/' && h[i] != '?' && h[i] != '#' && h[i] != '@'
}

/// An absolute URL as the `url` crate holds it. Its view is its
/// serialization, which determines every part of it.
#[derive(Debug)]
pub struct WebUrl {
    text: String,
    url: url::Url,
}

impl View for WebUrl {
    type V = Seq<char>;

    closed spec fn view(&self) -> Seq<char> {
        self.text@
    }
}

impl Clone for WebUrl {
    /// `Url::clone`; the copy has the same serialization.
    #[verifier::external_body]
    fn clone(&self) -> (copy: Self)
        ensures
            copy@ == self@,
    {
        WebUrl { text: self.text.clone(), url: self.url.clone() }
    }
}

impl WebUrl {
    /// The serialization, such as `https://example.com/path?q=1`.
    pub fn as_str(&self) -> (text: &str)
        ensures
            text@ == self@,
    {
        self.text.as_str()
    }

    /// Parses an absolute URL (`url::Url::parse`); the error is the parse
    /// error's text.
    #[verifier::external_body]
    pub(crate) fn parse(text: &str) -> (parsed: Result<WebUrl, String>)
        ensures
            match parsed {
                Ok(u) => url_parsed(text@) == Ok::<Seq<char>, Seq<char>>(u@),
                Err(e) => url_parsed(text@) == Err::<Seq<char>, Seq<char>>(e@),
            },
    {
        match url::Url::parse(text) {
            Ok(url) => Ok(WebUrl { text: url.as_str().to_owned(), url }),
            Err(error) => Err(error.to_string()),
        }
    }

    /// `Url::scheme`: lowercase ASCII, as its documentation promises.
    #[verifier::external_body]
    pub(crate) fn scheme(&self) -> (scheme: String)
        ensures
            scheme@ == url_scheme(self@),
            lowercase_ascii(scheme@),
    {
        self.url.scheme().to_owned()
    }

    /// `Url::host_str`: the host, if the URL has one. For an http or https
    /// URL it is the host as parsing wrote it: a domain mapped to lowercase
    /// ASCII (IDNA), with none of the characters the URL deny list refuses,
    /// an IPv4 address in dotted decimal, or a bracketed IPv6 address in
    /// lowercase hexadecimal; never empty.
    #[verifier::external_body]
    pub(crate) fn host_str(&self) -> (host: Option<String>)
        ensures
            match host {
                Some(h) => url_host(self@) == Some(h@),
                None => url_host(self@) is None,
            },
            (url_scheme(self@) == "http"@ || url_scheme(self@) == "https"@) ==> (host matches Some(h) ==> web_host(
                h@,
            )),
    {
        self.url.host_str().map(str::to_owned)
    }

    /// `Url::port`: the port, unless it is absent or the scheme's default;
    /// the default ports, 80 for http and 443 for https, are never kept.
    #[verifier::external_body]
    pub(crate) fn port(&self) -> (port: Option<u16>)
        ensures
            port == url_port(self@),
            url_scheme(self@) == "http"@ ==> port != Some(80u16),
            url_scheme(self@) == "https"@ ==> port != Some(443u16),
    {
        self.url.port()
    }

    /// `Url::username`.
    #[verifier::external_body]
    pub(crate) fn username(&self) -> (name: String)
        ensures
            name@ == url_username(self@),
    {
        self.url.username().to_owned()
    }

    /// `Url::password`.
    #[verifier::external_body]
    pub(crate) fn password(&self) -> (password: Option<String>)
        ensures
            match password {
                Some(p) => url_password(self@) == Some(p@),
                None => url_password(self@) is None,
            },
    {
        self.url.password().map(str::to_owned)
    }

    /// `Url::query`.
    #[verifier::external_body]
    pub(crate) fn query(&self) -> (query: Option<String>)
        ensures
            match query {
                Some(q) => url_query(self@) == Some(q@),
                None => url_query(self@) is None,
            },
    {
        self.url.query().map(str::to_owned)
    }

    /// `Url::fragment`.
    #[verifier::external_body]
    pub(crate) fn fragment(&self) -> (fragment: Option<String>)
        ensures
            match fragment {
                Some(f) => url_fragment(self@) == Some(f@),
                None => url_fragment(self@) is None,
            },
    {
        self.url.fragment().map(str::to_owned)
    }

    /// `Url::set_query`.
    #[verifier::external_body]
    pub(crate) fn set_query(&mut self, query: Option<&str>)
        ensures
            final(self)@ == url_with_query(
                old(self)@,
                match query {
                    Some(q) => Some(q@),
                    None => None,
                },
            ),
    {
        self.url.set_query(query);
        self.text = self.url.as_str().to_owned();
    }

    /// The names of `Url::query_pairs`, decoded, in order.
    #[verifier::external_body]
    pub(crate) fn query_pair_names(&self) -> (names: Vec<String>)
        ensures
            crate::text::texts(names@) == url_query_names(self@),
    {
        self.url.query_pairs().map(|(name, _)| name.into_owned()).collect()
    }

    /// `Url::query_pairs_mut().append_pair(name, value)`.
    #[verifier::external_body]
    pub(crate) fn append_pair(&mut self, name: &str, value: &str)
        ensures
            final(self)@ == url_with_pair(old(self)@, name@, value@),
    {
        self.url.query_pairs_mut().append_pair(name, value);
        self.text = self.url.as_str().to_owned();
    }
}

} // verus!
