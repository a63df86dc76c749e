//! Which URLs the application lets in as Slack pages and which it hands to
//! the system browser.
//!
//! URLs are parsed by the `url` crate; the parts that the policy reads are
//! held as plain strings in [`UrlParts`].

use vstd::prelude::*;

use crate::downloads::opt_string_view;
use crate::text::{chars_eq_str, chars_of};

verus! {

/// The parts of a parsed URL that the policy reads, and its serialization.
pub struct UrlParts {
    scheme: String,
    host: Option<String>,
    username: String,
    password: Option<String>,
    href: String,
}

/// (scheme, host, username, password, serialization)
pub type UrlView = (Seq<char>, Option<Seq<char>>, Seq<char>, Option<Seq<char>>, Seq<char>);

impl View for UrlParts {
    type V = UrlView;

    closed spec fn view(&self) -> UrlView {
        (self.scheme@, opt_string_view(self.host), self.username@, opt_string_view(self.password), self.href@)
    }
}

impl UrlParts {
    /// The parts of a URL given by value, with the URL's serialization.
    pub fn from_parts(
        scheme: String,
        host: Option<String>,
        username: String,
        password: Option<String>,
        href: String,
    ) -> (r: Self)
        ensures
            r@ == (scheme@, opt_string_view(host), username@, opt_string_view(password), href@),
    {
        UrlParts { scheme, host, username, password, href }
    }

    pub fn scheme(&self) -> (r: &str)
        ensures
            r@ == self@.0,
    {
        self.scheme.as_str()
    }

    pub fn host_str(&self) -> (r: Option<&str>)
        ensures
            match r {
                Some(h) => self@.1 == Some(h@),
                None => self@.1 is None,
            },
    {
        match &self.host {
            Some(h) => Some(h.as_str()),
            None => None,
        }
    }

    pub fn username(&self) -> (r: &str)
        ensures
            r@ == self@.2,
    {
        self.username.as_str()
    }

    pub fn password(&self) -> (r: Option<&str>)
        ensures
            match r {
                Some(p) => self@.3 == Some(p@),
                None => self@.3 is None,
            },
    {
        match &self.password {
            Some(p) => Some(p.as_str()),
            None => None,
        }
    }

    /// The URL as the parser serialized it.
    pub fn as_str(&self) -> (r: &str)
        ensures
            r@ == self@.4,
    {
        self.href.as_str()
    }
}

/// What `url::Url::parse` makes of `input`, by the parts the policy reads:
/// `None` when the input is not a URL.
pub uninterp spec fn spec_url_parse(input: Seq<char>) -> Option<UrlView>;

/// Calls `url::Url::parse` and reads `scheme`, `host_str`, `username`,
/// `password` and `as_str` of the result. The claim is only that the outcome
/// is the named function of the input; the WHATWG parsing rules are the
/// crate's.
#[verifier::external_body]
fn url_parse(input: &str) -> (r: Option<UrlParts>)
    ensures
        match r {
            Some(u) => spec_url_parse(input@) == Some(u@),
            None => spec_url_parse(input@) is None,
        },
{
    match url::Url::parse(input) {
        Ok(url) => Some(UrlParts {
            scheme: url.scheme().to_string(),
            host: url.host_str().map(str::to_owned),
            username: url.username().to_string(),
            password: url.password().map(str::to_owned),
            href: url.as_str().to_string(),
        }),
        Err(_) => None,
    }
}

/// `slack.com` itself or one of its subdomains.
pub open spec fn is_slack_host(h: Seq<char>) -> bool {
    h == "slack.com"@ || (h.len() >= ".slack.com"@.len() && h.skip(h.len() - ".slack.com"@.len())
        == ".slack.com"@)
}

/// Neither a user name nor a password.
pub open spec fn credentials_absent(u: UrlView) -> bool {
    u.2.len() == 0 && u.3 is None
}

/// An HTTPS URL on a Slack host without credentials.
pub open spec fn slack_url_accepted(u: UrlView) -> bool {
    &&& u.0 == "https"@
    &&& u.1 matches Some(h) && is_slack_host(h)
    &&& credentials_absent(u)
}

/// An HTTP or HTTPS URL without credentials.
pub open spec fn external_url_accepted(u: UrlView) -> bool {
    (u.0 == "http"@ || u.0 == "https"@) && credentials_absent(u)
}

/// The outcome of a policy on the parse of an input.
pub open spec fn admitted(parsed: Option<UrlView>, accept: spec_fn(UrlView) -> bool) -> Option<UrlView> {
    match parsed {
        Some(u) => if accept(u) {
            Some(u)
        } else {
            None
        },
        None => None,
    }
}

pub open spec fn opt_url_view(o: Option<UrlParts>) -> Option<UrlView> {
    match o {
        Some(u) => Some(u@),
        None => None,
    }
}

fn ends_with_chars(v: &Vec<char>, suffix: &str) -> (b: bool)
    ensures
        b == (suffix@.len() <= v@.len() && v@.skip(v@.len() - suffix@.len()) == suffix@),
{
    let s = chars_of(suffix);
    if s.len() > v.len() {
        return false;
    }
    let off = v.len() - s.len();
    let mut i: usize = 0;
    while i < s.len()
        invariant
            s@ == suffix@,
            off + s@.len() == v@.len(),
            i <= s@.len(),
            forall|k: int| 0 <= k < i ==> v@[off + k] == s@[k],
        decreases s@.len() - i,
    {
        assert(off + i < v@.len() && v@.len() == v.len());
        if v[off + i] != s[i] {
            assert(v@.skip(off as int)[i as int] != s@[i as int]);
            return false;
        }
        i = i + 1;
    }
    assert(v@.skip(off as int) =~= s@);
    true
}

fn is_slack_host_exec(h: &str) -> (b: bool)
    ensures
        b == is_slack_host(h@),
{
    let v = chars_of(h);
    chars_eq_str(&v, "slack.com") || ends_with_chars(&v, ".slack.com")
}

fn credentials_absent_exec(u: &UrlParts) -> (b: bool)
    ensures
        b == credentials_absent(u@),
{
    u.username().unicode_len() == 0 && u.password().is_none()
}

/// The Slack-page policy applied to a parsed URL.
pub fn accept_slack_url(url: UrlParts) -> (r: Option<UrlParts>)
    ensures
        opt_url_view(r) == admitted(Some(url@), |u: UrlView| slack_url_accepted(u)),
{
    let https = chars_eq_str(&chars_of(url.scheme()), "https");
    let allowed_host = match url.host_str() {
        Some(h) => is_slack_host_exec(h),
        None => false,
    };
    if https && allowed_host && credentials_absent_exec(&url) {
        Some(url)
    } else {
        None
    }
}

/// The external-link policy applied to a parsed URL.
pub fn accept_external_url(url: UrlParts) -> (r: Option<UrlParts>)
    ensures
        opt_url_view(r) == admitted(Some(url@), |u: UrlView| external_url_accepted(u)),
{
    let scheme = chars_of(url.scheme());
    let allowed_scheme = chars_eq_str(&scheme, "http") || chars_eq_str(&scheme, "https");
    if allowed_scheme && credentials_absent_exec(&url) {
        Some(url)
    } else {
        None
    }
}

/// Parses `value` and keeps it only when it is an HTTPS URL on `slack.com`
/// or a subdomain of it, without credentials.
pub fn parse_slack_url(value: &str) -> (r: Option<UrlParts>)
    ensures
        opt_url_view(r) == admitted(spec_url_parse(value@), |u: UrlView| slack_url_accepted(u)),
{
    match url_parse(value) {
        Some(url) => accept_slack_url(url),
        None => None,
    }
}

/// Parses `value` and keeps it only when it is an HTTP or HTTPS URL
/// without credentials.
pub fn parse_external_url(value: &str) -> (r: Option<UrlParts>)
    ensures
        opt_url_view(r) == admitted(spec_url_parse(value@), |u: UrlView| external_url_accepted(u)),
{
    match url_parse(value) {
        Some(url) => accept_external_url(url),
        None => None,
    }
}

/// Why an external URL was not opened.
#[derive(Debug)]
pub enum OpenExternalUrlError {
    InvalidUrl,
    OpenFailed(String),
}

/// The serialized URL to hand to the system browser, or `InvalidUrl`.
pub fn external_url_target(url: &str) -> (r: Result<String, OpenExternalUrlError>)
    ensures
        match r {
            Ok(s) => admitted(spec_url_parse(url@), |u: UrlView| external_url_accepted(u))
                matches Some(u) && s@ == u.4,
            Err(e) => e is InvalidUrl && admitted(
                spec_url_parse(url@),
                |u: UrlView| external_url_accepted(u),
            ) is None,
        },
{
    match parse_external_url(url) {
        Some(u) => Ok(u.as_str().to_owned()),
        None => Err(OpenExternalUrlError::InvalidUrl),
    }
}

/// A Slack page is an `https` URL without user name or password whose host
/// is `slack.com` or a name ending in `.slack.com`; a plain `http` URL is
/// never one.
pub proof fn lemma_slack_url_rules(u: UrlView, sub: Seq<char>)
    ensures
        slack_url_accepted(u) <==> u.0 == "https"@ && (u.1 matches Some(h) && (h == "slack.com"@ || (
        h.len() >= 10 && h.skip(h.len() - 10) == ".slack.com"@))) && u.2.len() == 0 && u.3 is None,
        is_slack_host("slack.com"@),
        is_slack_host(sub + ".slack.com"@),
        u.0 == "http"@ ==> !slack_url_accepted(u),
{
    reveal_strlit(".slack.com");
    reveal_strlit("http");
    reveal_strlit("https");
    assert((sub + ".slack.com"@).skip((sub + ".slack.com"@).len() - 10) =~= ".slack.com"@);
    assert("http"@.len() != "https"@.len());
}

/// A link goes to the system browser only when its scheme is `http` or
/// `https` and it carries no user name or password.
pub proof fn lemma_external_url_rules(u: UrlView)
    ensures
        external_url_accepted(u) <==> (u.0 == "http"@ || u.0 == "https"@) && u.2.len() == 0 && u.3 is None,
{
}

/// Every URL let in as a Slack page would also be handed to the browser as
/// an external link: the Slack policy is the stricter one.
pub proof fn lemma_slack_policy_within_external(parsed: Option<UrlView>)
    ensures
        admitted(parsed, |u: UrlView| slack_url_accepted(u)) is Some ==> admitted(
            parsed,
            |u: UrlView| external_url_accepted(u),
        ) == admitted(parsed, |u: UrlView| slack_url_accepted(u)),
{
}

/// A Slack host is `slack.com` or ends in `.slack.com`, so a host that
/// merely ends in `slack.com` (such as `evilslack.com`) is refused.
pub proof fn lemma_lookalike_host_refused(h: Seq<char>)
    requires
        h != "slack.com"@,
        !(h.len() >= 10 && h[h.len() - 10] == '.'),
    ensures
        !is_slack_host(h),
{
    reveal_strlit(".slack.com");
    if is_slack_host(h) {
        assert(h.skip(h.len() - 10)[0] == '.');
    }
}

} // verus!
