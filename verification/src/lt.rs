//! The LanguageTool side: the requests and results of checks, the matches
//! they report, and the LanguageTool server that checks are sent to.

use std::sync::Arc;

use vstd::prelude::*;

use crate::text::{decimal, decimal_string};

verus! {

/// `url::ParseError`, carried as an opaque value.
#[verifier::external_type_specification]
#[verifier::external_body]
pub struct ExUrlParseError(url::ParseError);

/// A text to check, the language to check it in, and the checksum that
/// identifies the text.
#[derive(Clone, Debug)]
pub struct QueryRequest {
    pub language: String,
    pub text: String,
    pub text_checksum: u64,
}

/// Where a match sits in the checked text: line and offset in the line.
#[derive(Clone, Copy, Debug, PartialEq, Eq, Structural)]
pub struct MoreContext {
    pub line_number: usize,
    pub line_offset: usize,
}

/// A grammar or spelling issue that LanguageTool reported. `origin` names
/// the full LanguageTool match that this stands for in the caller's store;
/// the library reads and moves only the rule and the position.
#[derive(Clone, Debug)]
pub struct Match {
    pub origin: usize,
    pub rule_id: String,
    pub more_context: Option<MoreContext>,
}

impl Match {
    /// A copy of this match.
    pub fn duplicate(&self) -> (r: Match)
        ensures
            r == *self,
    {
        Match {
            origin: self.origin,
            rule_id: self.rule_id.clone(),
            more_context: self.more_context,
        }
    }
}

/// A copy of a list of matches.
pub fn duplicate_matches(matches: &Vec<Match>) -> (r: Vec<Match>)
    ensures
        r@ == matches@,
{
    let mut r: Vec<Match> = Vec::new();
    let mut i: usize = 0;
    while i < matches.len()
        invariant
            i <= matches@.len(),
            r@ == matches@.take(i as int),
        decreases matches@.len() - i,
    {
        r.push(matches[i].duplicate());
        proof {
            assert(matches@.take(i + 1) =~= matches@.take(i as int).push(matches@[i as int]));
        }
        i = i + 1;
    }
    proof {
        assert(matches@.take(i as int) =~= matches@);
    }
    r
}

/// The matches of a checked text, and the checksum of that text.
#[derive(Clone, Debug)]
pub struct QueryResult {
    pub text_checksum: u64,
    pub matches: Vec<Match>,
}

/// Matches are reported unless they are about whitespace, which code
/// comments are naturally full of.
pub open spec fn is_reported(m: Match) -> bool {
    m.rule_id@ != "WHITESPACE_RULE"@
}

/// The reported matches of a list, in order.
pub open spec fn reported_matches(matches: Seq<Match>) -> Seq<Match>
    decreases matches.len(),
{
    if matches.len() == 0 {
        seq![]
    } else {
        let rest = reported_matches(matches.drop_last());
        if is_reported(matches.last()) {
            rest.push(matches.last())
        } else {
            rest
        }
    }
}

/// Law: no match about whitespace is reported, and every other match is.
pub proof fn law_whitespace_matches_dropped(matches: Seq<Match>)
    ensures
        forall|i: int|
            0 <= i < reported_matches(matches).len() ==> is_reported(
                #[trigger] reported_matches(matches)[i],
            ),
        forall|i: int|
            0 <= i < matches.len() && is_reported(#[trigger] matches[i]) ==> reported_matches(
                matches,
            ).contains(matches[i]),
    decreases matches.len(),
{
    if matches.len() > 0 {
        let prefix = matches.drop_last();
        law_whitespace_matches_dropped(prefix);
        let out = reported_matches(matches);
        assert forall|i: int|
            0 <= i < matches.len() && is_reported(#[trigger] matches[i]) implies out.contains(
            matches[i],
        ) by {
            if i < matches.len() - 1 {
                assert(prefix[i] == matches[i]);
                let k = choose|k: int|
                    0 <= k < reported_matches(prefix).len() && reported_matches(prefix)[k]
                        == prefix[i];
                assert(out[k] == matches[i]);
            } else {
                assert(out[out.len() - 1] == matches[i]);
            }
        }
    }
}

/// Law: a match is dropped exactly when its rule is `WHITESPACE_RULE`.
/// What is reported is the list of matches whose rule id differs from
/// `WHITESPACE_RULE`, in their order; every other rule, whatever its name,
/// is kept.
pub proof fn law_only_whitespace_rule_dropped(matches: Seq<Match>)
    ensures
        reported_matches(matches) == matches.filter(
            |m: Match| m.rule_id@ != "WHITESPACE_RULE"@,
        ),
    decreases matches.len(),
{
    reveal(Seq::filter);
    if matches.len() > 0 {
        law_only_whitespace_rule_dropped(matches.drop_last());
    }
}

/// Drops the matches about whitespace, keeping the others in order.
pub fn drop_whitespace_matches(matches: &Vec<Match>) -> (r: Vec<Match>)
    ensures
        r@ == reported_matches(matches@),
        r@ == matches@.filter(|m: Match| m.rule_id@ != "WHITESPACE_RULE"@),
{
    let mut r: Vec<Match> = Vec::new();
    let mut i: usize = 0;
    while i < matches.len()
        invariant
            i <= matches@.len(),
            r@ == reported_matches(matches@.take(i as int)),
        decreases matches@.len() - i,
    {
        proof {
            assert(matches@.take(i + 1).drop_last() =~= matches@.take(i as int));
        }
        if !crate::text::str_eq(matches[i].rule_id.as_str(), "WHITESPACE_RULE") {
            r.push(matches[i].duplicate());
        }
        i = i + 1;
    }
    proof {
        assert(matches@.take(i as int) =~= matches@);
        law_only_whitespace_rule_dropped(matches@);
    }
    r
}

/// The number of checks to run side by side: the requested concurrency,
/// but no more than there are requests.
pub fn worker_count(concurrency: usize, requests: usize) -> (n: usize)
    ensures
        n == if concurrency <= requests {
            concurrency
        } else {
            requests
        },
{
    if concurrency <= requests {
        concurrency
    } else {
        requests
    }
}

/// The parts of a URL that a client is made from.
#[derive(Clone, Debug)]
pub struct UrlParts {
    pub scheme: String,
    pub host: Option<String>,
    pub port: Option<u16>,
}

/// The mathematical value of `UrlParts`.
pub struct UrlPartsView {
    pub scheme: Seq<char>,
    pub host: Option<Seq<char>>,
    pub port: Option<u16>,
}

impl View for UrlParts {
    type V = UrlPartsView;

    open spec fn view(&self) -> UrlPartsView {
        UrlPartsView {
            scheme: self.scheme@,
            host: match self.host {
                Some(h) => Some(h@),
                None => None,
            },
            port: self.port,
        }
    }
}

/// Names what `url::Url::parse` gives for a text, seen through the URL's
/// `scheme()`, `host_str()` and `port()`: nothing when the text is not an
/// absolute URL.
pub uninterp spec fn spec_url_parse(input: Seq<char>) -> Option<UrlPartsView>;

/// Calls `url::Url::parse` and reads the scheme, host and port of the URL.
/// The contract ties the outcome to the input through `spec_url_parse`;
/// the URL grammar itself is not restated, and nothing is said of which
/// `ParseError` comes back.
#[verifier::external_body]
fn parse_url(input: &str) -> (r: Result<UrlParts, url::ParseError>)
    ensures
        match r {
            Ok(p) => spec_url_parse(input@) == Some(p@),
            Err(_) => spec_url_parse(input@) is None,
        },
{
    let parsed = url::Url::parse(input)?;
    Ok(
        UrlParts {
            scheme: parsed.scheme().to_string(),
            host: match parsed.host_str() {
                Some(h) => Some(h.to_string()),
                None => None,
            },
            port: parsed.port(),
        },
    )
}

/// The host and port a client talks to, from the parts of its URL:
/// `scheme://host`, and the port in decimal, or empty where the URL gives
/// none or gives 0.
pub open spec fn spec_endpoint(parts: UrlPartsView) -> (Seq<char>, Seq<char>) {
    let host = match parts.host {
        Some(h) => h,
        None => Seq::empty(),
    };
    let port = match parts.port {
        Some(p) => if p == 0 {
            Seq::empty()
        } else {
            decimal(p as nat)
        },
        None => Seq::empty(),
    };
    (parts.scheme + "://"@ + host, port)
}

/// Law: a client talks to the host of its URL with the URL's own scheme,
/// `scheme://host`, whether or not the URL gives a port; the port is empty
/// where the URL gives none or gives 0, and otherwise the port in decimal.
pub proof fn law_endpoint_keeps_scheme_and_host(parts: UrlPartsView, host: Seq<char>)
    requires
        parts.host == Some(host),
    ensures
        spec_endpoint(parts).0 == parts.scheme + "://"@ + host,
        parts.port is None ==> spec_endpoint(parts).1 == Seq::<char>::empty(),
        parts.port == Some(0u16) ==> spec_endpoint(parts).1 == Seq::<char>::empty(),
        forall|p: u16|
            parts.port == Some(p) && p != 0 ==> spec_endpoint(parts).1 == #[trigger] decimal(
                p as nat,
            ),
{
}

/// Law: the host a client talks to does not depend on the port of its URL.
pub proof fn law_hostname_ignores_port(a: UrlPartsView, b: UrlPartsView)
    requires
        a.scheme == b.scheme,
        a.host == b.host,
        a.host is Some,
    ensures
        spec_endpoint(a).0 == spec_endpoint(b).0,
{
    law_endpoint_keeps_scheme_and_host(a, a.host->0);
    law_endpoint_keeps_scheme_and_host(b, b.host->0);
}

/// The host and port a client talks to, for a URL that has a host.
pub fn client_endpoint(parts: &UrlParts) -> (r: (String, String))
    requires
        parts.host is Some,
    ensures
        (r.0@, r.1@) == spec_endpoint(parts@),
{
    let mut proto_host = parts.scheme.clone();
    proto_host.append("://");
    match &parts.host {
        Some(h) => proto_host.append(h.as_str()),
        None => {},
    }
    let port = match parts.port {
        Some(p) => if p == 0 {
            String::new()
        } else {
            decimal_string(p as u64)
        },
        None => String::new(),
    };
    (proto_host, port)
}

/// Why a client could not be made.
#[derive(Debug)]
pub enum ClientError {
    /// The text is not an absolute URL.
    InvalidUrl(url::ParseError),
    /// The URL has no host.
    MissingHost,
}

/// The LanguageTool server that checks are sent to: the host (with its
/// scheme) and the port that the server client is made from, as
/// `languagetool_rust::server::ServerClient::new(hostname, port)` takes
/// them; an empty port stands for the scheme's default.
pub struct Client {
    hostname: String,
    port: String,
}

/// The mathematical value of a `Client`: the host and port it talks to.
pub struct ClientView {
    pub hostname: Seq<char>,
    pub port: Seq<char>,
}

impl View for Client {
    type V = ClientView;

    closed spec fn view(&self) -> ClientView {
        ClientView { hostname: self.hostname@, port: self.port@ }
    }
}

impl Client {
    /// Makes the client of the server at `url`.
    pub fn new(url: &str) -> (r: Result<Arc<Self>, ClientError>)
        ensures
            match spec_url_parse(url@) {
                None => r matches Err(ClientError::InvalidUrl(_)),
                Some(parts) => match parts.host {
                    None => r matches Err(ClientError::MissingHost),
                    Some(h) => r matches Ok(c) && (c@.hostname, c@.port) == spec_endpoint(parts)
                        && c@.hostname == parts.scheme + "://"@ + h,
                },
            },
    {
        let parsed = match parse_url(url) {
            Ok(p) => p,
            Err(e) => {
                return Err(ClientError::InvalidUrl(e));
            },
        };
        if parsed.host.is_none() {
            return Err(ClientError::MissingHost);
        }
        let (proto_host, port) = client_endpoint(&parsed);
        Ok(Arc::new(Client { hostname: proto_host, port }))
    }

    /// The host the client talks to.
    pub fn hostname(&self) -> (h: &str)
        ensures
            h@ == self@.hostname,
    {
        self.hostname.as_str()
    }

    /// The port the client talks to (empty for the scheme's default).
    pub fn port(&self) -> (p: &str)
        ensures
            p@ == self@.port,
    {
        self.port.as_str()
    }
}

} // verus!
