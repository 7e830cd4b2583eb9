use vstd::prelude::*;

use crate::connection_error::ConnectionError;
use crate::ids::{decimal, push_decimal};

verus! {

#[verifier::external_type_specification]
#[verifier::external_body]
pub struct ExParseError(url::ParseError);

/// Whether `s` parses as an absolute URL.
pub uninterp spec fn uri_parses(s: Seq<char>) -> bool;

/// The host of the URL that `s` parses to, if it has one.
pub uninterp spec fn uri_host(s: Seq<char>) -> Option<Seq<char>>;

/// The port of the URL that `s` parses to: the explicit one, or the scheme's default.
pub uninterp spec fn uri_port(s: Seq<char>) -> Option<u16>;

/// Relies on `url::Url::parse`, then on `Url::host_str` and
/// `Url::port_or_known_default` of the parsed URL (the explicit port, or 443
/// for `wss`): all three depend on the text alone.
#[verifier::external_body]
fn parse_uri(uri: &str) -> (r: Result<(Option<String>, Option<u16>), url::ParseError>)
    ensures
        r is Ok <==> uri_parses(uri@),
        r matches Ok(p) ==> (p.0 is Some <==> uri_host(uri@) is Some) && (p.0 matches Some(h)
            ==> uri_host(uri@) == Some(h@)) && p.1 == uri_port(uri@),
{
    url::Url::parse(uri).map(|u| (u.host_str().map(String::from), u.port_or_known_default()))
}

/// Relies on the `Debug` form of `url::ParseError`, used as the reason text.
#[verifier::external_body]
fn parse_error_text(e: &url::ParseError) -> (r: String) {
    format!("{:?}", e)
}

/// The destination of a connection.
#[derive(Debug, Clone)]
pub struct Target {
    pub host: String,
    pub port: u16,
}

/// The `host:port` text that the transport is opened with.
pub open spec fn host_port_text(host: Seq<char>, port: nat) -> Seq<char> {
    host + seq![':'] + decimal(port)
}

/// The start of the reason given for a text that does not parse.
pub open spec fn invalid_uri_prefix() -> Seq<char> {
    "invalid uri: "@
}

/// The reason given for a URI without a host.
pub open spec fn no_host_text() -> Seq<char> {
    "bad connect host"@
}

/// The reason given for a URI without a port that can be resolved.
pub open spec fn no_port_text() -> Seq<char> {
    "bad connect port"@
}

impl Target {
    /// The `host:port` text of the destination.
    pub fn host_port(&self) -> (r: String)
        ensures
            r@ == host_port_text(self.host@, self.port as nat),
    {
        proof {
            reveal_strlit(":");
        }
        let mut s = self.host.clone();
        s.append(":");
        push_decimal(&mut s, self.port as u64);
        s
    }

    /// The destination with the given host and port, or the reason why there is none.
    pub fn from_parts(host: Option<String>, port: Option<u16>) -> (r: Result<Target, ConnectionError>)
        ensures
            r is Ok <==> host is Some && port is Some,
            r matches Ok(t) ==> t.host@ == host->0@ && t.port == port->0,
            host is None ==> (r matches Err(e) && e.0@ == no_host_text()),
            host is Some && port is None ==> (r matches Err(e) && e.0@ == no_port_text()),
    {
        match host {
            None => Err(ConnectionError(String::from_str("bad connect host"))),
            Some(h) => match port {
                None => Err(ConnectionError(String::from_str("bad connect port"))),
                Some(p) => Ok(Target { host: h, port: p }),
            },
        }
    }

    /// Parses `uri` and resolves its host and port; the port falls back to the
    /// scheme's default.
    pub fn resolve(uri: &str) -> (r: Result<Target, ConnectionError>)
        ensures
            r is Ok <==> uri_parses(uri@) && uri_host(uri@) is Some && uri_port(uri@) is Some,
            !uri_parses(uri@) ==> (r matches Err(e) && e.0@.len() >= 13 && e.0@.subrange(0, 13)
                == invalid_uri_prefix()),
            r matches Ok(t) ==> uri_host(uri@) == Some(t.host@) && uri_port(uri@) == Some(t.port),
            uri_parses(uri@) && uri_host(uri@) is None ==> (r matches Err(e) && e.0@
                == no_host_text()),
            uri_parses(uri@) && uri_host(uri@) is Some && uri_port(uri@) is None ==> (r matches Err(
                e,
            ) && e.0@ == no_port_text()),
    {
        match parse_uri(uri) {
            Err(e) => {
                proof {
                    reveal_strlit("invalid uri: ");
                }
                let mut text = String::from_str("invalid uri: ");
                let reason = parse_error_text(&e);
                text.append(reason.as_str());
                assert(text@.subrange(0, 13) =~= invalid_uri_prefix());
                Err(ConnectionError(text))
            },
            Ok(parts) => Target::from_parts(parts.0, parts.1),
        }
    }
}

} // verus!
