use vstd::prelude::*;
use vstd::string::StringExecFns;

verus! {

/// The parts of a parsed URL that a server address reads.
pub struct UrlParts {
    pub scheme: String,
    pub host: Option<String>,
    pub port: Option<u16>,
    pub path: String,
    pub username: String,
    pub password: Option<String>,
}

pub open spec fn opt_view(o: Option<String>) -> Option<Seq<char>> {
    match o {
        Some(s) => Some(s@),
        None => None,
    }
}

/// The parts of a parsed URL as plain values: scheme, host, port, path,
/// user name and password.
pub type UrlPartsView = (Seq<char>, Option<Seq<char>>, Option<u16>, Seq<char>, Seq<char>, Option<
    Seq<char>,
>);

pub open spec fn parts_view(p: UrlParts) -> UrlPartsView {
    (p.scheme@, opt_view(p.host), p.port, p.path@, p.username@, opt_view(p.password))
}

/// What `url::Url::parse` makes of a text: its parts, or, when it fails,
/// whether the failure is `RelativeUrlWithoutBase` (a text with no scheme).
pub uninterp spec fn url_parse_of(s: Seq<char>) -> Result<UrlPartsView, bool>;

/// Relies on `url::Url::parse` and on the accessors `scheme`, `host_str`,
/// `port`, `path`, `username` and `password` of the parsed URL; the result
/// depends on the text alone.
#[verifier::external_body]
fn parse_url_parts(s: &str) -> (r: Result<UrlParts, bool>)
    ensures
        match r {
            Ok(p) => url_parse_of(s@) == Ok::<UrlPartsView, bool>(parts_view(p)),
            Err(rel) => url_parse_of(s@) == Err::<UrlPartsView, bool>(rel),
        },
{
    match url::Url::parse(s) {
        Ok(u) => Ok(UrlParts {
            scheme: u.scheme().to_string(),
            host: u.host_str().map(String::from),
            port: u.port(),
            path: u.path().to_string(),
            username: u.username().to_string(),
            password: u.password().map(String::from),
        }),
        Err(e) => Err(matches!(e, url::ParseError::RelativeUrlWithoutBase)),
    }
}

/// Where to connect, and the password that keys the channel, if any.
pub struct ServerAddress {
    pub host: String,
    pub port: u16,
    pub password: Option<String>,
}

/// Why a server address was refused.
pub enum RemoteError {
    InvalidUrl,
    UnsupportedScheme(String),
    MissingHost,
    PathNotAllowed(String),
}

/// The text is `tcp`.
pub open spec fn is_tcp(s: Seq<char>) -> bool {
    s == seq!['t', 'c', 'p']
}

/// A path that the address may carry: none, or a single slash.
pub open spec fn is_bare_path(s: Seq<char>) -> bool {
    s.len() == 0 || s == seq!['/']
}

/// The password that the user part of an address gives: the URL's
/// password where there is one, else its user name if it is not empty.
pub open spec fn password_of(username: Seq<char>, password: Option<Seq<char>>) -> Option<Seq<char>> {
    match password {
        Some(p) => Some(p),
        None => if username.len() == 0 {
            None
        } else {
            Some(username)
        },
    }
}

/// `r` is the server address that URL parts `p` give, or the error they
/// give: the scheme must be `tcp`, a host must be there, and the path must be
/// empty or `/`; the port defaults to `default_port` and the password comes
/// from the user part.
pub open spec fn address_outcome(
    r: Result<ServerAddress, RemoteError>,
    p: UrlPartsView,
    default_port: u16,
) -> bool {
    if !is_tcp(p.0) {
        match r {
            Err(RemoteError::UnsupportedScheme(s)) => s@ == p.0,
            _ => false,
        }
    } else if p.1 is None {
        r is Err && r->Err_0 is MissingHost
    } else if !is_bare_path(p.3) {
        match r {
            Err(RemoteError::PathNotAllowed(s)) => s@ == p.3,
            _ => false,
        }
    } else {
        match r {
            Ok(a) => a.host@ == p.1->Some_0 && a.port == (match p.2 {
                Some(q) => q,
                None => default_port,
            }) && opt_view(a.password) == password_of(p.4, p.5),
            Err(_) => false,
        }
    }
}

/// Builds a server address from the parts of a parsed URL: the scheme must
/// be `tcp`, a host must be there, and the path must be empty or `/`. The
/// port defaults to `default_port`; the password comes from the user part.
pub fn server_address(
    scheme: String,
    host: Option<String>,
    port: Option<u16>,
    path: String,
    username: String,
    password: Option<String>,
    default_port: u16,
) -> (r: Result<ServerAddress, RemoteError>)
    ensures
        address_outcome(
            r,
            (scheme@, opt_view(host), port, path@, username@, opt_view(password)),
            default_port,
        ),
{
    let sb = scheme.as_str();
    let tcp = sb.unicode_len() == 3 && sb.get_char(0) == 't' && sb.get_char(1) == 'c' && sb.get_char(2) == 'p';
    assert(tcp == is_tcp(scheme@)) by {
        if sb@.len() == 3 {
            if tcp {
                assert(scheme@ =~= seq!['t', 'c', 'p']);
            }
        }
    }
    if !tcp {
        return Err(RemoteError::UnsupportedScheme(scheme));
    }
    let host = match host {
        Some(h) => h,
        None => {
            return Err(RemoteError::MissingHost);
        },
    };
    let pb = path.as_str();
    let bare = pb.unicode_len() == 0 || (pb.unicode_len() == 1 && pb.get_char(0) == '/');
    assert(bare == is_bare_path(path@)) by {
        if pb@.len() == 1 && bare {
            assert(path@ =~= seq!['/']);
        }
    }
    if !bare {
        return Err(RemoteError::PathNotAllowed(path));
    }
    let port = match port {
        Some(p) => p,
        None => default_port,
    };
    let password = match password {
        Some(p) => Some(p),
        None => {
            if username.unicode_len() == 0 {
                None
            } else {
                Some(username)
            }
        },
    };
    Ok(ServerAddress { host, port, password })
}

/// What `parse_server_url` returns for `server_url`: the address that its
/// URL parts give; a text with no scheme is read as `tcp://` followed by it;
/// a text that does not parse is an invalid URL.
pub open spec fn server_url_outcome(
    server_url: Seq<char>,
    default_port: u16,
    r: Result<ServerAddress, RemoteError>,
) -> bool {
    match url_parse_of(server_url) {
        Ok(p) => address_outcome(r, p, default_port),
        Err(true) => match url_parse_of("tcp://"@ + server_url) {
            Ok(p) => address_outcome(r, p, default_port),
            Err(_) => r is Err && r->Err_0 is InvalidUrl,
        },
        Err(false) => r is Err && r->Err_0 is InvalidUrl,
    }
}

/// Parses the address of a server, `tcp://[password@]host[:port][/]`; a text
/// with no scheme is read as a `tcp` address.
pub fn parse_server_url(server_url: &str, default_port: u16) -> (r: Result<
    ServerAddress,
    RemoteError,
>)
    ensures
        server_url_outcome(server_url@, default_port, r),
{
    let parts = match parse_url_parts(server_url) {
        Ok(p) => p,
        Err(relative) => {
            if relative {
                let full = String::from_str("tcp://").concat(server_url);
                match parse_url_parts(full.as_str()) {
                    Ok(p) => p,
                    Err(_) => {
                        return Err(RemoteError::InvalidUrl);
                    },
                }
            } else {
                return Err(RemoteError::InvalidUrl);
            }
        },
    };
    let UrlParts { scheme, host, port, path, username, password } = parts;
    server_address(scheme, host, port, path, username, password, default_port)
}

/// How one attempt to connect to a resolved address ended.
pub enum ConnectOutcome {
    Connected,
    /// A network error: the next address may still answer.
    IoError(String),
    /// Any other error, such as a wrong password: no retry.
    OtherError(String),
}

/// What to do after an attempt.
pub enum ConnectStep {
    Connected,
    TryAddress(usize),
    Fail(String),
}

/// Decides the next step after the attempt on address `index` of `count`:
/// network errors move on to the next address, other errors and the last
/// address's failure end the connection.
pub fn next_connect_step(index: usize, count: usize, outcome: ConnectOutcome) -> (r: ConnectStep)
    requires
        index < count,
    ensures
        match outcome {
            ConnectOutcome::Connected => r is Connected,
            ConnectOutcome::IoError(m) => if index + 1 < count {
                r == ConnectStep::TryAddress((index + 1) as usize)
            } else {
                r == ConnectStep::Fail(m)
            },
            ConnectOutcome::OtherError(m) => r == ConnectStep::Fail(m),
        },
{
    match outcome {
        ConnectOutcome::Connected => ConnectStep::Connected,
        ConnectOutcome::IoError(m) => {
            if index + 1 < count {
                ConnectStep::TryAddress(index + 1)
            } else {
                ConnectStep::Fail(m)
            }
        },
        ConnectOutcome::OtherError(m) => ConnectStep::Fail(m),
    }
}

} // verus!
