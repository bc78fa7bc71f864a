//! The addresses of dictionaries: `file://` for an image on disk, `http://`
//! and `https://` for a server.

use crate::util::{chars_to_string, str_equal};
use crate::wikit::RemoteDictionary;
use vstd::prelude::*;
use vstd::string::StringExecFns;

verus! {

/// The parts of an address, as plain values.
pub struct UriView {
    /// The scheme, such as `file` or `https`.
    pub scheme: Seq<char>,
    /// The host, where the address has one.
    pub host: Option<Seq<char>>,
    /// The port, where the address names one.
    pub port: Option<u16>,
    /// The user; empty where the address names none.
    pub username: Seq<char>,
    /// The password, where the address names one.
    pub password: Option<Seq<char>>,
}

/// The parts of an address.
#[derive(Debug)]
pub struct UriParts {
    /// The scheme, such as `file` or `https`.
    pub scheme: String,
    /// The host, where the address has one.
    pub host: Option<String>,
    /// The port, where the address names one.
    pub port: Option<u16>,
    /// The user; empty where the address names none.
    pub username: String,
    /// The password, where the address names one.
    pub password: Option<String>,
}

impl View for UriParts {
    type V = UriView;

    open spec fn view(&self) -> UriView {
        UriView {
            scheme: self.scheme@,
            host: match self.host {
                Some(host) => Some(host@),
                None => None,
            },
            port: self.port,
            username: self.username@,
            password: match self.password {
                Some(password) => Some(password@),
                None => None,
            },
        }
    }
}

/// The parts of the address `uri`; `None` where `uri` is no address.
pub uninterp spec fn uri_parts(uri: Seq<char>) -> Option<UriView>;

/// Calls `url::Url::parse` on `uri`, and `scheme`, `host_str`, `port`,
/// `username` and `password` on the address.
/// Trusted: the call fails exactly where `uri_parts` is `None`, and
/// otherwise returns the parts that it names.
#[verifier::external_body]
pub(crate) fn parse_uri(uri: &str) -> (parts: Option<UriParts>)
    ensures
        parts is Some <==> uri_parts(uri@) is Some,
        parts is Some ==> parts.unwrap()@ == uri_parts(uri@).unwrap(),
{
    let url = url::Url::parse(uri).ok()?;
    Some(
        UriParts {
            scheme: url.scheme().to_string(),
            host: url.host_str().map(|host| host.to_string()),
            port: url.port(),
            username: url.username().to_string(),
            password: url.password().map(|password| password.to_string()),
        },
    )
}

/// The character of the decimal digit `d`.
pub open spec fn digit_char(d: nat) -> char {
    if d == 0 {
        '0'
    } else if d == 1 {
        '1'
    } else if d == 2 {
        '2'
    } else if d == 3 {
        '3'
    } else if d == 4 {
        '4'
    } else if d == 5 {
        '5'
    } else if d == 6 {
        '6'
    } else if d == 7 {
        '7'
    } else if d == 8 {
        '8'
    } else {
        '9'
    }
}

/// The decimal digits of `n`, without leading zeros.
pub open spec fn decimal(n: nat) -> Seq<char>
    decreases n,
{
    if n < 10 {
        seq![digit_char(n)]
    } else {
        decimal(n / 10).push(digit_char(n % 10))
    }
}

/// The character of the decimal digit `d`.
fn digit(d: u16) -> (c: char)
    requires
        d < 10,
    ensures
        c == digit_char(d as nat),
{
    if d == 0 {
        '0'
    } else if d == 1 {
        '1'
    } else if d == 2 {
        '2'
    } else if d == 3 {
        '3'
    } else if d == 4 {
        '4'
    } else if d == 5 {
        '5'
    } else if d == 6 {
        '6'
    } else if d == 7 {
        '7'
    } else if d == 8 {
        '8'
    } else {
        '9'
    }
}

/// Writes `n` in decimal digits.
pub fn to_decimal(n: u16) -> (text: String)
    ensures
        text@ == decimal(n as nat),
{
    let mut digits: Vec<char> = Vec::new();
    if n >= 10000 {
        digits.push(digit(n / 10000));
    }
    if n >= 1000 {
        digits.push(digit(n / 1000 % 10));
    }
    if n >= 100 {
        digits.push(digit(n / 100 % 10));
    }
    if n >= 10 {
        digits.push(digit(n / 10 % 10));
    }
    digits.push(digit(n % 10));
    proof {
        reveal_with_fuel(decimal, 6);
        assert(digits@ =~= decimal(n as nat));
    }
    chars_to_string(digits.as_slice())
}

/// Where a dictionary is found.
#[derive(Debug)]
pub enum DictionaryAddress {
    /// On disk, in the file that the `file://` address names.
    Local(String),
    /// On a server.
    Remote(RemoteDictionary),
}

/// The address of the server that `parts` name: scheme, host and, where it
/// is named, the port.
pub open spec fn server_url(parts: UriView) -> Seq<char> {
    parts.scheme + "://"@ + parts.host.unwrap() + match parts.port {
        Some(port) => ":"@ + decimal(port as nat),
        None => Seq::empty(),
    }
}

/// Whether `parts` name a server: the scheme is `http` or `https`, and
/// there is a host.
pub open spec fn names_server(parts: UriView) -> bool {
    (parts.scheme == "http"@ || parts.scheme == "https"@) && parts.host is Some
}

/// Where a dictionary is found, as plain values.
pub enum AddressView {
    /// On disk, in the file that the address names.
    Local(Seq<char>),
    /// On a server: its address, and the user with the token.
    Remote(Seq<char>, Seq<char>, Seq<char>),
}

impl View for DictionaryAddress {
    type V = AddressView;

    open spec fn view(&self) -> AddressView {
        match self {
            DictionaryAddress::Local(file) => AddressView::Local(file@),
            DictionaryAddress::Remote(server) => AddressView::Remote(
                server.spec_url(),
                server.spec_user(),
                server.spec_token(),
            ),
        }
    }
}

/// Where the dictionary of the address `uri` with the parts `parts` is
/// found: on disk for the scheme `file`, on a server for `http` and `https`
/// with a host, and nowhere for any other address. The token of a server is
/// the password of the address, or empty.
pub open spec fn address_of(uri: Seq<char>, parts: UriView) -> Option<AddressView> {
    if parts.scheme == "file"@ {
        Some(AddressView::Local(uri))
    } else if names_server(parts) {
        Some(
            AddressView::Remote(
                server_url(parts),
                parts.username,
                match parts.password {
                    Some(password) => password,
                    None => Seq::empty(),
                },
            ),
        )
    } else {
        None
    }
}

/// An address or none, as plain values.
pub open spec fn address_view(address: Option<DictionaryAddress>) -> Option<AddressView> {
    match address {
        Some(address) => Some(address@),
        None => None,
    }
}

/// Tells from the parts of the address `uri` where its dictionary is found.
pub fn dictionary_address(uri: &str, parts: &UriParts) -> (address: Option<DictionaryAddress>)
    ensures
        address_view(address) == address_of(uri@, parts@),
{
    let scheme = parts.scheme.as_str();
    if str_equal(scheme, "file") {
        return Some(DictionaryAddress::Local(uri.to_owned()));
    }
    if !(str_equal(scheme, "http") || str_equal(scheme, "https")) {
        return None;
    }
    let host: &String = match &parts.host {
        Some(host) => host,
        None => {
            return None;
        },
    };
    let mut url: String = scheme.to_owned();
    url.append("://");
    url.append(host.as_str());
    if let Some(port) = parts.port {
        url.append(":");
        url.append(to_decimal(port).as_str());
    }
    let token: String = match &parts.password {
        Some(password) => password.clone(),
        None => String::new(),
    };
    proof {
        assert(url@ =~= server_url(parts@));
    }
    Some(DictionaryAddress::Remote(RemoteDictionary::new(url, parts.username.clone(), token)))
}

/// Tells from the address `uri` where its dictionary is found; nowhere
/// where `uri` is no address.
pub fn load_dictionary_from_uri(uri: &str) -> (address: Option<DictionaryAddress>)
    ensures
        address_view(address) == match uri_parts(uri@) {
            Some(parts) => address_of(uri@, parts),
            None => None,
        },
{
    match parse_uri(uri) {
        Some(parts) => dictionary_address(uri, &parts),
        None => None,
    }
}

} // verus!
