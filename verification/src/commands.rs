//! The values the user interface receives and sends.
use vstd::prelude::*;
use base64::Engine;
use crate::broadcast::Selection;
use crate::paths::PROXY_PORT;
use crate::state::{public_name, Mode};

verus! {

/// The proxy's mode, in the user interface's spelling, and the selection.
#[derive(Debug, Clone)]
pub struct StatusResponse {
    mode: String,
    selected: Option<Selection>,
}

impl StatusResponse {
    /// The status for `mode` and `selected`.
    pub fn new(mode: Mode, selected: Option<Selection>) -> (r: StatusResponse)
        ensures
            r.mode()@ == public_name(mode),
            r.selected() == selected,
    {
        StatusResponse { mode: String::from_str(mode.as_public_str()), selected }
    }

    /// The mode's user-interface spelling.
    pub closed spec fn mode(self) -> String {
        self.mode
    }

    /// The selection.
    pub closed spec fn selected(self) -> Option<Selection> {
        self.selected
    }

    /// The mode's user-interface spelling.
    pub fn mode_name(&self) -> (r: &str)
        ensures
            r@ == self.mode()@,
    {
        self.mode.as_str()
    }

    /// The selection, if any.
    pub fn selection(&self) -> (r: &Option<Selection>)
        ensures
            *r == self.selected(),
    {
        &self.selected
    }
}

/// One emblem named by the user interface: a group and a slot.
#[derive(Debug, Clone)]
pub struct EmblemRef {
    /// The group directory.
    pub group: String,
    /// The slot number.
    pub slot: u32,
}

/// The address the console should use as its proxy.
#[derive(Debug, Clone)]
pub struct NetworkInfo {
    lan_ip: Option<String>,
    proxy_port: u16,
}

impl NetworkInfo {
    /// The network information for the LAN address found, if any.
    pub fn new(lan_ip: Option<String>) -> (r: NetworkInfo)
        ensures
            r.lan_ip() == lan_ip,
            r.proxy_port() == PROXY_PORT,
    {
        NetworkInfo { lan_ip, proxy_port: PROXY_PORT }
    }

    /// The LAN address.
    pub closed spec fn lan_ip(self) -> Option<String> {
        self.lan_ip
    }

    /// The proxy's port.
    pub closed spec fn proxy_port(self) -> u16 {
        self.proxy_port
    }

    /// The LAN address, if one was found.
    pub fn lan_ip_str(&self) -> (r: &Option<String>)
        ensures
            *r == self.lan_ip(),
    {
        &self.lan_ip
    }

    /// The port the proxy listens on.
    pub fn port(&self) -> (r: u16)
        ensures
            r == self.proxy_port(),
    {
        self.proxy_port
    }
}

/// The character of the standard base64 alphabet (RFC 4648) for `v` in `0..64`.
pub open spec fn base64_char(v: int) -> char {
    if v < 26 {
        (65 + v) as char
    } else if v < 52 {
        (97 + v - 26) as char
    } else if v < 62 {
        (48 + v - 52) as char
    } else if v == 62 {
        '+'
    } else {
        '/'
    }
}

/// Standard base64 with `=` padding (RFC 4648): each three bytes become four
/// characters of six bits each; a final one or two bytes are padded.
pub open spec fn base64_standard(b: Seq<u8>) -> Seq<char>
    decreases b.len(),
{
    if b.len() == 0 {
        Seq::empty()
    } else if b.len() == 1 {
        seq![base64_char(b[0] as int / 4), base64_char((b[0] as int % 4) * 16), '=', '=']
    } else if b.len() == 2 {
        seq![base64_char(b[0] as int / 4), base64_char((b[0] as int % 4) * 16 + b[1] as int / 16), base64_char((b[1] as int % 16) * 4), '=']
    } else {
        seq![
            base64_char(b[0] as int / 4),
            base64_char((b[0] as int % 4) * 16 + b[1] as int / 16),
            base64_char((b[1] as int % 16) * 4 + b[2] as int / 64),
            base64_char(b[2] as int % 64),
        ] + base64_standard(b.subrange(3, b.len() as int))
    }
}

/// `base64::engine::general_purpose::STANDARD.encode`: the contract states
/// the standard alphabet with padding, as the crate documents it. The call
/// panics when the encoded length overflows `usize`; `requires` rules that out.
#[verifier::external_body]
fn base64_encode(bytes: &[u8]) -> (r: String)
    requires
        bytes@.len() / 3 * 4 + (if bytes@.len() % 3 > 0 { 4int } else { 0int }) <= usize::MAX,
    ensures
        r@ == base64_standard(bytes@),
{
    base64::engine::general_purpose::STANDARD.encode(bytes)
}

/// A PNG image as a `data:` URL the user interface can show.
pub fn png_data_url(png: &[u8]) -> (r: String)
    requires
        png@.len() / 3 * 4 + (if png@.len() % 3 > 0 { 4int } else { 0int }) <= usize::MAX,
    ensures
        r@ == "data:image/png;base64,"@ + base64_standard(png@),
{
    let encoded = base64_encode(png);
    let mut url = String::from_str("data:image/png;base64,");
    url.append(encoded.as_str());
    url
}

} // verus!
