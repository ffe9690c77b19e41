//! Fixed names and addresses the application uses.
use vstd::prelude::*;

verus! {

/// Directory under the library that holds the selected emblem.
pub const ACTIVE_NAME: &'static str = "_active";
/// Address the proxy listens on.
pub const PROXY_HOST: &'static str = "0.0.0.0";
/// Port the proxy listens on.
pub const PROXY_PORT: u16 = 8080;
/// Part of the host name of the emblem storage service.
pub const TARGET_HOST_SUBSTR: &'static str = "ops2-ps3-cs.prod.demonware.net";

} // verus!
