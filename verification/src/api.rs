//! The pure edge of the HTTP front-end. The front-end itself (routing,
//! TLS, sockets) is an outside collaborator; what can be stated and
//! checked here is the request-level decision logic it feeds from.

use vstd::prelude::*;

verus! {

/// Whether a request carrying the given header names is authenticated:
/// exactly when an `Authorization` header is present.
pub fn is_authenticated(header_names: &Vec<String>) -> (r: bool)
    ensures
        r == exists|i: int|
            0 <= i < header_names@.len() && (#[trigger] header_names@[i])@ == "Authorization"@,
{
    let key = "Authorization".to_owned();
    let mut i: usize = 0;
    while i < header_names.len()
        invariant
            i <= header_names@.len(),
            key@ == "Authorization"@,
            forall|k: int| 0 <= k < i ==> (#[trigger] header_names@[k])@ != "Authorization"@,
        decreases header_names@.len() - i,
    {
        if header_names[i] == key {
            return true;
        }
        i = i + 1;
    }
    false
}

/// State for one WebSocket session of the front-end; the transport
/// around it lives outside the verified core.
pub struct MyWebSocket {}

impl MyWebSocket {
    pub fn new() -> MyWebSocket {
        MyWebSocket {  }
    }
}

} // verus!
