use vstd::prelude::*;

verus! {

/// One debugging target that the browser lists: where to open its debugger socket.
#[derive(Debug, Clone, PartialEq, Eq, Default)]
pub struct Root2 {
    pub web_socket_debugger_url: String,
}

} // verus!
