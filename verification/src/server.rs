use crate::error::ProxyError;
use vstd::prelude::*;
use vstd::string::StringExecFns;

verus! {

/// What goes back to the client.
#[derive(Debug)]
pub enum Reply {
    /// The upstream server's answer, as it came.
    Upstream,
    /// An answer of the proxy's own making.
    Failure {
        status: u16,
        body: String,
    },
}

/// The body of the answer that reports a failure.
pub open spec fn failure_body(e: &ProxyError) -> Seq<char> {
    "Proxy error: "@ + e.message_text()
}

/// Decides what goes back to the client for a request that was handled with
/// `outcome`: the upstream server's answer where there is one, else status
/// 500 with the failure's message. No failure is left without an answer.
pub fn handle_request(outcome: &Result<u16, ProxyError>) -> (reply: Reply)
    ensures
        match outcome {
            Ok(_) => reply is Upstream,
            Err(e) => reply is Failure && reply->status == 500 && reply->body@ == failure_body(e),
        },
{
    match outcome {
        Ok(_) => Reply::Upstream,
        Err(e) => Reply::Failure {
            status: 500,
            body: String::from_str("Proxy error: ").concat(e.message().as_str()),
        },
    }
}

} // verus!
