//! Data model: the wire-level request and response shapes, and the per-client
//! record kept by the connection registry.

use crate::distinct::distinct_seq;
use vstd::prelude::*;

verus! {

/// An inbound client request: a method name and, for `sub` / `unsub`, the
/// resource names it applies to. `resources` is `None` when the request
/// carried no resource list.
pub struct WsRequest {
    pub method: String,
    pub resources: Option<Vec<String>>,
}

impl View for WsRequest {
    type V = (Seq<char>, Option<Seq<Seq<char>>>);

    /// The request as mathematical values: the method and, if present, the
    /// resource names as sequences of characters.
    open spec fn view(&self) -> Self::V {
        (
            self.method@,
            match self.resources {
                Some(rs) => Some(rs.deep_view()),
                None => None,
            },
        )
    }
}

/// An outbound acknowledgement: a status (`"ok"` or `"error"`) and a
/// human-readable message.
pub struct WsResponse {
    pub status: String,
    pub message: String,
}

/// A connected client: its process-unique identifier, the origin address it
/// connected from, and the set of resource names it has subscribed to.
pub struct Client {
    pub id: u64,
    pub ip: String,
    pub subscriptions: Vec<String>,
}

impl Client {
    /// The client's interest set: the resource names it is subscribed to.
    pub open spec fn interests(self) -> Set<Seq<char>> {
        self.subscriptions.deep_view().to_set()
    }

    /// The subscription list never holds the same resource name twice.
    pub open spec fn wf(self) -> bool {
        distinct_seq(self.subscriptions.deep_view())
    }
}

} // verus!
