//! The conversation with the strategy service: addresses, requests and replies.
//!
//! - port 5556 publishes ticks and account updates
//! - port 5557 answers requests
//! - port 5558 pushes the results of orders that were accepted as pending
use vstd::prelude::*;
use serde_json::Value;
use crate::json;

verus! {

/// A request.
#[derive(Debug)]
pub struct BridgeInfo {
    pub req_id: String,
    pub method: String,
    pub params: Option<Value>,
}

/// The answer to a request.
#[derive(Debug)]
pub struct BridgeResponse {
    pub req_id: Option<String>,
    pub status: String,
    pub data: Option<Value>,
    pub message: Option<String>,
}

/// A published message.
#[derive(Debug)]
pub enum BridgeMessage {
    Tick { data: Value },
    Account { data: Value },
}

/// Result of an order that was executed in the background.
#[derive(Debug)]
pub struct AsyncExecResult {
    pub req_id: String,
    pub status: String,
    pub data: Option<Value>,
    pub message: Option<String>,
}

/// Why a request brought no answer.
#[derive(Debug)]
pub enum BridgeFault {
    Disconnected,
    NotQueued,
    SendFailed { cause: String },
    ReceiveFailed { cause: String },
    ReplyTimeout,
    InvalidReply { text: String },
    RequestTimeout { method: String },
}

/// The text for each fault.
pub open spec fn fault_text(fault: BridgeFault) -> Seq<char> {
    match fault {
        BridgeFault::Disconnected => "Bridge is disconnected"@,
        BridgeFault::NotQueued => "Failed to send order to ZMQ thread"@,
        BridgeFault::SendFailed { cause } => "ZMQ REQ send error: "@ + cause@,
        BridgeFault::ReceiveFailed { cause } => "ZMQ REQ recv error: "@ + cause@,
        BridgeFault::ReplyTimeout => "ZMQ REQ timeout (5s)"@,
        BridgeFault::InvalidReply { text } => "Invalid JSON response: "@ + text@,
        BridgeFault::RequestTimeout { method } => "Request timeout for method "@ + method@,
    }
}

impl BridgeFault {
    /// The fault in words.
    pub fn describe(&self) -> (r: String)
        ensures
            r@ == fault_text(*self),
    {
        match self {
            BridgeFault::Disconnected => "Bridge is disconnected".to_owned(),
            BridgeFault::NotQueued => "Failed to send order to ZMQ thread".to_owned(),
            BridgeFault::SendFailed { cause } => "ZMQ REQ send error: ".to_owned().concat(
                cause.as_str(),
            ),
            BridgeFault::ReceiveFailed { cause } => "ZMQ REQ recv error: ".to_owned().concat(
                cause.as_str(),
            ),
            BridgeFault::ReplyTimeout => "ZMQ REQ timeout (5s)".to_owned(),
            BridgeFault::InvalidReply { text } => "Invalid JSON response: ".to_owned().concat(
                text.as_str(),
            ),
            BridgeFault::RequestTimeout { method } =>
                "Request timeout for method ".to_owned().concat(method.as_str()),
        }
    }
}

/// The addresses of the service's sockets.
#[derive(Debug)]
pub struct Endpoints {
    /// Ticks and account updates.
    pub publisher: String,
    /// Requests.
    pub requests: String,
    /// Results of orders executed in the background.
    pub results: String,
}

/// Where the first colon stands, or the length of a text without one.
pub open spec fn first_colon(text: Seq<char>) -> int
    decreases text.len(),
{
    if text.len() == 0 || text[0] == ':' {
        0
    } else {
        1 + first_colon(text.drop_first())
    }
}

/// What stands before the first colon.
pub open spec fn host_of(addr: Seq<char>) -> Seq<char> {
    addr.take(first_colon(addr))
}

proof fn lemma_first_colon(text: Seq<char>, n: int)
    requires
        0 <= n <= text.len(),
        forall|i: int| 0 <= i < n ==> text[i] != ':',
        n < text.len() ==> text[n] == ':',
    ensures
        first_colon(text) == n,
    decreases n,
{
    if n > 0 {
        lemma_first_colon(text.drop_first(), n - 1);
    }
}

proof fn lemma_first_colon_is_first(text: Seq<char>)
    ensures
        0 <= first_colon(text) <= text.len(),
        forall|i: int| 0 <= i < first_colon(text) ==> #[trigger] text[i] != ':',
        first_colon(text) < text.len() ==> text[first_colon(text)] == ':',
    decreases text.len(),
{
    if text.len() > 0 && text[0] != ':' {
        let rest = text.drop_first();
        lemma_first_colon_is_first(rest);
        assert forall|i: int| 0 <= i < first_colon(text) implies #[trigger] text[i] != ':' by {
            if i > 0 {
                assert(rest[i - 1] != ':');
            }
        }
    }
}

/// The host is what stands before the first colon, and all of an address without one.
pub proof fn law_host_ends_at_the_first_colon(addr: Seq<char>)
    ensures
        host_of(addr).len() <= addr.len(),
        forall|i: int|
            0 <= i < host_of(addr).len() ==> #[trigger] host_of(addr)[i] == addr[i] && addr[i]
                != ':',
        host_of(addr).len() < addr.len() ==> addr[host_of(addr).len() as int] == ':',
{
    lemma_first_colon_is_first(addr);
}

fn endpoint(host: &str, port: &str) -> (r: String)
    ensures
        r@ == "tcp://"@ + host@ + ":"@ + port@,
{
    "tcp://".to_owned().concat(host).concat(":").concat(port)
}

/// The service's sockets on the host of `addr`. The port in `addr` is not used.
pub fn endpoints(addr: &str) -> (r: Endpoints)
    ensures
        r.publisher@ == "tcp://"@ + host_of(addr@) + ":"@ + "5556"@,
        r.requests@ == "tcp://"@ + host_of(addr@) + ":"@ + "5557"@,
        r.results@ == "tcp://"@ + host_of(addr@) + ":"@ + "5558"@,
{
    let n: usize = addr.unicode_len();
    let mut i: usize = 0;
    while i < n && addr.get_char(i) != ':'
        invariant
            i <= n,
            n == addr@.len(),
            forall|j: int| 0 <= j < i ==> addr@[j] != ':',
        decreases n - i,
    {
        i = i + 1;
    }
    proof {
        lemma_first_colon(addr@, i as int);
    }
    let host: &str = addr.substring_char(0, i);
    assert(host@ =~= host_of(addr@));
    Endpoints {
        publisher: endpoint(host, "5556"),
        requests: endpoint(host, "5557"),
        results: endpoint(host, "5558"),
    }
}

/// A lower-case hexadecimal digit.
pub open spec fn is_hex(c: char) -> bool {
    '0' <= c <= '9' || 'a' <= c <= 'f'
}

/// The text of a random UUID: 36 characters in five groups, with the version and the variant
/// in their places.
pub open spec fn is_request_id(id: Seq<char>) -> bool {
    &&& id.len() == 36
    &&& id[8] == '-' && id[13] == '-' && id[18] == '-' && id[23] == '-'
    &&& id[14] == '4'
    &&& id[19] == '8' || id[19] == '9' || id[19] == 'a' || id[19] == 'b'
    &&& forall|i: int|
        0 <= i < 36 && i != 8 && i != 13 && i != 18 && i != 23 ==> #[trigger] is_hex(id[i])
}

/// `uuid::Uuid::new_v4`, written out with its `Display`: a random id, of which the form alone
/// is claimed. It needs a source of random bytes from the system.
#[verifier::external_body]
fn fresh_id() -> (r: String)
    ensures
        is_request_id(r@),
{
    uuid::Uuid::new_v4().to_string()
}

impl BridgeInfo {
    /// A request with a new id, where the bridge is connected.
    pub fn prepare(connected: bool, method: &str, params: Option<Value>) -> (r: Result<
        BridgeInfo,
        BridgeFault,
    >)
        ensures
            r is Ok <==> connected,
            r is Err ==> r->Err_0 == BridgeFault::Disconnected,
            r is Ok ==> is_request_id(r->Ok_0.req_id@) && r->Ok_0.method@ == method@
                && r->Ok_0.params == params,
    {
        if !connected {
            return Err(BridgeFault::Disconnected);
        }
        Ok(BridgeInfo { req_id: fresh_id(), method: method.to_owned(), params })
    }
}

impl BridgeResponse {
    /// The service did what was asked, or is about to.
    pub open spec fn accepted(&self) -> bool {
        self.status@ == "ok"@ || self.status@ == "pending"@
    }

    /// What the request comes to: the data, with the status among its fields, or the
    /// service's message. Data that is no object is left out.
    pub open spec fn settles_to(&self, r: Result<Value, String>) -> bool {
        match r {
            Ok(answer) => {
                &&& self.accepted()
                &&& json::text_in(answer, "status"@) == Some(self.status@)
                &&& forall|key: Seq<char>|
                    key != "status"@ ==> #[trigger] json::member(answer, key) == match self.data {
                        Some(data) => json::member(data, key),
                        None => None::<Value>,
                    }
            },
            Err(text) => {
                &&& !self.accepted()
                &&& text@ == match self.message {
                    Some(message) => message@,
                    None => "unknown error"@,
                }
            },
        }
    }

    /// What the request comes to.
    pub fn settle(self) -> (r: Result<Value, String>)
        ensures
            self.settles_to(r),
    {
        if self.status == "ok".to_owned() || self.status == "pending".to_owned() {
            let mut object: serde_json::Map<String, Value> = match self.data {
                Some(data) => match json::into_object(data) {
                    Some(object) => object,
                    None => json::no_fields(),
                },
                None => json::no_fields(),
            };
            let ghost before = json::fields(object);
            let status: Value = json::from_text(self.status);
            json::set_field(&mut object, "status".to_owned(), status);
            let r: Value = json::from_object(object);
            proof {
                assert forall|key: Seq<char>| key != "status"@ implies #[trigger] json::member(
                    r,
                    key,
                ) == match self.data {
                    Some(data) => json::member(data, key),
                    None => None::<Value>,
                } by {
                    assert(json::lookup(json::fields(object), key) == json::lookup(before, key));
                }
            }
            Ok(r)
        } else {
            match self.message {
                Some(message) => Err(message),
                None => Err("unknown error".to_owned()),
            }
        }
    }
}

/// What a request comes to: the answer, where the service gave one and accepted, and else the
/// text of what went wrong.
pub fn conclude(outcome: Result<BridgeResponse, BridgeFault>) -> (r: Result<Value, String>)
    ensures
        match outcome {
            Ok(response) => response.settles_to(r),
            Err(fault) => r is Err && r->Err_0@ == fault_text(fault),
        },
{
    match outcome {
        Ok(response) => response.settle(),
        Err(fault) => Err(fault.describe()),
    }
}

} // verus!
