//! JSON-RPC and Engine API method rules: which methods exist, what they
//! answer, the Engine API bearer-token check and the error codes.

use vstd::prelude::*;

use crate::text::{digits_of, push_digits, str_eq};
use crate::vectors::{digits_value, lemma_digits_value, plain_digit};

verus! {

/// What the RPC server answers from.
#[derive(Debug, Clone)]
pub struct RpcServerState {
    pub client_version: String,
    pub chain_id: u64,
    pub block_number: u64,
    pub engine_jwt: String,
}

impl Default for RpcServerState {
    fn default() -> (r: RpcServerState)
        ensures
            r.client_version@ == "reth2030/v0.1.0"@,
            r.chain_id == 1,
            r.block_number == 0,
            r.engine_jwt@ == "dev-jwt"@,
    {
        RpcServerState {
            client_version: String::from_str("reth2030/v0.1.0"),
            chain_id: 1,
            block_number: 0,
            engine_jwt: String::from_str("dev-jwt"),
        }
    }
}

/// A JSON-RPC error object.
#[derive(Debug, Clone, PartialEq, Eq)]
pub struct JsonRpcError {
    pub code: i64,
    pub message: String,
}

/// An error with `code` and `message`.
pub open spec fn rpc_error_is(e: JsonRpcError, code: int, message: Seq<char>) -> bool {
    e.code == code && e.message@ == message
}

impl JsonRpcError {
    fn with(code: i64, message: &str) -> (r: JsonRpcError)
        ensures
            rpc_error_is(r, code as int, message@),
    {
        JsonRpcError { code, message: String::from_str(message) }
    }

    /// The body is not JSON.
    pub fn parse_error() -> (r: JsonRpcError)
        ensures
            rpc_error_is(r, -32700, "Parse error"@),
    {
        JsonRpcError::with(-32700, "Parse error")
    }

    /// The body is JSON but not a request object.
    pub fn invalid_request() -> (r: JsonRpcError)
        ensures
            rpc_error_is(r, -32600, "Invalid request"@),
    {
        JsonRpcError::with(-32600, "Invalid request")
    }

    /// The request names a protocol version other than 2.0.
    pub fn invalid_version() -> (r: JsonRpcError)
        ensures
            rpc_error_is(r, -32600, "Invalid request: jsonrpc must be 2.0"@),
    {
        JsonRpcError::with(-32600, "Invalid request: jsonrpc must be 2.0")
    }

    /// The method does not exist.
    pub fn method_not_found() -> (r: JsonRpcError)
        ensures
            rpc_error_is(r, -32601, "Method not found"@),
    {
        JsonRpcError::with(-32601, "Method not found")
    }

    /// The Engine API bearer token is missing or wrong.
    pub fn unauthorized() -> (r: JsonRpcError)
        ensures
            rpc_error_is(r, -32001, "Engine API authorization failed"@),
    {
        JsonRpcError::with(-32001, "Engine API authorization failed")
    }
}

/// The result value of a successful call.
#[derive(Debug, Clone, PartialEq, Eq)]
pub enum RpcValue {
    /// A JSON string.
    Text(String),
    /// A JSON array of strings.
    TextList(Vec<String>),
    /// `{"payloadStatus": {"status": <status>}}`.
    PayloadStatus(String),
}

/// The abstract content of an `RpcValue`.
pub enum RpcValueView {
    Text(Seq<char>),
    TextList(Seq<Seq<char>>),
    PayloadStatus(Seq<char>),
}

impl View for RpcValue {
    type V = RpcValueView;

    open spec fn view(&self) -> RpcValueView {
        match self {
            RpcValue::Text(s) => RpcValueView::Text(s@),
            RpcValue::TextList(v) => RpcValueView::TextList(v@.map_values(|s: String| s@)),
            RpcValue::PayloadStatus(s) => RpcValueView::PayloadStatus(s@),
        }
    }
}

/// The outcome of a call: a value, or the error with its code and message.
pub enum RpcOutcome {
    Value(RpcValueView),
    Error(int, Seq<char>),
}

/// The view of a call's result.
pub open spec fn outcome_of(r: Result<RpcValue, JsonRpcError>) -> RpcOutcome {
    match r {
        Ok(v) => RpcOutcome::Value(v@),
        Err(e) => RpcOutcome::Error(e.code as int, e.message@),
    }
}

/// `0x` followed by the lowercase hexadecimal digits of `n`.
pub open spec fn hex_quantity_of(n: u64) -> Seq<char> {
    "0x"@ + digits_of(n as nat, 16)
}

/// `n` as a JSON-RPC quantity: `0x` and lowercase hex digits.
pub fn hex_quantity(n: u64) -> (r: String)
    ensures
        r@ == hex_quantity_of(n),
{
    let mut s = String::from_str("0x");
    push_digits(&mut s, n as u128, 16);
    s
}

/// What a public method answers.
pub open spec fn public_method_outcome(state: RpcServerState, method: Seq<char>) -> RpcOutcome {
    if method == "web3_clientVersion"@ {
        RpcOutcome::Value(RpcValueView::Text(state.client_version@))
    } else if method == "eth_chainId"@ {
        RpcOutcome::Value(RpcValueView::Text(hex_quantity_of(state.chain_id)))
    } else if method == "eth_blockNumber"@ {
        RpcOutcome::Value(RpcValueView::Text(hex_quantity_of(state.block_number)))
    } else {
        RpcOutcome::Error(-32601, "Method not found"@)
    }
}

/// The Engine API methods announced by `engine_exchangeCapabilities`.
pub open spec fn engine_capabilities() -> Seq<Seq<char>> {
    seq!["engine_newPayloadV3"@, "engine_forkchoiceUpdatedV3"@, "engine_getPayloadV3"@]
}

/// What an Engine API method answers to an authorized caller.
pub open spec fn engine_method_outcome(method: Seq<char>) -> RpcOutcome {
    if method == "engine_exchangeCapabilities"@ {
        RpcOutcome::Value(RpcValueView::TextList(engine_capabilities()))
    } else if method == "engine_forkchoiceUpdatedV3"@ {
        RpcOutcome::Value(RpcValueView::PayloadStatus("SYNCING"@))
    } else {
        RpcOutcome::Error(-32601, "Method not found"@)
    }
}

/// Whether an `Authorization` header value carries the expected bearer token.
pub open spec fn authorized(authorization: Seq<char>, expected_jwt: Seq<char>) -> bool {
    authorization == "Bearer "@ + expected_jwt
}

/// Answers a public method.
pub fn dispatch_public_method(state: &RpcServerState, method: &str) -> (r: Result<
    RpcValue,
    JsonRpcError,
>)
    ensures
        outcome_of(r) == public_method_outcome(*state, method@),
{
    if str_eq(method, "web3_clientVersion") {
        Ok(RpcValue::Text(state.client_version.clone()))
    } else if str_eq(method, "eth_chainId") {
        Ok(RpcValue::Text(hex_quantity(state.chain_id)))
    } else if str_eq(method, "eth_blockNumber") {
        Ok(RpcValue::Text(hex_quantity(state.block_number)))
    } else {
        Err(JsonRpcError::method_not_found())
    }
}

/// Answers an Engine API method for an authorized caller.
pub fn dispatch_engine_method(method: &str) -> (r: Result<RpcValue, JsonRpcError>)
    ensures
        outcome_of(r) == engine_method_outcome(method@),
{
    if str_eq(method, "engine_exchangeCapabilities") {
        let mut caps: Vec<String> = Vec::new();
        caps.push(String::from_str("engine_newPayloadV3"));
        caps.push(String::from_str("engine_forkchoiceUpdatedV3"));
        caps.push(String::from_str("engine_getPayloadV3"));
        let r = Ok(RpcValue::TextList(caps));
        assert(caps@.map_values(|s: String| s@) =~= engine_capabilities());
        r
    } else if str_eq(method, "engine_forkchoiceUpdatedV3") {
        Ok(RpcValue::PayloadStatus(String::from_str("SYNCING")))
    } else {
        Err(JsonRpcError::method_not_found())
    }
}

/// Whether `authorization` (empty when the header is absent or unreadable)
/// is `Bearer <expected_jwt>`.
pub fn is_engine_authorized(authorization: &str, expected_jwt: &str) -> (r: bool)
    ensures
        r == authorized(authorization@, expected_jwt@),
{
    let mut expected = String::from_str("Bearer ");
    expected.append(expected_jwt);
    str_eq(authorization, expected.as_str())
}

/// Answers an Engine API call: refused unless authorized, else dispatched.
pub fn handle_engine_call(state: &RpcServerState, authorization: &str, method: &str) -> (r: Result<
    RpcValue,
    JsonRpcError,
>)
    ensures
        outcome_of(r) == (if authorized(authorization@, state.engine_jwt@) {
            engine_method_outcome(method@)
        } else {
            RpcOutcome::Error(-32001, "Engine API authorization failed"@)
        }),
{
    if !is_engine_authorized(authorization, state.engine_jwt.as_str()) {
        return Err(JsonRpcError::unauthorized());
    }
    dispatch_engine_method(method)
}

/// Checks the protocol version a request names.
pub fn check_jsonrpc_version(version: &str) -> (r: Result<(), JsonRpcError>)
    ensures
        match r {
            Ok(_) => version@ == "2.0"@,
            Err(e) => version@ != "2.0"@ && rpc_error_is(
                e,
                -32600,
                "Invalid request: jsonrpc must be 2.0"@,
            ),
        },
{
    if str_eq(version, "2.0") {
        Ok(())
    } else {
        Err(JsonRpcError::invalid_version())
    }
}


/// Whether `t` is a JSON-RPC quantity for `n`: `0x` followed by lowercase
/// hexadecimal digits that read back, in base 16, as `n`.
pub open spec fn is_quantity_for(t: Seq<char>, n: nat) -> bool {
    &&& t.len() > 2
    &&& t.take(2) == "0x"@
    &&& forall|i: int| 2 <= i < t.len() ==> plain_digit(#[trigger] t[i])
    &&& digits_value(t.skip(2), 16) == Some(n)
}

proof fn lemma_hex_quantity_is_quantity(n: u64)
    ensures
        is_quantity_for(hex_quantity_of(n), n as nat),
{
    reveal_strlit("0x");
    let d = digits_of(n as nat, 16);
    lemma_digits_value(n as nat, 16);
    let t = hex_quantity_of(n);
    assert(t.take(2) =~= "0x"@);
    assert(t.skip(2) =~= d);
    assert forall|i: int| 2 <= i < t.len() implies plain_digit(#[trigger] t[i]) by {
        assert(t[i] == d[i - 2]);
    }
}

/// `eth_chainId` and `eth_blockNumber` answer JSON-RPC quantities: `0x` and
/// the lowercase hexadecimal digits of the chain id and of the block number.
pub proof fn lemma_public_quantities_read_back(state: RpcServerState)
    ensures
        public_method_outcome(state, "eth_chainId"@) matches RpcOutcome::Value(
            RpcValueView::Text(t),
        ) && is_quantity_for(t, state.chain_id as nat),
        public_method_outcome(state, "eth_blockNumber"@) matches RpcOutcome::Value(
            RpcValueView::Text(t),
        ) && is_quantity_for(t, state.block_number as nat),
{
    reveal_strlit("web3_clientVersion");
    reveal_strlit("eth_chainId");
    reveal_strlit("eth_blockNumber");
    assert("web3_clientVersion"@.len() == 18);
    assert("eth_chainId"@.len() == 11);
    assert("eth_blockNumber"@.len() == 15);
    assert("eth_chainId"@ != "web3_clientVersion"@);
    assert("eth_blockNumber"@ != "web3_clientVersion"@);
    assert("eth_blockNumber"@ != "eth_chainId"@);
    assert(public_method_outcome(state, "eth_chainId"@) == RpcOutcome::Value(
        RpcValueView::Text(hex_quantity_of(state.chain_id)),
    ));
    assert(public_method_outcome(state, "eth_blockNumber"@) == RpcOutcome::Value(
        RpcValueView::Text(hex_quantity_of(state.block_number)),
    ));
    lemma_hex_quantity_is_quantity(state.chain_id);
    lemma_hex_quantity_is_quantity(state.block_number);
}

} // verus!
