use reth2030::rpc::{
    check_jsonrpc_version, dispatch_engine_method, dispatch_public_method, handle_engine_call,
    hex_quantity, is_engine_authorized, JsonRpcError, RpcServerState, RpcValue,
};

#[test]
fn public_methods_answer_from_server_state() {
    let state = RpcServerState::default();
    assert_eq!(
        dispatch_public_method(&state, "web3_clientVersion"),
        Ok(RpcValue::Text("reth2030/v0.1.0".to_string()))
    );
    assert_eq!(
        dispatch_public_method(&state, "eth_chainId"),
        Ok(RpcValue::Text("0x1".to_string()))
    );
    assert_eq!(
        dispatch_public_method(&state, "eth_blockNumber"),
        Ok(RpcValue::Text("0x0".to_string()))
    );
}

#[test]
fn unknown_public_method_is_method_not_found() {
    let state = RpcServerState::default();
    let err = dispatch_public_method(&state, "eth_unknown").expect_err("unknown method");
    assert_eq!(err.code, -32601);
    assert_eq!(err.message, "Method not found");
}

#[test]
fn quantities_are_lowercase_hex() {
    assert_eq!(hex_quantity(0), "0x0");
    assert_eq!(hex_quantity(255), "0xff");
    assert_eq!(hex_quantity(11_155_111), "0xaa36a7");
    assert_eq!(hex_quantity(u64::MAX), "0xffffffffffffffff");
}

#[test]
fn engine_calls_require_the_bearer_token() {
    let state = RpcServerState::default();
    let denied = handle_engine_call(&state, "", "engine_exchangeCapabilities")
        .expect_err("missing token");
    assert_eq!(denied, JsonRpcError::unauthorized());
    assert_eq!(denied.code, -32001);
    let wrong = handle_engine_call(&state, "Bearer other", "engine_exchangeCapabilities");
    assert_eq!(wrong, Err(JsonRpcError::unauthorized()));

    let caps = handle_engine_call(&state, "Bearer dev-jwt", "engine_exchangeCapabilities")
        .expect("authorized");
    assert_eq!(
        caps,
        RpcValue::TextList(vec![
            "engine_newPayloadV3".to_string(),
            "engine_forkchoiceUpdatedV3".to_string(),
            "engine_getPayloadV3".to_string(),
        ])
    );
}

#[test]
fn engine_methods_dispatch() {
    assert_eq!(
        dispatch_engine_method("engine_forkchoiceUpdatedV3"),
        Ok(RpcValue::PayloadStatus("SYNCING".to_string()))
    );
    assert_eq!(
        dispatch_engine_method("engine_newPayloadV3"),
        Err(JsonRpcError::method_not_found())
    );
    assert!(is_engine_authorized("Bearer dev-jwt", "dev-jwt"));
    assert!(!is_engine_authorized("bearer dev-jwt", "dev-jwt"));
}

#[test]
fn request_version_must_be_two_point_zero() {
    assert_eq!(check_jsonrpc_version("2.0"), Ok(()));
    let err = check_jsonrpc_version("1.0").expect_err("old version");
    assert_eq!(err.code, -32600);
    assert_eq!(err.message, "Invalid request: jsonrpc must be 2.0");
    assert_eq!(JsonRpcError::parse_error().code, -32700);
    assert_eq!(JsonRpcError::invalid_request().message, "Invalid request");
}
