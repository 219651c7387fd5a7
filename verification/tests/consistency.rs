use eth_rpc_core::error::{are_errors_consistent, ProviderError, RpcError, TransportKind};

fn json_rpc(code: i64, message: &str) -> RpcError {
    RpcError::JsonRpc {
        code,
        message: message.to_string(),
    }
}

fn transport(kind: TransportKind, detail: &str) -> RpcError {
    RpcError::Transport(kind, detail.to_string())
}

#[test]
fn consistency_is_reflexive_for_every_variant() {
    let errors = vec![
        json_rpc(-32000, "x"),
        transport(TransportKind::Timeout, "deadline"),
        transport(TransportKind::HttpStatus, "503"),
        RpcError::Provider(ProviderError::ProviderNotFound),
    ];
    for e in &errors {
        assert!(are_errors_consistent(e, e));
    }
}

#[test]
fn consistency_is_symmetric() {
    let a = transport(TransportKind::Timeout, "a");
    let b = transport(TransportKind::Timeout, "b");
    let c = json_rpc(1, "y");
    assert_eq!(are_errors_consistent(&a, &b), are_errors_consistent(&b, &a));
    assert_eq!(are_errors_consistent(&a, &c), are_errors_consistent(&c, &a));
}

#[test]
fn json_rpc_errors_need_same_code_and_message() {
    assert!(are_errors_consistent(&json_rpc(-32000, "x"), &json_rpc(-32000, "x")));
    assert!(!are_errors_consistent(&json_rpc(-32000, "x"), &json_rpc(-32001, "x")));
    assert!(!are_errors_consistent(&json_rpc(-32000, "x"), &json_rpc(-32000, "y")));
}

#[test]
fn transport_errors_compare_by_kind_only() {
    assert!(are_errors_consistent(
        &transport(TransportKind::Timeout, "after 5s"),
        &transport(TransportKind::Timeout, "after 30s"),
    ));
    assert!(!are_errors_consistent(
        &transport(TransportKind::Timeout, "x"),
        &transport(TransportKind::ResponseTooLarge, "x"),
    ));
}

#[test]
fn transport_and_json_rpc_are_never_consistent() {
    assert!(!are_errors_consistent(
        &transport(TransportKind::Timeout, "x"),
        &json_rpc(-32000, "x"),
    ));
    assert!(!are_errors_consistent(
        &json_rpc(-32000, "x"),
        &transport(TransportKind::Timeout, "x"),
    ));
}
