use eth_rpc_core::client::{
    EthRpcClient, RpcConfig, HEADER_SIZE_LIMIT, MAINNET_BLOCK_SIZE_ESTIMATE,
    SEPOLIA_BLOCK_SIZE_ESTIMATE,
};
use eth_rpc_core::error::{ProviderError, RpcError, TransportKind};
use eth_rpc_core::network::{EthereumNetwork, MAINNET_CHAIN_ID, SEPOLIA_CHAIN_ID};
use eth_rpc_core::results::{JsonRpcResult, MultiCallResults, ProviderId};
use eth_rpc_core::sequential::{reduce_sequential, sequential_step, SequentialStep};

fn transport(kind: TransportKind, detail: &str) -> RpcError {
    RpcError::Transport(kind, detail.to_string())
}

#[test]
fn sequential_returns_first_ok_and_never_asks_the_rest() {
    // providers A, B, C; A fails, B answers, C must never be consulted
    let first: SequentialStep<u64> =
        sequential_step(Err(transport(TransportKind::Timeout, "a down")), 2);
    assert_eq!(first, SequentialStep::TryNext);
    let second = sequential_step(Ok(7u64), 1);
    assert_eq!(second, SequentialStep::Finish(Ok(7)));
}

#[test]
fn sequential_keeps_only_the_last_error() {
    let e1 = transport(TransportKind::Timeout, "one");
    let e2 = transport(TransportKind::HttpStatus, "two");
    let e3 = transport(TransportKind::TlsHandshake, "three");
    let first: SequentialStep<u64> = sequential_step(Err(e1), 2);
    assert_eq!(first, SequentialStep::TryNext);
    let second: SequentialStep<u64> = sequential_step(Err(e2), 1);
    assert_eq!(second, SequentialStep::TryNext);
    let third: SequentialStep<u64> = sequential_step(Err(e3.clone()), 0);
    assert_eq!(third, SequentialStep::Finish(Err(e3)));
}

#[test]
fn reduce_sequential_matches_the_stepped_dispatch() {
    let e1 = transport(TransportKind::Timeout, "one");
    let e3 = transport(TransportKind::TlsHandshake, "three");
    assert_eq!(reduce_sequential(vec![Err(e1.clone()), Ok(7u64), Err(e3.clone())]), Ok(7));
    let e2 = transport(TransportKind::HttpStatus, "two");
    assert_eq!(
        reduce_sequential::<u64>(vec![Err(e1), Err(e2), Err(e3.clone())]),
        Err(e3)
    );
}

#[test]
fn client_refuses_an_empty_provider_list() {
    let client = EthRpcClient::new(
        EthereumNetwork::new(MAINNET_CHAIN_ID),
        vec![],
        None,
    );
    assert_eq!(client, Err(ProviderError::ProviderNotFound));
}

#[test]
fn client_keeps_chain_providers_and_config() {
    let providers = vec![ProviderId(1), ProviderId(2), ProviderId(3)];
    let client = EthRpcClient::new(
        EthereumNetwork::new(SEPOLIA_CHAIN_ID),
        providers.clone(),
        None,
    )
    .unwrap();
    assert_eq!(client.chain.chain_id(), SEPOLIA_CHAIN_ID);
    assert_eq!(client.providers, providers);
    assert_eq!(client.config.response_size_estimate, None);
}

#[test]
fn response_size_estimate_prefers_the_override() {
    let client = EthRpcClient::new(
        EthereumNetwork::new(MAINNET_CHAIN_ID),
        vec![ProviderId(1)],
        Some(RpcConfig {
            response_size_estimate: Some(9000),
        }),
    )
    .unwrap();
    assert_eq!(client.response_size_estimate(1024 + HEADER_SIZE_LIMIT), 9000);

    let plain = EthRpcClient::new(
        EthereumNetwork::new(MAINNET_CHAIN_ID),
        vec![ProviderId(1)],
        None,
    )
    .unwrap();
    assert_eq!(
        plain.response_size_estimate(1024 + HEADER_SIZE_LIMIT),
        1024 + HEADER_SIZE_LIMIT
    );
}

#[test]
fn block_size_depends_on_the_chain() {
    let sepolia = EthRpcClient::new(
        EthereumNetwork::new(SEPOLIA_CHAIN_ID),
        vec![ProviderId(1)],
        None,
    )
    .unwrap();
    assert_eq!(sepolia.expected_block_size(), SEPOLIA_BLOCK_SIZE_ESTIMATE);
    let mainnet = EthRpcClient::new(
        EthereumNetwork::new(MAINNET_CHAIN_ID),
        vec![ProviderId(1)],
        None,
    )
    .unwrap();
    assert_eq!(mainnet.expected_block_size(), MAINNET_BLOCK_SIZE_ESTIMATE);
    // unknown chains fall back to the mainnet estimate
    let unknown = EthRpcClient::new(EthereumNetwork::new(777), vec![ProviderId(1)], None).unwrap();
    assert_eq!(unknown.expected_block_size(), MAINNET_BLOCK_SIZE_ESTIMATE);
}

#[test]
fn network_round_trips_its_chain_id() {
    assert_eq!(EthereumNetwork::from(42161u64).chain_id(), 42161);
    assert_eq!(EthereumNetwork::new(10).chain_id(), 10);
}

#[test]
fn json_rpc_replies_become_outcomes() {
    let a = ProviderId(1);
    let b = ProviderId(2);
    let c = ProviderId(3);
    let multi = MultiCallResults::from_json_rpc_result(vec![
        (a, Ok(JsonRpcResult::Result(7u64))),
        (b, Ok(JsonRpcResult::Error {
            code: -32000,
            message: "x".to_string(),
        })),
        (c, Err(transport(TransportKind::ResponseTooLarge, "body"))),
    ]);
    assert_eq!(
        multi.results,
        vec![
            (a, Ok(7)),
            (b, Err(RpcError::JsonRpc {
                code: -32000,
                message: "x".to_string(),
            })),
            (c, Err(transport(TransportKind::ResponseTooLarge, "body"))),
        ]
    );
}
