use eth_rpc_core::error::RpcError;
use eth_rpc_core::fee_history::FeeHistory;
use eth_rpc_core::reduce::MultiCallError;
use eth_rpc_core::results::{MultiCallResults, ProviderId};

const A: ProviderId = ProviderId(1);
const B: ProviderId = ProviderId(2);
const C: ProviderId = ProviderId(3);
const D: ProviderId = ProviderId(4);

fn history(oldest_block: u64, base_fee_per_gas: Vec<u64>) -> FeeHistory {
    FeeHistory {
        oldest_block,
        base_fee_per_gas,
    }
}

fn ballot(
    entries: Vec<(ProviderId, Result<FeeHistory, RpcError>)>,
) -> MultiCallResults<FeeHistory> {
    MultiCallResults::from_non_empty_iter(entries)
}

#[test]
fn majority_two_against_one_by_key() {
    let multi = ballot(vec![
        (A, Ok(history(100, vec![5, 6]))),
        (B, Ok(history(100, vec![5, 6]))),
        (C, Ok(history(101, vec![7]))),
    ]);
    let winner = multi.reduce_with_strict_majority_by_key().unwrap();
    assert_eq!(winner, history(100, vec![5, 6]));
}

#[test]
fn single_group_wins_outright() {
    let multi = ballot(vec![
        (A, Ok(history(100, vec![5]))),
        (B, Ok(history(100, vec![5]))),
    ]);
    assert_eq!(
        multi.reduce_with_strict_majority_by_key(),
        Ok(history(100, vec![5]))
    );
}

#[test]
fn tie_two_against_two_returns_both_top_groups() {
    let multi = ballot(vec![
        (A, Ok(history(100, vec![5]))),
        (B, Ok(history(100, vec![5]))),
        (C, Ok(history(101, vec![7]))),
        (D, Ok(history(101, vec![7]))),
    ]);
    let evidence = multi.reduce_with_strict_majority_by_key().unwrap_err();
    assert_eq!(
        evidence,
        MultiCallError::InconsistentResults(ballot(vec![
            (A, Ok(history(100, vec![5]))),
            (B, Ok(history(100, vec![5]))),
            (C, Ok(history(101, vec![7]))),
            (D, Ok(history(101, vec![7]))),
        ]))
    );
}

#[test]
fn same_key_with_different_payload_is_ambiguous() {
    let multi = ballot(vec![
        (A, Ok(history(100, vec![1]))),
        (B, Ok(history(100, vec![2]))),
    ]);
    let evidence = multi.reduce_with_strict_majority_by_key().unwrap_err();
    assert_eq!(
        evidence,
        MultiCallError::InconsistentResults(ballot(vec![
            (A, Ok(history(100, vec![1]))),
            (B, Ok(history(100, vec![2]))),
        ]))
    );
}

#[test]
fn three_against_two_is_a_strict_majority() {
    let multi = ballot(vec![
        (A, Ok(history(100, vec![5]))),
        (B, Ok(history(100, vec![5]))),
        (C, Ok(history(101, vec![7]))),
        (D, Ok(history(101, vec![7]))),
        (ProviderId(5), Ok(history(100, vec![5]))),
    ]);
    assert_eq!(
        multi.reduce_with_strict_majority_by_key(),
        Ok(history(100, vec![5]))
    );
}

#[test]
fn majority_propagates_consistent_errors() {
    let multi = ballot(vec![
        (A, Err(RpcError::JsonRpc {
            code: -32000,
            message: "x".to_string(),
        })),
        (B, Err(RpcError::JsonRpc {
            code: -32000,
            message: "x".to_string(),
        })),
    ]);
    assert_eq!(
        multi.reduce_with_strict_majority_by_key(),
        Err(MultiCallError::ConsistentError(RpcError::JsonRpc {
            code: -32000,
            message: "x".to_string(),
        }))
    );
}
