use eth_rpc_core::error::{RpcError, TransportKind};
use eth_rpc_core::reduce::MultiCallError;
use eth_rpc_core::results::{MultiCallResults, ProviderId};

const A: ProviderId = ProviderId(1);
const B: ProviderId = ProviderId(2);
const C: ProviderId = ProviderId(3);

fn json_rpc(code: i64, message: &str) -> RpcError {
    RpcError::JsonRpc {
        code,
        message: message.to_string(),
    }
}

fn transport(kind: TransportKind, detail: &str) -> RpcError {
    RpcError::Transport(kind, detail.to_string())
}

fn ballot(entries: Vec<(ProviderId, Result<u64, RpcError>)>) -> MultiCallResults<u64> {
    MultiCallResults::from_non_empty_iter(entries)
}

#[test]
fn ballot_is_kept_in_ascending_provider_order() {
    let multi = ballot(vec![(C, Ok(3)), (A, Ok(1)), (B, Ok(2))]);
    assert_eq!(multi.results, vec![(A, Ok(1)), (B, Ok(2)), (C, Ok(3))]);
}

#[test]
fn later_entry_for_same_provider_wins() {
    let multi = ballot(vec![(A, Ok(1)), (B, Ok(2)), (A, Ok(7))]);
    assert_eq!(multi.results, vec![(A, Ok(7)), (B, Ok(2))]);
}

#[test]
fn ballot_is_independent_of_arrival_order() {
    let first = ballot(vec![(A, Ok(1)), (B, Ok(2)), (C, Ok(3))]);
    let second = ballot(vec![(B, Ok(2)), (C, Ok(3)), (A, Ok(1))]);
    assert_eq!(first, second);
    assert_eq!(
        first.reduce_with_equality(),
        second.reduce_with_equality()
    );
}

#[test]
fn all_ok_unwraps_a_fully_successful_ballot() {
    let multi = ballot(vec![(B, Ok(2)), (A, Ok(1))]);
    assert_eq!(multi.all_ok(), Ok(vec![(A, 1), (B, 2)]));
}

#[test]
fn all_ok_folds_consistent_errors_into_the_first() {
    // every provider fails, pairwise consistent with the first error
    let multi = ballot(vec![
        (A, Err(transport(TransportKind::Timeout, "a"))),
        (B, Err(transport(TransportKind::Timeout, "b"))),
        (C, Err(transport(TransportKind::Timeout, "c"))),
    ]);
    assert_eq!(
        multi.all_ok(),
        Err(MultiCallError::ConsistentError(transport(
            TransportKind::Timeout,
            "a"
        )))
    );
}

#[test]
fn all_ok_rejects_a_mix_of_ok_and_error() {
    let entries = vec![(A, Ok(1)), (B, Err(json_rpc(-32000, "x")))];
    let multi = ballot(entries.clone());
    assert_eq!(
        multi.all_ok(),
        Err(MultiCallError::InconsistentResults(ballot(entries)))
    );
}

#[test]
fn all_ok_rejects_inconsistent_errors() {
    let entries: Vec<(ProviderId, Result<u64, RpcError>)> = vec![
        (A, Err(json_rpc(-32000, "x"))),
        (B, Err(json_rpc(-32000, "y"))),
    ];
    let multi = ballot(entries.clone());
    assert_eq!(
        multi.all_ok(),
        Err(MultiCallError::InconsistentResults(ballot(entries)))
    );
}

#[test]
fn equality_unanimous_returns_the_value() {
    let multi = ballot(vec![(A, Ok(7)), (B, Ok(7)), (C, Ok(7))]);
    assert_eq!(multi.reduce_with_equality(), Ok(7));
}

#[test]
fn equality_dissent_returns_baseline_and_dissenters() {
    let multi = ballot(vec![(A, Ok(7)), (B, Ok(8)), (C, Ok(7))]);
    let evidence = multi.reduce_with_equality().unwrap_err();
    // the baseline plus the entry that disagrees with it, re-wrapped as oks
    assert_eq!(
        evidence,
        MultiCallError::InconsistentResults(ballot(vec![(A, Ok(7)), (B, Ok(8))]))
    );
}

#[test]
fn equality_consistent_json_rpc_errors_fold() {
    let multi = ballot(vec![
        (A, Err(json_rpc(-32000, "x"))),
        (B, Err(json_rpc(-32000, "x"))),
        (C, Err(json_rpc(-32000, "x"))),
    ]);
    assert_eq!(
        multi.reduce_with_equality(),
        Err(MultiCallError::ConsistentError(json_rpc(-32000, "x")))
    );
}

#[test]
fn equality_consistent_transport_errors_fold_despite_details() {
    let multi = ballot(vec![
        (A, Err(transport(TransportKind::Timeout, "after 5s"))),
        (B, Err(transport(TransportKind::Timeout, "after 9s"))),
        (C, Err(transport(TransportKind::Timeout, "tcp reset"))),
    ]);
    assert_eq!(
        multi.reduce_with_equality(),
        Err(MultiCallError::ConsistentError(transport(
            TransportKind::Timeout,
            "after 5s"
        )))
    );
}

#[test]
fn inconsistency_evidence_is_never_empty() {
    let multi = ballot(vec![(A, Ok(7)), (B, Ok(8))]);
    match multi.reduce_with_equality().unwrap_err() {
        MultiCallError::InconsistentResults(evidence) => {
            assert!(!evidence.results.is_empty());
        }
        other => panic!("expected inconsistent results, got {:?}", other),
    }
}

#[test]
fn singleton_ballot_reduces_to_its_value() {
    let multi = ballot(vec![(A, Ok(42))]);
    assert_eq!(multi.reduce_with_equality(), Ok(42));
}
