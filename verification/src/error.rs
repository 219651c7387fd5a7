use vstd::prelude::*;

verus! {

/// Discriminant of a transport-level failure.  The consistency predicate
/// compares transport errors by this discriminant alone, so that transient
/// network noise from independent providers still collapses into one error.
#[derive(Clone, Copy, Debug, Eq, PartialEq, Hash, Structural)]
pub enum TransportKind {
    Timeout,
    TlsHandshake,
    HttpStatus,
    ResponseTooLarge,
    MalformedResponse,
}

/// Configuration error surfaced when a client is built; it occurs before
/// any multi-call and never reaches the reducers.
#[derive(Clone, Copy, Debug, Eq, PartialEq, Hash, Structural)]
pub enum ProviderError {
    ProviderNotFound,
}

/// A single provider's failure.
#[derive(Clone, Debug, Eq, PartialEq)]
pub enum RpcError {
    /// Transport-level failure.  Carries a free-form detail string that the
    /// consistency predicate ignores.
    Transport(TransportKind, String),
    /// Well-formed JSON-RPC error object returned by the provider.
    JsonRpc { code: i64, message: String },
    /// Configuration error.
    Provider(ProviderError),
}

/// A single provider's failure, split by layer.
#[derive(Clone, Debug, Eq, PartialEq)]
pub enum SingleCallError {
    HttpOutcallError(TransportKind, String),
    JsonRpcError { code: i64, message: String },
}

/// Two errors count as the same failure iff:
/// two JSON-RPC errors have the same code and the same message; two
/// transport errors share the same discriminant, whatever their detail
/// strings; two configuration errors have the same kind.  Errors of
/// different variants are never consistent.
pub open spec fn errors_consistent(a: RpcError, b: RpcError) -> bool {
    match (a, b) {
        (RpcError::Transport(ka, _), RpcError::Transport(kb, _)) => ka == kb,
        (
            RpcError::JsonRpc { code: ca, message: ma },
            RpcError::JsonRpc { code: cb, message: mb },
        ) => ca == cb && ma@ == mb@,
        (RpcError::Provider(pa), RpcError::Provider(pb)) => pa == pb,
        _ => false,
    }
}

/// Decides whether two errors should be folded into a single consistent
/// error, following `errors_consistent`.
pub fn are_errors_consistent(a: &RpcError, b: &RpcError) -> (consistent: bool)
    ensures
        consistent == errors_consistent(*a, *b),
{
    match (a, b) {
        (RpcError::Transport(ka, _), RpcError::Transport(kb, _)) => *ka == *kb,
        (
            RpcError::JsonRpc { code: ca, message: ma },
            RpcError::JsonRpc { code: cb, message: mb },
        ) => *ca == *cb && *ma == *mb,
        (RpcError::Provider(pa), RpcError::Provider(pb)) => *pa == *pb,
        _ => false,
    }
}

/// The consistency predicate holds of every error paired with itself.
pub proof fn lemma_errors_consistent_reflexive(e: RpcError)
    ensures
        errors_consistent(e, e),
{
}

/// The consistency predicate does not depend on the order of its arguments.
pub proof fn lemma_errors_consistent_symmetric(a: RpcError, b: RpcError)
    ensures
        errors_consistent(a, b) == errors_consistent(b, a),
{
}

} // verus!
