use vstd::prelude::*;

use crate::error::RpcError;

verus! {

/// Opaque identity of a single RPC endpoint.  Totally ordered, so that a
/// ballot can be kept in a canonical, reproducible provider order.
#[derive(Clone, Copy, Debug, Eq, PartialEq, PartialOrd, Ord, Hash, Structural)]
pub struct ProviderId(pub u64);

/// The entries are in strictly ascending provider order; in particular each
/// provider appears at most once.
pub open spec fn sorted_by_provider<V>(s: Seq<(ProviderId, V)>) -> bool {
    forall|i: int, j: int| 0 <= i < j < s.len() ==> s[i].0.0 < s[j].0.0
}

/// No provider appears twice.
pub open spec fn unique_providers<V>(s: Seq<(ProviderId, V)>) -> bool {
    forall|i: int, j: int| 0 <= i < j < s.len() ==> s[i].0 != s[j].0
}

/// The mapping that a sequence of (provider, value) entries stands for,
/// with a later entry for the same provider overriding an earlier one.
pub open spec fn entries_to_map<V>(entries: Seq<(ProviderId, V)>) -> Map<ProviderId, V>
    decreases entries.len(),
{
    if entries.len() == 0 {
        Map::empty()
    } else {
        entries_to_map(entries.drop_last()).insert(entries.last().0, entries.last().1)
    }
}

pub proof fn lemma_entries_to_map_push<V>(s: Seq<(ProviderId, V)>, x: (ProviderId, V))
    ensures
        entries_to_map(s.push(x)) == entries_to_map(s).insert(x.0, x.1),
{
    assert(s.push(x).drop_last() =~= s);
    assert(s.push(x).last() == x);
}

pub proof fn lemma_sorted_implies_unique<V>(s: Seq<(ProviderId, V)>)
    requires
        sorted_by_provider(s),
    ensures
        unique_providers(s),
{
    assert forall|i: int, j: int| 0 <= i < j < s.len() implies s[i].0 != s[j].0 by {
        assert(s[i].0.0 < s[j].0.0);
    }
}

/// On a sequence without repeated providers, the mapping contains exactly
/// the entries of the sequence.
pub proof fn lemma_entries_to_map_unique<V>(s: Seq<(ProviderId, V)>)
    requires
        unique_providers(s),
    ensures
        forall|p: ProviderId|
            #[trigger] entries_to_map(s).dom().contains(p) <==> (exists|i: int|
                0 <= i < s.len() && s[i].0 == p),
        forall|i: int|
            0 <= i < s.len() ==> #[trigger] entries_to_map(s).contains_pair(s[i].0, s[i].1),
    decreases s.len(),
{
    if s.len() > 0 {
        let prefix = s.drop_last();
        assert(unique_providers(prefix)) by {
            assert forall|i: int, j: int| 0 <= i < j < prefix.len() implies prefix[i].0
                != prefix[j].0 by {
                assert(s[i].0 != s[j].0);
            }
        }
        lemma_entries_to_map_unique(prefix);
        let m = entries_to_map(s);
        assert forall|i: int| 0 <= i < s.len() implies #[trigger] m.contains_pair(
            s[i].0,
            s[i].1,
        ) by {
            if i < s.len() - 1 {
                assert(entries_to_map(prefix).contains_pair(prefix[i].0, prefix[i].1));
                assert(s[i].0 != s.last().0);
            }
        }
        assert forall|p: ProviderId| #[trigger] m.dom().contains(p) implies (exists|i: int|
            0 <= i < s.len() && s[i].0 == p) by {
            if p != s.last().0 {
                assert(entries_to_map(prefix).dom().contains(p));
                let i = choose|i: int| 0 <= i < prefix.len() && prefix[i].0 == p;
                assert(s[i].0 == p);
            } else {
                assert(s[s.len() - 1].0 == p);
            }
        }
        assert forall|p: ProviderId| (exists|i: int| 0 <= i < s.len() && s[i].0 == p) implies
            #[trigger] m.dom().contains(p) by {
            let i = choose|i: int| 0 <= i < s.len() && s[i].0 == p;
            assert(m.contains_pair(s[i].0, s[i].1));
        }
    }
}

/// Two sequences without repeated providers that hold the same entries, in
/// whatever order, stand for the same mapping.
pub proof fn lemma_entries_to_map_permutation<V>(a: Seq<(ProviderId, V)>, b: Seq<(ProviderId, V)>)
    requires
        unique_providers(a),
        unique_providers(b),
        a.to_multiset() == b.to_multiset(),
    ensures
        entries_to_map(a) == entries_to_map(b),
{
    broadcast use vstd::seq_lib::group_to_multiset_ensures;

    lemma_entries_to_map_unique(a);
    lemma_entries_to_map_unique(b);
    let ma = entries_to_map(a);
    let mb = entries_to_map(b);
    assert forall|p: ProviderId| #![trigger ma.dom().contains(p)]
        ma.dom().contains(p) implies mb.dom().contains(p) && ma[p] == mb[p] by {
        let i = choose|i: int| 0 <= i < a.len() && a[i].0 == p;
        assert(a.contains(a[i]));
        assert(a.to_multiset().count(a[i]) > 0);
        assert(b.to_multiset().count(a[i]) > 0);
        assert(b.contains(a[i]));
        let j = choose|j: int| 0 <= j < b.len() && b[j] == a[i];
        assert(mb.contains_pair(b[j].0, b[j].1));
        assert(ma.contains_pair(a[i].0, a[i].1));
    }
    assert forall|p: ProviderId| #![trigger mb.dom().contains(p)]
        mb.dom().contains(p) implies ma.dom().contains(p) by {
        let j = choose|j: int| 0 <= j < b.len() && b[j].0 == p;
        assert(b.contains(b[j]));
        assert(b.to_multiset().count(b[j]) > 0);
        assert(a.to_multiset().count(b[j]) > 0);
        assert(a.contains(b[j]));
        let i = choose|i: int| 0 <= i < a.len() && a[i] == b[j];
        assert(ma.contains_pair(a[i].0, a[i].1));
    }
    assert(ma.dom() =~= mb.dom());
    assert(ma =~= mb);
}

/// Two ballots in canonical order that stand for the same mapping are equal.
pub proof fn lemma_sorted_map_determines<V>(a: Seq<(ProviderId, V)>, b: Seq<(ProviderId, V)>)
    requires
        sorted_by_provider(a),
        sorted_by_provider(b),
        entries_to_map(a) == entries_to_map(b),
    ensures
        a == b,
    decreases a.len(),
{
    lemma_sorted_implies_unique(a);
    lemma_sorted_implies_unique(b);
    lemma_entries_to_map_unique(a);
    lemma_entries_to_map_unique(b);
    let ma = entries_to_map(a);
    let mb = entries_to_map(b);
    if a.len() == 0 {
        if b.len() > 0 {
            assert(ma.contains_pair(b[0].0, b[0].1));
        }
        assert(a =~= b);
    } else {
        assert(ma.contains_pair(a.last().0, a.last().1));
        if b.len() == 0 {
            assert(ma.dom().contains(a.last().0));
            assert(false);
        }
        // the last entries carry the greatest provider of the shared domain
        let k0 = a.last().0;
        let k1 = b.last().0;
        assert(ma.dom().contains(k0));
        let i = choose|i: int| 0 <= i < b.len() && b[i].0 == k0;
        if i < b.len() - 1 {
            assert(b[i].0.0 < b[b.len() - 1].0.0);
        }
        assert(k0.0 <= k1.0);
        assert(mb.contains_pair(b.last().0, b.last().1));
        assert(ma.dom().contains(k1));
        let j = choose|j: int| 0 <= j < a.len() && a[j].0 == k1;
        if j < a.len() - 1 {
            assert(a[j].0.0 < a[a.len() - 1].0.0);
        }
        assert(k1.0 <= k0.0);
        assert(k0 == k1);
        assert(ma.contains_pair(b.last().0, b.last().1));
        assert(a.last().1 == b.last().1);
        let pa = a.drop_last();
        let pb = b.drop_last();
        assert(sorted_by_provider(pa) && sorted_by_provider(pb)) by {
            assert forall|i2: int, j2: int| 0 <= i2 < j2 < pa.len() implies pa[i2].0.0
                < pa[j2].0.0 by {
                assert(a[i2].0.0 < a[j2].0.0);
            }
            assert forall|i2: int, j2: int| 0 <= i2 < j2 < pb.len() implies pb[i2].0.0
                < pb[j2].0.0 by {
                assert(b[i2].0.0 < b[j2].0.0);
            }
        }
        lemma_sorted_implies_unique(pa);
        lemma_sorted_implies_unique(pb);
        lemma_entries_to_map_unique(pa);
        lemma_entries_to_map_unique(pb);
        let k = a.last().0;
        assert(!entries_to_map(pa).dom().contains(k)) by {
            if entries_to_map(pa).dom().contains(k) {
                let i2 = choose|i2: int| 0 <= i2 < pa.len() && pa[i2].0 == k;
                assert(a[i2].0.0 < a.last().0.0);
            }
        }
        assert(!entries_to_map(pb).dom().contains(k)) by {
            if entries_to_map(pb).dom().contains(k) {
                let i2 = choose|i2: int| 0 <= i2 < pb.len() && pb[i2].0 == k;
                assert(b[i2].0.0 < b.last().0.0);
            }
        }
        assert(entries_to_map(pa) =~= ma.remove(k));
        assert(entries_to_map(pb) =~= ma.remove(k));
        lemma_sorted_map_determines(pa, pb);
        assert(a.len() == b.len());
        assert forall|x: int| 0 <= x < a.len() implies a[x] == b[x] by {
            if x < a.len() - 1 {
                assert(a[x] == pa[x]);
                assert(pb[x] == b[x]);
            } else {
                assert(a[x] == a.last() && b[x] == b.last());
                assert(a.last().0 == b.last().0 && a.last().1 == b.last().1);
            }
        }
        assert(a =~= b);
    }
}

/// For a fixed collection of per-provider outcomes with no provider
/// repeated, the canonical ballot is the same whatever order the outcomes
/// arrived in.  Together with the reducers' contracts, which pin each
/// reduced result as a function of the ballot, the whole reduction is a
/// deterministic function of the outcome multiset.
pub proof fn lemma_ballot_deterministic<V>(
    a: Seq<(ProviderId, V)>,
    b: Seq<(ProviderId, V)>,
    ra: Seq<(ProviderId, V)>,
    rb: Seq<(ProviderId, V)>,
)
    requires
        a.to_multiset() == b.to_multiset(),
        unique_providers(a),
        unique_providers(b),
        sorted_by_provider(ra),
        sorted_by_provider(rb),
        entries_to_map(ra) == entries_to_map(a),
        entries_to_map(rb) == entries_to_map(b),
    ensures
        ra == rb,
{
    lemma_entries_to_map_permutation(a, b);
    lemma_sorted_map_determines(ra, rb);
}

/// Aggregates the responses of different providers to the same query.
/// Reducers expect it to be well-formed: non-empty and in strictly
/// ascending provider order.
#[derive(Clone, Debug, Eq, PartialEq)]
pub struct MultiCallResults<T> {
    pub results: Vec<(ProviderId, Result<T, RpcError>)>,
}

impl<T> View for MultiCallResults<T> {
    type V = Seq<(ProviderId, Result<T, RpcError>)>;

    open spec fn view(&self) -> Seq<(ProviderId, Result<T, RpcError>)> {
        self.results@
    }
}

impl<T> MultiCallResults<T> {
    /// Non-empty, in strictly ascending provider order.
    pub open spec fn well_formed(&self) -> bool {
        &&& self@.len() > 0
        &&& sorted_by_provider(self@)
    }
}

fn insert_entry<T>(
    results: &mut Vec<(ProviderId, Result<T, RpcError>)>,
    entry: (ProviderId, Result<T, RpcError>),
)
    requires
        sorted_by_provider(old(results)@),
    ensures
        sorted_by_provider(final(results)@),
        entries_to_map(final(results)@) == entries_to_map(old(results)@).insert(entry.0, entry.1),
        final(results)@.len() >= 1,
{
    proof {
        lemma_sorted_implies_unique(old(results)@);
        lemma_entries_to_map_unique(old(results)@);
    }
    let ghost prev = results@;
    let mut i: usize = 0;
    while i < results.len() && results[i].0.0 < entry.0.0
        invariant
            0 <= i <= results@.len(),
            results@ == prev,
            forall|j: int| 0 <= j < i ==> results@[j].0.0 < entry.0.0,
        decreases results@.len() - i,
    {
        i += 1;
    }
    if i < results.len() && results[i].0.0 == entry.0.0 {
        let _ = results.remove(i);
        results.insert(i, entry);
        proof {
            assert(results@ =~= prev.update(i as int, entry));
            lemma_sorted_implies_unique(results@);
            lemma_entries_to_map_unique(results@);
            assert(entries_to_map(results@) =~= entries_to_map(prev).insert(entry.0, entry.1)) by {
                let m1 = entries_to_map(results@);
                let m2 = entries_to_map(prev).insert(entry.0, entry.1);
                assert(results@[i as int] == entry);
                assert(m1.contains_pair(entry.0, entry.1));
                assert forall|p: ProviderId| m1.dom().contains(p) implies m2.dom().contains(p)
                    && m1[p] == m2[p] by {
                    let i2 = choose|i2: int| 0 <= i2 < results@.len() && results@[i2].0 == p;
                    if i2 == i as int {
                        assert(m1.contains_pair(entry.0, entry.1));
                    } else {
                        assert(prev[i2] == results@[i2]);
                        assert(entries_to_map(prev).contains_pair(prev[i2].0, prev[i2].1));
                        assert(prev[i2].0 != entry.0);
                        assert(m1.contains_pair(results@[i2].0, results@[i2].1));
                    }
                }
                assert forall|p: ProviderId| m2.dom().contains(p) implies m1.dom().contains(
                    p,
                ) by {
                    if p == entry.0 {
                        assert(m1.contains_pair(entry.0, entry.1));
                    } else {
                        let i2 = choose|i2: int| 0 <= i2 < prev.len() && prev[i2].0 == p;
                        assert(results@[i2] == prev[i2]);
                        assert(m1.contains_pair(results@[i2].0, results@[i2].1));
                    }
                }
            }
        }
    } else {
        let ghost at = i as int;
        results.insert(i, entry);
        proof {
            assert forall|j: int, k: int| 0 <= j < k < results@.len() implies results@[j].0.0
                < results@[k].0.0 by {
                if k < at {
                    assert(prev[j].0.0 < prev[k].0.0);
                } else if j < at && k == at {
                    assert(prev[j].0.0 < entry.0.0);
                } else if j < at && k > at {
                    assert(prev[j].0.0 < prev[k - 1].0.0 || j == k - 1);
                    assert(prev[k - 1].0.0 >= entry.0.0 || prev[j].0.0 < prev[k - 1].0.0);
                    assert(results@[k] == prev[k - 1]);
                    if at < prev.len() {
                        assert(prev[at].0.0 >= entry.0.0);
                        assert(prev[j].0.0 < prev[k - 1].0.0 || prev[j].0.0 < entry.0.0);
                    }
                    assert(prev[j].0.0 < prev[k - 1].0.0);
                } else if j == at {
                    assert(results@[k] == prev[k - 1]);
                    assert(k - 1 >= at);
                    assert(prev[k - 1].0.0 > entry.0.0);
                } else {
                    assert(results@[j] == prev[j - 1]);
                    assert(results@[k] == prev[k - 1]);
                    assert(prev[j - 1].0.0 < prev[k - 1].0.0);
                }
            }
            lemma_sorted_implies_unique(results@);
            lemma_entries_to_map_unique(results@);
            assert(entries_to_map(results@) =~= entries_to_map(prev).insert(entry.0, entry.1)) by {
                let m1 = entries_to_map(results@);
                let m2 = entries_to_map(prev).insert(entry.0, entry.1);
                assert(results@[at] == entry);
                assert(m1.contains_pair(entry.0, entry.1));
                assert(forall|j: int| 0 <= j < prev.len() ==> prev[j].0.0 != entry.0.0);
                assert forall|p: ProviderId| m1.dom().contains(p) implies m2.dom().contains(p)
                    && m1[p] == m2[p] by {
                    let i2 = choose|i2: int| 0 <= i2 < results@.len() && results@[i2].0 == p;
                    if i2 == at {
                        assert(m1.contains_pair(entry.0, entry.1));
                    } else {
                        let j2 = if i2 < at { i2 } else { i2 - 1 };
                        assert(results@[i2] == prev[j2]);
                        assert(entries_to_map(prev).contains_pair(prev[j2].0, prev[j2].1));
                        assert(m1.contains_pair(results@[i2].0, results@[i2].1));
                        assert(prev[j2].0 != entry.0);
                    }
                }
                assert forall|p: ProviderId| m2.dom().contains(p) implies m1.dom().contains(
                    p,
                ) by {
                    if p == entry.0 {
                        assert(m1.contains_pair(entry.0, entry.1));
                    } else {
                        let j2 = choose|j2: int| 0 <= j2 < prev.len() && prev[j2].0 == p;
                        let i2 = if j2 < at { j2 } else { j2 + 1 };
                        assert(results@[i2] == prev[j2]);
                        assert(m1.contains_pair(results@[i2].0, results@[i2].1));
                    }
                }
            }
        }
    }
}

impl<T> MultiCallResults<T> {
    /// Collects per-provider outcomes into a ballot in canonical provider
    /// order.  A later entry for the same provider overrides an earlier one;
    /// an empty collection is a caller bug and is ruled out.
    pub fn from_non_empty_iter(entries: Vec<(ProviderId, Result<T, RpcError>)>) -> (multi: Self)
        requires
            entries@.len() > 0,
        ensures
            multi.well_formed(),
            entries_to_map(multi@) == entries_to_map(entries@),
    {
        let ghost orig = entries@;
        let mut entries = entries;
        let mut results: Vec<(ProviderId, Result<T, RpcError>)> = Vec::new();
        while entries.len() > 0
            invariant
                entries@.len() <= orig.len(),
                entries@ =~= orig.subrange(orig.len() - entries@.len(), orig.len() as int),
                sorted_by_provider(results@),
                entries_to_map(results@) == entries_to_map(
                    orig.take(orig.len() - entries@.len()),
                ),
                results@.len() >= 1 || entries@.len() == orig.len(),
                orig.len() > 0,
            decreases entries@.len(),
        {
            let ghost pre = entries@;
            let ghost k = orig.len() - pre.len();
            let entry = entries.remove(0);
            proof {
                assert(0 <= k < orig.len());
                assert(pre == orig.subrange(k, orig.len() as int));
                assert(entry == pre[0]);
                assert(pre[0] == orig.subrange(k, orig.len() as int)[0]);
                assert(pre[0] == orig[k]);
                assert(entries@ == pre.remove(0));
                assert forall|x: int| 0 <= x < entries@.len() implies entries@[x] == orig[k + 1
                    + x] by {
                    assert(entries@[x] == pre[x + 1]);
                    assert(pre[x + 1] == orig.subrange(k, orig.len() as int)[x + 1]);
                }
                assert(entries@ =~= orig.subrange(k + 1, orig.len() as int));
                assert(orig.take(k + 1) =~= orig.take(k).push(orig[k]));
                lemma_entries_to_map_push(orig.take(k), orig[k]);
            }
            insert_entry(&mut results, entry);
        }
        proof {
            assert(orig.take(orig.len() as int) =~= orig);
        }
        MultiCallResults { results }
    }
}

/// A provider's JSON-RPC reply: a decoded payload, or the error object of
/// a well-formed error response.
#[derive(Clone, Debug, Eq, PartialEq)]
pub enum JsonRpcResult<T> {
    Result(T),
    Error { code: i64, message: String },
}

/// The outcome that a JSON-RPC reply stands for.
pub open spec fn json_rpc_outcome<T>(reply: Result<JsonRpcResult<T>, RpcError>) -> Result<
    T,
    RpcError,
> {
    match reply {
        Ok(JsonRpcResult::Result(v)) => Ok(v),
        Ok(JsonRpcResult::Error { code, message }) => Err(RpcError::JsonRpc { code, message }),
        Err(e) => Err(e),
    }
}

impl<T> MultiCallResults<T> {
    /// Collects raw JSON-RPC replies into a ballot, turning each reply
    /// into the outcome it stands for.
    pub fn from_json_rpc_result(
        entries: Vec<(ProviderId, Result<JsonRpcResult<T>, RpcError>)>,
    ) -> (multi: Self)
        requires
            entries@.len() > 0,
        ensures
            multi.well_formed(),
            entries_to_map(multi@) == entries_to_map(
                entries@.map_values(
                    |e: (ProviderId, Result<JsonRpcResult<T>, RpcError>)|
                        (e.0, json_rpc_outcome(e.1)),
                ),
            ),
    {
        let ghost orig = entries@;
        let ghost f = |e: (ProviderId, Result<JsonRpcResult<T>, RpcError>)|
            (e.0, json_rpc_outcome(e.1));
        let mut rem = entries;
        let mut conv: Vec<(ProviderId, Result<T, RpcError>)> = Vec::new();
        while rem.len() > 0
            invariant
                rem@.len() <= orig.len(),
                rem@ =~= orig.subrange(orig.len() - rem@.len(), orig.len() as int),
                conv@ == orig.take(orig.len() - rem@.len()).map_values(f),
                f == (|e: (ProviderId, Result<JsonRpcResult<T>, RpcError>)|
                    (e.0, json_rpc_outcome(e.1))),
            decreases rem@.len(),
        {
            let ghost pre = rem@;
            let ghost k = orig.len() - pre.len();
            let (p, reply) = rem.remove(0);
            proof {
                assert(pre[0] == orig.subrange(k, orig.len() as int)[0]);
                assert((p, reply) == orig[k]);
                assert forall|x: int| 0 <= x < rem@.len() implies rem@[x] == orig[k + 1
                    + x] by {
                    assert(rem@[x] == pre[x + 1]);
                    assert(pre[x + 1] == orig.subrange(k, orig.len() as int)[x + 1]);
                }
                assert(rem@ =~= orig.subrange(k + 1, orig.len() as int));
            }
            let outcome = match reply {
                Ok(JsonRpcResult::Result(v)) => Ok(v),
                Ok(JsonRpcResult::Error { code, message }) => Err(
                    RpcError::JsonRpc { code, message },
                ),
                Err(e) => Err(e),
            };
            conv.push((p, outcome));
            proof {
                assert(outcome == json_rpc_outcome(orig[k].1));
                assert(conv@ =~= orig.take(k + 1).map_values(f));
            }
        }
        proof {
            assert(orig.take(orig.len() as int) =~= orig);
        }
        Self::from_non_empty_iter(conv)
    }
}

} // verus!
