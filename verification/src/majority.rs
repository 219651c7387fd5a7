use vstd::prelude::*;
use vstd::std_specs::cmp::PartialEqSpec;

use crate::error::RpcError;
use crate::reduce::{all_consistent_with_first, errs_of, lemma_oks_errs_partition,
    lemma_oks_of_sorted, oks_of, MultiCallError};
use crate::results::{sorted_by_provider, MultiCallResults, ProviderId};

verus! {

/// A value that carries a projection key for majority voting: values that
/// legitimately differ across providers share a stable pivot, and a ballot
/// is tallied by that pivot.
pub trait Keyed {
    /// The projection key, as the contracts see it.
    spec fn spec_key(&self) -> u64;

    /// Returns the projection key.
    fn key(&self) -> (k: u64)
        ensures
            k == self.spec_key(),
    ;
}

/// The entries whose value projects to the key, in ballot order.
pub open spec fn group_of<T: Keyed>(oks: Seq<(ProviderId, T)>, k: u64) -> Seq<(ProviderId, T)>
    decreases oks.len(),
{
    if oks.len() == 0 {
        Seq::empty()
    } else {
        let rest = group_of(oks.drop_last(), k);
        if oks.last().1.spec_key() == k {
            rest.push(oks.last())
        } else {
            rest
        }
    }
}

/// How many entries project to the key.
pub open spec fn key_count<T: Keyed>(oks: Seq<(ProviderId, T)>, k: u64) -> nat {
    group_of(oks, k).len()
}

/// The key's group outnumbers every other group strictly.
pub open spec fn strict_majority<T: Keyed>(oks: Seq<(ProviderId, T)>, k: u64) -> bool {
    &&& key_count(oks, k) > 0
    &&& forall|k2: u64| #![trigger key_count(oks, k2)]
        k2 != k ==> key_count(oks, k2) < key_count(oks, k)
}

/// The entry repeats an earlier entry's key but disagrees with the first
/// member of its group: the keying is ambiguous there.
pub open spec fn dissonant_at<T: PartialEq + Keyed>(oks: Seq<(ProviderId, T)>, j: int) -> bool {
    &&& (exists|f: int| 0 <= f < j && (#[trigger] oks[f]).1.spec_key() == oks[j].1.spec_key())
    &&& !oks[j].1.eq_spec(&group_of(oks, oks[j].1.spec_key())[0].1)
}

/// Some group holds two values that disagree.
pub open spec fn ambiguous<T: PartialEq + Keyed>(oks: Seq<(ProviderId, T)>) -> bool {
    exists|j: int| 0 <= j < oks.len() && #[trigger] dissonant_at(oks, j)
}

/// The two tied groups at the top of the tally: both keys attain the
/// greatest group size, `k1` is the greatest such key and `k2` the
/// greatest other one.
pub open spec fn is_top_two<T: Keyed>(oks: Seq<(ProviderId, T)>, k1: u64, k2: u64) -> bool {
    &&& k2 < k1
    &&& key_count(oks, k1) > 0
    &&& key_count(oks, k2) == key_count(oks, k1)
    &&& forall|k: u64| #![trigger key_count(oks, k)] key_count(oks, k) <= key_count(oks, k1)
    &&& forall|k: u64| #![trigger key_count(oks, k)]
        k != k1 && k != k2 && key_count(oks, k) == key_count(oks, k1) ==> k < k2
}

/// The entries whose value projects to either key, in ballot order.
pub open spec fn pair_group_of<T: Keyed>(oks: Seq<(ProviderId, T)>, k1: u64, k2: u64) -> Seq<
    (ProviderId, T),
>
    decreases oks.len(),
{
    if oks.len() == 0 {
        Seq::empty()
    } else {
        let rest = pair_group_of(oks.drop_last(), k1, k2);
        if oks.last().1.spec_key() == k1 || oks.last().1.spec_key() == k2 {
            rest.push(oks.last())
        } else {
            rest
        }
    }
}

/// The entries re-wrapped as ok outcomes, in order.
pub open spec fn ok_wrapped<T>(s: Seq<(ProviderId, T)>) -> Seq<(ProviderId, Result<T, RpcError>)>
    decreases s.len(),
{
    if s.len() == 0 {
        Seq::empty()
    } else {
        ok_wrapped(s.drop_last()).push((s.last().0, Ok(s.last().1)))
    }
}

pub proof fn lemma_group_of_push<T: Keyed>(oks: Seq<(ProviderId, T)>, k: u64, x: (ProviderId, T))
    ensures
        x.1.spec_key() == k ==> group_of(oks.push(x), k) == group_of(oks, k).push(x),
        x.1.spec_key() != k ==> group_of(oks.push(x), k) == group_of(oks, k),
{
    assert(oks.push(x).drop_last() =~= oks);
    assert(oks.push(x).last() == x);
}

pub proof fn lemma_pair_group_of_push<T: Keyed>(
    oks: Seq<(ProviderId, T)>,
    k1: u64,
    k2: u64,
    x: (ProviderId, T),
)
    ensures
        (x.1.spec_key() == k1 || x.1.spec_key() == k2) ==> pair_group_of(oks.push(x), k1, k2)
            == pair_group_of(oks, k1, k2).push(x),
        !(x.1.spec_key() == k1 || x.1.spec_key() == k2) ==> pair_group_of(oks.push(x), k1, k2)
            == pair_group_of(oks, k1, k2),
{
    assert(oks.push(x).drop_last() =~= oks);
    assert(oks.push(x).last() == x);
}

pub proof fn lemma_ok_wrapped_points<T>(s: Seq<(ProviderId, T)>)
    ensures
        ok_wrapped(s).len() == s.len(),
        forall|i: int| #![trigger ok_wrapped(s)[i]]
            0 <= i < s.len() ==> ok_wrapped(s)[i] == (s[i].0, Ok::<T, RpcError>(s[i].1)),
    decreases s.len(),
{
    if s.len() > 0 {
        lemma_ok_wrapped_points(s.drop_last());
        assert forall|i: int| #![trigger ok_wrapped(s)[i]] 0 <= i < s.len() implies ok_wrapped(
            s,
        )[i] == (s[i].0, Ok::<T, RpcError>(s[i].1)) by {
            if i < s.len() - 1 {
                assert(ok_wrapped(s.drop_last())[i] == (
                    s.drop_last()[i].0,
                    Ok::<T, RpcError>(s.drop_last()[i].1),
                ));
            }
        }
    }
}

/// Each group member projects to the group's key and occurs in the ballot;
/// a group is inhabited exactly when some entry projects to its key.
pub proof fn lemma_group_membership<T: Keyed>(oks: Seq<(ProviderId, T)>, k: u64)
    ensures
        forall|m: int| #![trigger group_of(oks, k)[m]]
            0 <= m < group_of(oks, k).len() ==> group_of(oks, k)[m].1.spec_key() == k && exists|
                j: int,
            | 0 <= j < oks.len() && oks[j] == group_of(oks, k)[m],
        (key_count(oks, k) > 0) <==> (exists|j: int|
            0 <= j < oks.len() && (#[trigger] oks[j]).1.spec_key() == k),
    decreases oks.len(),
{
    if oks.len() > 0 {
        let prefix = oks.drop_last();
        lemma_group_membership(prefix, k);
        let g = group_of(oks, k);
        let gp = group_of(prefix, k);
        assert forall|m: int| #![trigger g[m]] 0 <= m < g.len() implies g[m].1.spec_key() == k
            && exists|j: int| 0 <= j < oks.len() && oks[j] == g[m] by {
            if m < gp.len() {
                assert(gp[m] == g[m]);
                let j = choose|j: int| 0 <= j < prefix.len() && prefix[j] == gp[m];
                assert(oks[j] == g[m]);
            } else {
                assert(g[m] == oks[oks.len() - 1]);
            }
        }
        if key_count(oks, k) > 0 {
            if oks.last().1.spec_key() == k {
                assert(oks[oks.len() - 1].1.spec_key() == k);
            } else {
                assert(key_count(prefix, k) > 0);
                let j = choose|j: int|
                    0 <= j < prefix.len() && (#[trigger] prefix[j]).1.spec_key() == k;
                assert(oks[j].1.spec_key() == k);
            }
        }
        if exists|j: int| 0 <= j < oks.len() && (#[trigger] oks[j]).1.spec_key() == k {
            let j = choose|j: int| 0 <= j < oks.len() && (#[trigger] oks[j]).1.spec_key() == k;
            if j < oks.len() - 1 {
                assert(prefix[j].1.spec_key() == k);
                assert(key_count(prefix, k) > 0);
            }
            assert(key_count(oks, k) > 0);
        }
    }
}

/// The first member of a group is the entry at the least ballot index that
/// projects to the group's key.
pub proof fn lemma_group_first<T: Keyed>(oks: Seq<(ProviderId, T)>, k: u64, f: int)
    requires
        0 <= f < oks.len(),
        oks[f].1.spec_key() == k,
        forall|i: int| 0 <= i < f ==> (#[trigger] oks[i]).1.spec_key() != k,
    ensures
        key_count(oks, k) > 0,
        group_of(oks, k)[0] == oks[f],
    decreases oks.len(),
{
    let prefix = oks.drop_last();
    lemma_group_membership(prefix, k);
    if f == oks.len() - 1 {
        if key_count(prefix, k) > 0 {
            let j = choose|j: int|
                0 <= j < prefix.len() && (#[trigger] prefix[j]).1.spec_key() == k;
            assert(oks[j].1.spec_key() == k);
            assert(false);
        }
        assert(group_of(prefix, k).len() == 0);
        assert(group_of(oks, k) == group_of(prefix, k).push(oks.last()));
    } else {
        assert forall|i: int| 0 <= i < f implies (#[trigger] prefix[i]).1.spec_key() != k by {
            assert(oks[i].1.spec_key() != k);
        }
        lemma_group_first(prefix, k, f);
        assert(group_of(prefix, k)[0] == prefix[f]);
        assert(prefix[f] == oks[f]);
    }
}

/// A group of a well-ordered ballot is well-ordered.
pub proof fn lemma_group_sorted<T: Keyed>(oks: Seq<(ProviderId, T)>, k: u64)
    requires
        sorted_by_provider(oks),
    ensures
        sorted_by_provider(group_of(oks, k)),
        forall|m: int| #![trigger group_of(oks, k)[m]]
            0 <= m < group_of(oks, k).len() ==> exists|j: int|
                0 <= j < oks.len() && group_of(oks, k)[m].0 == oks[j].0,
    decreases oks.len(),
{
    if oks.len() > 0 {
        let prefix = oks.drop_last();
        assert forall|i: int, j: int| 0 <= i < j < prefix.len() implies prefix[i].0.0
            < prefix[j].0.0 by {
            assert(oks[i].0.0 < oks[j].0.0);
        }
        lemma_group_sorted(prefix, k);
        let g = group_of(oks, k);
        let gp = group_of(prefix, k);
        assert forall|m: int| #![trigger g[m]] 0 <= m < g.len() implies exists|j: int|
            0 <= j < oks.len() && g[m].0 == oks[j].0 by {
            if m < gp.len() {
                assert(gp[m] == g[m]);
                let j = choose|j: int| 0 <= j < prefix.len() && gp[m].0 == prefix[j].0;
                assert(g[m].0 == oks[j].0);
            } else {
                assert(g[m].0 == oks[oks.len() - 1].0);
            }
        }
        assert forall|i: int, j: int| 0 <= i < j < g.len() implies g[i].0.0 < g[j].0.0 by {
            if j < gp.len() {
                assert(gp[i].0.0 < gp[j].0.0);
            } else {
                assert(g[i] == gp[i]);
                let j2 = choose|j2: int| 0 <= j2 < prefix.len() && gp[i].0 == prefix[j2].0;
                assert(oks[j2].0.0 < oks[oks.len() - 1].0.0);
            }
        }
    }
}

/// A pair group of a well-ordered ballot is well-ordered, and its length
/// is the sum of the two group sizes.
pub proof fn lemma_pair_group_sorted<T: Keyed>(oks: Seq<(ProviderId, T)>, k1: u64, k2: u64)
    requires
        sorted_by_provider(oks),
        k1 != k2,
    ensures
        sorted_by_provider(pair_group_of(oks, k1, k2)),
        pair_group_of(oks, k1, k2).len() == key_count(oks, k1) + key_count(oks, k2),
        forall|m: int| #![trigger pair_group_of(oks, k1, k2)[m]]
            0 <= m < pair_group_of(oks, k1, k2).len() ==> exists|j: int|
                0 <= j < oks.len() && pair_group_of(oks, k1, k2)[m].0 == oks[j].0,
    decreases oks.len(),
{
    if oks.len() > 0 {
        let prefix = oks.drop_last();
        assert forall|i: int, j: int| 0 <= i < j < prefix.len() implies prefix[i].0.0
            < prefix[j].0.0 by {
            assert(oks[i].0.0 < oks[j].0.0);
        }
        lemma_pair_group_sorted(prefix, k1, k2);
        let g = pair_group_of(oks, k1, k2);
        let gp = pair_group_of(prefix, k1, k2);
        assert forall|m: int| #![trigger g[m]] 0 <= m < g.len() implies exists|j: int|
            0 <= j < oks.len() && g[m].0 == oks[j].0 by {
            if m < gp.len() {
                assert(gp[m] == g[m]);
                let j = choose|j: int| 0 <= j < prefix.len() && gp[m].0 == prefix[j].0;
                assert(g[m].0 == oks[j].0);
            } else {
                assert(g[m].0 == oks[oks.len() - 1].0);
            }
        }
        assert forall|i: int, j: int| 0 <= i < j < g.len() implies g[i].0.0 < g[j].0.0 by {
            if j < gp.len() {
                assert(gp[i].0.0 < gp[j].0.0);
            } else {
                assert(g[i] == gp[i]);
                let j2 = choose|j2: int| 0 <= j2 < prefix.len() && gp[i].0 == prefix[j2].0;
                assert(oks[j2].0.0 < oks[oks.len() - 1].0.0);
            }
        }
    }
}

/// At most one group can strictly outnumber every other, so the value
/// that a strict majority elects is uniquely determined.
pub proof fn lemma_strict_majority_unique<T: Keyed>(oks: Seq<(ProviderId, T)>, k1: u64, k2: u64)
    requires
        strict_majority(oks, k1),
        strict_majority(oks, k2),
    ensures
        k1 == k2,
{
    if k1 != k2 {
        assert(key_count(oks, k1) < key_count(oks, k2));
        assert(key_count(oks, k2) < key_count(oks, k1));
    }
}

pub proof fn lemma_ok_wrapped_push<T>(s: Seq<(ProviderId, T)>, x: (ProviderId, T))
    ensures
        ok_wrapped(s.push(x)) == ok_wrapped(s).push((x.0, Ok::<T, RpcError>(x.1))),
{
    assert(s.push(x).drop_last() =~= s);
    assert(s.push(x).last() == x);
}

impl<T: PartialEq + Keyed> MultiCallResults<T> {
    /// Groups the ok values by their projection key.  Within one group all
    /// values must agree with the group's first member, else the keying is
    /// ambiguous and that much of the group is returned as evidence.  A
    /// group strictly larger than every other yields its value; a tie at
    /// the top yields both top groups merged.  Errors are folded as
    /// `all_ok` does.
    #[verifier::loop_isolation(false)]
    #[verifier::rlimit(100)]
    pub fn reduce_with_strict_majority_by_key(self) -> (r: Result<T, MultiCallError<T>>)
        requires
            self.well_formed(),
            T::obeys_eq_spec(),
        ensures
            ({
                let oks = oks_of(self@);
                let errs = errs_of(self@);
                match r {
                    Ok(v) => {
                        &&& errs.len() == 0
                        &&& !ambiguous(oks)
                        &&& exists|k: u64|
                            #[trigger] strict_majority(oks, k) && v == group_of(oks, k)[0].1
                    },
                    Err(MultiCallError::ConsistentError(err)) => {
                        &&& oks.len() == 0
                        &&& errs.len() > 0
                        &&& err == errs[0].1
                        &&& all_consistent_with_first(errs)
                    },
                    Err(MultiCallError::InconsistentResults(m)) => {
                        if errs.len() > 0 {
                            &&& m == self
                            &&& (oks.len() > 0 || !all_consistent_with_first(errs))
                        } else if ambiguous(oks) {
                            &&& m.well_formed()
                            &&& exists|j: int|
                                {
                                    &&& 0 <= j < oks.len()
                                    &&& #[trigger] dissonant_at(oks, j)
                                    &&& (forall|i: int|
                                        0 <= i < j ==> !(#[trigger] dissonant_at(oks, i)))
                                    &&& m@ == ok_wrapped(
                                        group_of(oks.take(j + 1), oks[j].1.spec_key()),
                                    )
                                }
                        } else {
                            &&& (forall|k: u64| !(#[trigger] strict_majority(oks, k)))
                            &&& m.well_formed()
                            &&& exists|k1: u64, k2: u64|
                                #![trigger is_top_two(oks, k1, k2)]
                                {
                                    &&& is_top_two(oks, k1, k2)
                                    &&& m@ == ok_wrapped(pair_group_of(oks, k1, k2))
                                }
                        }
                    },
                }
            }),
    {
        let ghost s = self@;
        proof {
            lemma_oks_of_sorted(s);
            lemma_oks_errs_partition(s);
        }
        let oks = match self.all_ok() {
            Ok(v) => v,
            Err(e) => {
                return Err(e);
            }
        };
        let ghost ov = oks@;
        let n = oks.len();
        // whether any group holds two values that disagree
        let mut j: usize = 0;
        while j < n
            invariant
                j <= n,
                n == ov.len(),
                oks@ == ov,
                T::obeys_eq_spec(),
                sorted_by_provider(ov),
                forall|i: int| 0 <= i < j ==> !(#[trigger] dissonant_at(ov, i)),
            decreases n - j,
        {
            let kj = oks[j].1.key();
            let mut f: usize = 0;
            while f < j && oks[f].1.key() != kj
                invariant
                    f <= j,
                    j < n,
                    n == ov.len(),
                    oks@ == ov,
                    kj == ov[j as int].1.spec_key(),
                    forall|i: int| 0 <= i < f ==> (#[trigger] ov[i]).1.spec_key() != kj,
                decreases j - f,
            {
                f += 1;
            }
            if f < j {
                proof {
                    lemma_group_first(ov, kj, f as int);
                }
                let same = oks[j].1 == oks[f].1;
                if !same {
                    proof {
                        assert(dissonant_at(ov, j as int)) by {
                            assert((#[trigger] ov[f as int]).1.spec_key() == ov[
                                j as int].1.spec_key());
                        }
                    }
                    let ghost jj = j as int;
                    let mut rem = oks;
                    let mut payload: Vec<(ProviderId, Result<T, RpcError>)> = Vec::new();
                    let mut t: usize = 0;
                    while t <= j
                        invariant
                            t <= j + 1,
                            j < n,
                            n == ov.len(),
                            jj == j,
                            rem@.len() == ov.len() - t,
                            rem@ =~= ov.subrange(t as int, ov.len() as int),
                            payload@ == ok_wrapped(group_of(ov.take(t as int), kj)),
                            kj == ov[jj].1.spec_key(),
                        decreases j - t + 1,
                    {
                        let ghost pre = rem@;
                        let ghost k = t as int;
                        let (p, v) = rem.remove(0);
                        let kv = v.key();
                        proof {
                            assert(pre[0] == ov.subrange(k, ov.len() as int)[0]);
                            assert((p, v) == ov[k]);
                            assert forall|x: int| 0 <= x < rem@.len() implies rem@[x] == ov[k + 1
                                + x] by {
                                assert(rem@[x] == pre[x + 1]);
                                assert(pre[x + 1] == ov.subrange(k, ov.len() as int)[x + 1]);
                            }
                            assert(rem@ =~= ov.subrange(k + 1, ov.len() as int));
                            assert(ov.take(k + 1) =~= ov.take(k).push(ov[k]));
                            lemma_group_of_push(ov.take(k), kj, ov[k]);
                            lemma_ok_wrapped_push(group_of(ov.take(k), kj), ov[k]);
                        }
                        if kv == kj {
                            payload.push((p, Ok(v)));
                        }
                        t += 1;
                    }
                    proof {
                        let g = group_of(ov.take(jj + 1), kj);
                        lemma_group_sorted(ov.take(jj + 1), kj);
                        lemma_ok_wrapped_points(g);
                        lemma_group_membership(ov.take(jj + 1), kj);
                        assert((#[trigger] ov.take(jj + 1)[jj]).1.spec_key() == kj);
                        assert(g.len() > 0);
                        assert forall|i2: int, j2: int|
                            0 <= i2 < j2 < payload@.len() implies payload@[i2].0.0
                            < payload@[j2].0.0 by {
                            assert(payload@[i2] == (g[i2].0, Ok::<T, RpcError>(g[i2].1)));
                            assert(payload@[j2] == (g[j2].0, Ok::<T, RpcError>(g[j2].1)));
                        }
                        assert(forall|i: int| 0 <= i < jj ==> !(#[trigger] dissonant_at(ov, i)));
                        assert(ambiguous(ov));
                        assert(sorted_by_provider(payload@));
                        assert(payload@.len() > 0);
                        assert(payload@ == ok_wrapped(group_of(ov.take(jj + 1), ov[
                            jj].1.spec_key())));
                    }
                    return Err(
                        MultiCallError::InconsistentResults(MultiCallResults { results: payload }),
                    );
                }
                proof {
                    assert(!dissonant_at(ov, j as int));
                }
            } else {
                proof {
                    assert(!dissonant_at(ov, j as int)) by {
                        if dissonant_at(ov, j as int) {
                            let f2 = choose|f2: int|
                                0 <= f2 < j && (#[trigger] ov[f2]).1.spec_key() == ov[
                                    j as int].1.spec_key();
                            assert(ov[f2].1.spec_key() != kj);
                        }
                    }
                }
            }
            j += 1;
        }
        proof {
            assert(!ambiguous(ov)) by {
                if ambiguous(ov) {
                    let j2 = choose|j2: int|
                        0 <= j2 < ov.len() && #[trigger] dissonant_at(ov, j2);
                    assert(!dissonant_at(ov, j2));
                }
            }
        }
        // the largest group, preferring the greater key on equal sizes
        let mut best_k: u64 = 0;
        let mut best_c: usize = 0;
        let mut j: usize = 0;
        while j < n
            invariant
                j <= n,
                n == ov.len(),
                oks@ == ov,
                j > 0 ==> best_c > 0 && key_count(ov, best_k) == best_c,
                j == 0 ==> best_c == 0,
                forall|i: int| #![trigger ov[i]]
                    0 <= i < j ==> key_count(ov, ov[i].1.spec_key()) < best_c || (key_count(
                        ov,
                        ov[i].1.spec_key(),
                    ) == best_c && ov[i].1.spec_key() <= best_k),
            decreases n - j,
        {
            let kj = oks[j].1.key();
            let mut c: usize = 0;
            let mut t: usize = 0;
            while t < n
                invariant
                    t <= n,
                    n == ov.len(),
                    oks@ == ov,
                    c <= t,
                    j < n,
                    kj == ov[j as int].1.spec_key(),
                    c == key_count(ov.take(t as int), kj),
                decreases n - t,
            {
                proof {
                    assert(ov.take(t + 1) =~= ov.take(t as int).push(ov[t as int]));
                    lemma_group_of_push(ov.take(t as int), kj, ov[t as int]);
                }
                let kt = oks[t].1.key();
                if kt == kj {
                    c += 1;
                }
                t += 1;
            }
            proof {
                assert(ov.take(n as int) =~= ov);
                lemma_group_membership(ov, kj);
                assert((#[trigger] ov[j as int]).1.spec_key() == kj);
                assert(c > 0);
            }
            if c > best_c || (c == best_c && kj > best_k) {
                best_c = c;
                best_k = kj;
            }
            j += 1;
        }
        // the largest remaining group, preferring the greater key again
        let mut sec_k: u64 = 0;
        let mut sec_c: usize = 0;
        let mut j: usize = 0;
        while j < n
            invariant
                j <= n,
                n == ov.len(),
                oks@ == ov,
                best_c > 0,
                key_count(ov, best_k) == best_c,
                forall|i: int| #![trigger ov[i]]
                    0 <= i < n ==> key_count(ov, ov[i].1.spec_key()) < best_c || (key_count(
                        ov,
                        ov[i].1.spec_key(),
                    ) == best_c && ov[i].1.spec_key() <= best_k),
                sec_c > 0 ==> sec_k != best_k && key_count(ov, sec_k) == sec_c,
                forall|i: int| #![trigger ov[i]]
                    0 <= i < j ==> ov[i].1.spec_key() == best_k || key_count(
                        ov,
                        ov[i].1.spec_key(),
                    ) < sec_c || (key_count(ov, ov[i].1.spec_key()) == sec_c && ov[
                        i].1.spec_key() <= sec_k),
            decreases n - j,
        {
            let kj = oks[j].1.key();
            if kj != best_k {
                let mut c: usize = 0;
                let mut t: usize = 0;
                while t < n
                    invariant
                        t <= n,
                        n == ov.len(),
                        oks@ == ov,
                        c <= t,
                        j < n,
                        kj == ov[j as int].1.spec_key(),
                        c == key_count(ov.take(t as int), kj),
                    decreases n - t,
                {
                    proof {
                        assert(ov.take(t + 1) =~= ov.take(t as int).push(ov[t as int]));
                        lemma_group_of_push(ov.take(t as int), kj, ov[t as int]);
                    }
                    let kt = oks[t].1.key();
                    if kt == kj {
                        c += 1;
                    }
                    t += 1;
                }
                proof {
                    assert(ov.take(n as int) =~= ov);
                    lemma_group_membership(ov, kj);
                    assert((#[trigger] ov[j as int]).1.spec_key() == kj);
                    assert(c > 0);
                }
                if c > sec_c || (c == sec_c && kj > sec_k) {
                    sec_c = c;
                    sec_k = kj;
                }
            }
            j += 1;
        }
        if sec_c < best_c {
            proof {
                assert(strict_majority(ov, best_k)) by {
                    assert forall|k2: u64| #![trigger key_count(ov, k2)]
                        k2 != best_k implies key_count(ov, k2) < key_count(ov, best_k) by {
                        lemma_group_membership(ov, k2);
                        if key_count(ov, k2) > 0 {
                            let i = choose|i: int|
                                0 <= i < ov.len() && (#[trigger] ov[i]).1.spec_key() == k2;
                            assert(ov[i].1.spec_key() != best_k);
                        }
                    }
                }
            }
            let mut f: usize = 0;
            while f < n && oks[f].1.key() != best_k
                invariant
                    f <= n,
                    n == ov.len(),
                    oks@ == ov,
                    forall|i: int| 0 <= i < f ==> (#[trigger] ov[i]).1.spec_key() != best_k,
                decreases n - f,
            {
                f += 1;
            }
            proof {
                lemma_group_membership(ov, best_k);
                if f == n {
                    let i = choose|i: int|
                        0 <= i < ov.len() && (#[trigger] ov[i]).1.spec_key() == best_k;
                    assert(false);
                }
                lemma_group_first(ov, best_k, f as int);
            }
            let mut rem = oks;
            let (_, v) = rem.remove(f);
            proof {
                assert(strict_majority(ov, best_k) && v == group_of(ov, best_k)[0].1);
            }
            Ok(v)
        } else {
            proof {
                assert(sec_c > 0);
                assert(sec_c == best_c) by {
                    lemma_group_membership(ov, sec_k);
                    let i = choose|i: int|
                        0 <= i < ov.len() && (#[trigger] ov[i]).1.spec_key() == sec_k;
                    assert(key_count(ov, ov[i].1.spec_key()) <= best_c);
                }
                assert(is_top_two(ov, best_k, sec_k)) by {
                    lemma_group_membership(ov, sec_k);
                    let i = choose|i: int|
                        0 <= i < ov.len() && (#[trigger] ov[i]).1.spec_key() == sec_k;
                    assert(key_count(ov, ov[i].1.spec_key()) == best_c);
                    assert(sec_k <= best_k);
                    assert(sec_k < best_k);
                    assert forall|k: u64| #![trigger key_count(ov, k)]
                        key_count(ov, k) <= key_count(ov, best_k) by {
                        lemma_group_membership(ov, k);
                        if key_count(ov, k) > 0 {
                            let i2 = choose|i2: int|
                                0 <= i2 < ov.len() && (#[trigger] ov[i2]).1.spec_key() == k;
                            assert(key_count(ov, ov[i2].1.spec_key()) <= best_c);
                        }
                    }
                    assert forall|k: u64| #![trigger key_count(ov, k)]
                        k != best_k && k != sec_k && key_count(ov, k) == key_count(
                            ov,
                            best_k,
                        ) implies k < sec_k by {
                        lemma_group_membership(ov, k);
                        let i2 = choose|i2: int|
                            0 <= i2 < ov.len() && (#[trigger] ov[i2]).1.spec_key() == k;
                        assert(ov[i2].1.spec_key() != best_k);
                    }
                }
                assert forall|k: u64| !(#[trigger] strict_majority(ov, k)) by {
                    if strict_majority(ov, k) {
                        if k == best_k {
                            assert(key_count(ov, sec_k) < key_count(ov, best_k));
                        } else {
                            assert(key_count(ov, best_k) < key_count(ov, k));
                            assert(key_count(ov, k) <= key_count(ov, best_k));
                        }
                    }
                }
            }
            let mut rem = oks;
            let mut payload: Vec<(ProviderId, Result<T, RpcError>)> = Vec::new();
            let mut t: usize = 0;
            while t < n
                invariant
                    t <= n,
                    n == ov.len(),
                    rem@.len() == ov.len() - t,
                    rem@ =~= ov.subrange(t as int, ov.len() as int),
                    payload@ == ok_wrapped(pair_group_of(ov.take(t as int), best_k, sec_k)),
                decreases n - t,
            {
                let ghost pre = rem@;
                let ghost k = t as int;
                let (p, v) = rem.remove(0);
                let kv = v.key();
                proof {
                    assert(pre[0] == ov.subrange(k, ov.len() as int)[0]);
                    assert((p, v) == ov[k]);
                    assert forall|x: int| 0 <= x < rem@.len() implies rem@[x] == ov[k + 1
                        + x] by {
                        assert(rem@[x] == pre[x + 1]);
                        assert(pre[x + 1] == ov.subrange(k, ov.len() as int)[x + 1]);
                    }
                    assert(rem@ =~= ov.subrange(k + 1, ov.len() as int));
                    assert(ov.take(k + 1) =~= ov.take(k).push(ov[k]));
                    lemma_pair_group_of_push(ov.take(k), best_k, sec_k, ov[k]);
                    lemma_ok_wrapped_push(pair_group_of(ov.take(k), best_k, sec_k), ov[k]);
                }
                if kv == best_k || kv == sec_k {
                    payload.push((p, Ok(v)));
                }
                t += 1;
            }
            proof {
                assert(ov.take(n as int) =~= ov);
                let g = pair_group_of(ov, best_k, sec_k);
                lemma_pair_group_sorted(ov, best_k, sec_k);
                lemma_ok_wrapped_points(g);
                assert(g.len() > 0);
                assert forall|i2: int, j2: int|
                    0 <= i2 < j2 < payload@.len() implies payload@[i2].0.0
                    < payload@[j2].0.0 by {
                    assert(payload@[i2] == (g[i2].0, Ok::<T, RpcError>(g[i2].1)));
                    assert(payload@[j2] == (g[j2].0, Ok::<T, RpcError>(g[j2].1)));
                }
                assert(sorted_by_provider(payload@));
                assert(payload@.len() > 0);
                assert(is_top_two(ov, best_k, sec_k) && payload@ == ok_wrapped(
                    pair_group_of(ov, best_k, sec_k),
                ));
            }
            Err(MultiCallError::InconsistentResults(MultiCallResults { results: payload }))
        }
    }
}


} // verus!
