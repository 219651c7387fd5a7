use vstd::prelude::*;
use vstd::std_specs::cmp::PartialEqSpec;

use crate::error::{are_errors_consistent, errors_consistent, lemma_errors_consistent_reflexive,
    RpcError};
use crate::results::{sorted_by_provider, MultiCallResults, ProviderId};

verus! {

/// Terminal failure of a reduced multi-call: either every provider failed
/// with pairwise-consistent errors, or the outcomes disagreed and the
/// dissenting evidence is carried for the caller to inspect.
#[derive(Clone, Debug, Eq, PartialEq)]
pub enum MultiCallError<T> {
    ConsistentError(RpcError),
    InconsistentResults(MultiCallResults<T>),
}

/// The ok outcomes of a ballot, in ballot order, unwrapped.
pub open spec fn oks_of<T>(s: Seq<(ProviderId, Result<T, RpcError>)>) -> Seq<(ProviderId, T)>
    decreases s.len(),
{
    if s.len() == 0 {
        Seq::empty()
    } else {
        let rest = oks_of(s.drop_last());
        match s.last().1 {
            Ok(v) => rest.push((s.last().0, v)),
            Err(_) => rest,
        }
    }
}

/// The error outcomes of a ballot, in ballot order.
pub open spec fn errs_of<T>(s: Seq<(ProviderId, Result<T, RpcError>)>) -> Seq<
    (ProviderId, RpcError),
>
    decreases s.len(),
{
    if s.len() == 0 {
        Seq::empty()
    } else {
        let rest = errs_of(s.drop_last());
        match s.last().1 {
            Ok(_) => rest,
            Err(e) => rest.push((s.last().0, e)),
        }
    }
}

/// Every error of the ballot is consistent with the first one.
pub open spec fn all_consistent_with_first(errs: Seq<(ProviderId, RpcError)>) -> bool {
    forall|i: int| #![trigger errs[i]]
        0 <= i < errs.len() ==> errors_consistent(errs[0].1, errs[i].1)
}

pub proof fn lemma_oks_of_push<T>(s: Seq<(ProviderId, Result<T, RpcError>)>, x: (
    ProviderId,
    Result<T, RpcError>,
))
    ensures
        x.1 is Ok ==> oks_of(s.push(x)) == oks_of(s).push((x.0, x.1->Ok_0)),
        x.1 is Err ==> oks_of(s.push(x)) == oks_of(s),
{
    assert(s.push(x).drop_last() =~= s);
    assert(s.push(x).last() == x);
}

pub proof fn lemma_errs_of_push<T>(s: Seq<(ProviderId, Result<T, RpcError>)>, x: (
    ProviderId,
    Result<T, RpcError>,
))
    ensures
        x.1 is Err ==> errs_of(s.push(x)) == errs_of(s).push((x.0, x.1->Err_0)),
        x.1 is Ok ==> errs_of(s.push(x)) == errs_of(s),
{
    assert(s.push(x).drop_last() =~= s);
    assert(s.push(x).last() == x);
}

/// Every outcome is either an ok or an error.
pub proof fn lemma_oks_errs_partition<T>(s: Seq<(ProviderId, Result<T, RpcError>)>)
    ensures
        oks_of(s).len() + errs_of(s).len() == s.len(),
    decreases s.len(),
{
    if s.len() > 0 {
        lemma_oks_errs_partition(s.drop_last());
    }
}

/// A ballot without errors consists of ok outcomes only.
pub proof fn lemma_no_errs_all_ok<T>(s: Seq<(ProviderId, Result<T, RpcError>)>)
    requires
        errs_of(s).len() == 0,
    ensures
        forall|j: int| 0 <= j < s.len() ==> (#[trigger] s[j]).1 is Ok,
    decreases s.len(),
{
    if s.len() > 0 {
        assert(s.drop_last() =~= s.drop_last());
        lemma_no_errs_all_ok(s.drop_last());
        assert forall|j: int| 0 <= j < s.len() implies (#[trigger] s[j]).1 is Ok by {
            if j < s.len() - 1 {
                assert(s.drop_last()[j].1 is Ok);
            }
        }
    }
}

/// The ok outcomes of a well-ordered ballot are themselves well-ordered,
/// and each of them names a provider of the ballot.
pub proof fn lemma_oks_of_sorted<T>(s: Seq<(ProviderId, Result<T, RpcError>)>)
    requires
        sorted_by_provider(s),
    ensures
        sorted_by_provider(oks_of(s)),
        forall|m: int| #![trigger oks_of(s)[m]]
            0 <= m < oks_of(s).len() ==> exists|j: int|
                0 <= j < s.len() && oks_of(s)[m].0 == s[j].0,
    decreases s.len(),
{
    if s.len() > 0 {
        let prefix = s.drop_last();
        assert forall|i: int, j: int| 0 <= i < j < prefix.len() implies prefix[i].0.0
            < prefix[j].0.0 by {
            assert(s[i].0.0 < s[j].0.0);
        }
        lemma_oks_of_sorted(prefix);
        let o = oks_of(s);
        let op = oks_of(prefix);
        if s.last().1 is Ok {
            assert(o == op.push((s.last().0, s.last().1->Ok_0)));
            assert forall|m: int| #![trigger o[m]] 0 <= m < o.len() implies exists|j: int|
                0 <= j < s.len() && o[m].0 == s[j].0 by {
                if m < op.len() {
                    assert(op[m] == o[m]);
                    let j = choose|j: int| 0 <= j < prefix.len() && op[m].0 == prefix[j].0;
                    assert(o[m].0 == s[j].0);
                } else {
                    assert(o[m].0 == s[s.len() - 1].0);
                }
            }
            assert forall|i: int, j: int| 0 <= i < j < o.len() implies o[i].0.0 < o[j].0.0 by {
                if j < op.len() {
                    assert(op[i].0.0 < op[j].0.0);
                } else {
                    assert(o[i] == op[i]);
                    let j2 = choose|j2: int| 0 <= j2 < prefix.len() && op[i].0 == prefix[j2].0;
                    assert(s[j2].0.0 < s[s.len() - 1].0.0);
                }
            }
        } else {
            assert(o == op);
            assert forall|m: int| #![trigger o[m]] 0 <= m < o.len() implies exists|j: int|
                0 <= j < s.len() && o[m].0 == s[j].0 by {
                assert(op[m] == o[m]);
                let j = choose|j: int| 0 <= j < prefix.len() && op[m].0 == prefix[j].0;
                assert(o[m].0 == s[j].0);
            }
        }
    }
}

impl<T> MultiCallResults<T> {
    /// Expects all outcomes to be ok and unwraps them; otherwise reports
    /// the agreed failure, or the ballot itself when the outcomes disagree:
    /// a surviving good response alongside failures, or two errors the
    /// consistency predicate keeps apart, are both disagreement.
    pub fn all_ok(self) -> (r: Result<Vec<(ProviderId, T)>, MultiCallError<T>>)
        requires
            self.well_formed(),
        ensures
            ({
                let oks = oks_of(self@);
                let errs = errs_of(self@);
                match r {
                    Ok(v) => errs.len() == 0 && v@ == oks,
                    Err(MultiCallError::ConsistentError(err)) => {
                        &&& oks.len() == 0
                        &&& errs.len() > 0
                        &&& err == errs[0].1
                        &&& all_consistent_with_first(errs)
                    },
                    Err(MultiCallError::InconsistentResults(m)) => {
                        &&& m == self
                        &&& errs.len() > 0
                        &&& (oks.len() > 0 || !all_consistent_with_first(errs))
                    },
                }
            }),
    {
        let ghost s = self@;
        let n = self.results.len();
        let mut has_ok = false;
        let mut found_err = false;
        let mut consistent = true;
        let mut first_err: usize = 0;
        let mut i: usize = 0;
        while i < n
            invariant
                0 <= i <= n,
                n == s.len(),
                self@ == s,
                self.well_formed(),
                has_ok == (oks_of(s.take(i as int)).len() > 0),
                found_err == (errs_of(s.take(i as int)).len() > 0),
                found_err ==> first_err < i && s[first_err as int].1 is Err && errs_of(
                    s.take(i as int),
                )[0] == (s[first_err as int].0, s[first_err as int].1->Err_0),
                consistent == all_consistent_with_first(errs_of(s.take(i as int))),
            decreases n - i,
        {
            proof {
                assert(s.take(i + 1) =~= s.take(i as int).push(s[i as int]));
                lemma_oks_of_push(s.take(i as int), s[i as int]);
                lemma_errs_of_push(s.take(i as int), s[i as int]);
            }
            let ghost errs_pre = errs_of(s.take(i as int));
            match &self.results[i].1 {
                Ok(_) => {
                    has_ok = true;
                }
                Err(e) => {
                    if !found_err {
                        found_err = true;
                        first_err = i;
                        proof {
                            lemma_errors_consistent_reflexive(s[i as int].1->Err_0);
                            let errs_now = errs_of(s.take(i + 1));
                            assert(errs_now == errs_pre.push((s[i as int].0, s[i as int].1->Err_0)));
                            assert(errs_now.len() == 1);
                            assert forall|q: int| #![trigger errs_now[q]]
                                0 <= q < errs_now.len() implies errors_consistent(
                                errs_now[0].1,
                                errs_now[q].1,
                            ) by {
                                assert(q == 0);
                            }
                        }
                    } else {
                        if consistent {
                            let first = match &self.results[first_err].1 {
                                Err(fe) => fe,
                                Ok(_) => vstd::pervasive::unreached(),
                            };
                            let agree = are_errors_consistent(first, e);
                            if !agree {
                                consistent = false;
                            }
                        }
                        proof {
                            let errs_now = errs_of(s.take(i + 1));
                            let x = (s[i as int].0, s[i as int].1->Err_0);
                            assert(errs_now == errs_pre.push(x));
                            assert(errs_now[0] == errs_pre[0]);
                            assert forall|q: int| #![trigger errs_now[q]]
                                0 <= q < errs_now.len() && consistent implies errors_consistent(
                                errs_now[0].1,
                                errs_now[q].1,
                            ) by {
                                if q < errs_pre.len() {
                                    assert(errs_now[q] == errs_pre[q]);
                                } else {
                                    assert(errs_now[q] == x);
                                }
                            }
                            if !consistent {
                                if all_consistent_with_first(errs_now) {
                                    assert forall|q: int| #![trigger errs_pre[q]]
                                        0 <= q < errs_pre.len() implies errors_consistent(
                                        errs_pre[0].1,
                                        errs_pre[q].1,
                                    ) by {
                                        assert(errs_now[q] == errs_pre[q]);
                                    }
                                    assert(errs_now[errs_now.len() - 1] == x);
                                    assert(errors_consistent(errs_now[0].1, x.1));
                                }
                            }
                        }
                    }
                }
            }
            i += 1;
        }
        proof {
            assert(s.take(n as int) =~= s);
        }
        if !found_err {
            proof {
                lemma_no_errs_all_ok(s);
            }
            let ghost orig = s;
            let mut rem = self.results;
            let mut out: Vec<(ProviderId, T)> = Vec::new();
            while rem.len() > 0
                invariant
                    rem@.len() <= orig.len(),
                    rem@ =~= orig.subrange(orig.len() - rem@.len(), orig.len() as int),
                    out@ == oks_of(orig.take(orig.len() - rem@.len())),
                    errs_of(orig).len() == 0,
                    forall|j: int| 0 <= j < orig.len() ==> (#[trigger] orig[j]).1 is Ok,
                decreases rem@.len(),
            {
                let ghost k = orig.len() - rem@.len();
                let ghost pre = rem@;
                let (p, outcome) = rem.remove(0);
                proof {
                    assert(pre[0] == orig.subrange(k, orig.len() as int)[0]);
                    assert((p, outcome) == orig[k]);
                    assert forall|x: int| 0 <= x < rem@.len() implies rem@[x] == orig[k + 1
                        + x] by {
                        assert(rem@[x] == pre[x + 1]);
                        assert(pre[x + 1] == orig.subrange(k, orig.len() as int)[x + 1]);
                    }
                    assert(rem@ =~= orig.subrange(k + 1, orig.len() as int));
                    assert(orig.take(k + 1) =~= orig.take(k).push(orig[k]));
                    lemma_oks_of_push(orig.take(k), orig[k]);
                }
                match outcome {
                    Ok(v) => {
                        out.push((p, v));
                    }
                    Err(_) => {
                        proof {
                            assert(orig[k].1 is Ok);
                            assert(false);
                        }
                    }
                }
            }
            proof {
                assert(orig.take(orig.len() as int) =~= orig);
            }
            Ok(out)
        } else if has_ok {
            Err(MultiCallError::InconsistentResults(self))
        } else if !consistent {
            Err(MultiCallError::InconsistentResults(self))
        } else {
            let mut rem = self.results;
            let (_, outcome) = rem.remove(first_err);
            match outcome {
                Err(e) => Err(MultiCallError::ConsistentError(e)),
                Ok(_) => vstd::pervasive::unreached(),
            }
        }
    }
}

/// The entries whose value differs from the baseline, in ballot order,
/// re-wrapped as ok outcomes.
pub open spec fn dissenting_of<T: PartialEq>(oks: Seq<(ProviderId, T)>, base: T) -> Seq<
    (ProviderId, Result<T, RpcError>),
>
    decreases oks.len(),
{
    if oks.len() == 0 {
        Seq::empty()
    } else {
        let rest = dissenting_of(oks.drop_last(), base);
        if !oks.last().1.eq_spec(&base) {
            rest.push((oks.last().0, Ok(oks.last().1)))
        } else {
            rest
        }
    }
}

/// Every value agrees with the first one.
pub open spec fn all_agree<T: PartialEq>(oks: Seq<(ProviderId, T)>) -> bool {
    forall|i: int| #![trigger oks[i]] 1 <= i < oks.len() ==> oks[i].1.eq_spec(&oks[0].1)
}

pub proof fn lemma_dissenting_of_push<T: PartialEq>(
    oks: Seq<(ProviderId, T)>,
    base: T,
    x: (ProviderId, T),
)
    ensures
        !x.1.eq_spec(&base) ==> dissenting_of(oks.push(x), base) == dissenting_of(oks, base).push(
            (x.0, Ok(x.1)),
        ),
        x.1.eq_spec(&base) ==> dissenting_of(oks.push(x), base) == dissenting_of(oks, base),
{
    assert(oks.push(x).drop_last() =~= oks);
    assert(oks.push(x).last() == x);
}

/// The dissenting entries of a well-ordered sequence are well-ordered, and
/// each of them names a provider of the sequence.
pub proof fn lemma_dissenting_of_sorted<T: PartialEq>(oks: Seq<(ProviderId, T)>, base: T)
    requires
        sorted_by_provider(oks),
    ensures
        sorted_by_provider(dissenting_of(oks, base)),
        forall|m: int| #![trigger dissenting_of(oks, base)[m]]
            0 <= m < dissenting_of(oks, base).len() ==> exists|j: int|
                0 <= j < oks.len() && dissenting_of(oks, base)[m].0 == oks[j].0,
    decreases oks.len(),
{
    if oks.len() > 0 {
        let prefix = oks.drop_last();
        assert forall|i: int, j: int| 0 <= i < j < prefix.len() implies prefix[i].0.0
            < prefix[j].0.0 by {
            assert(oks[i].0.0 < oks[j].0.0);
        }
        lemma_dissenting_of_sorted(prefix, base);
        let d = dissenting_of(oks, base);
        let dp = dissenting_of(prefix, base);
        assert forall|m: int| #![trigger d[m]] 0 <= m < d.len() implies exists|j: int|
            0 <= j < oks.len() && d[m].0 == oks[j].0 by {
            if m < dp.len() {
                assert(dp[m] == d[m]);
                let j = choose|j: int| 0 <= j < prefix.len() && dp[m].0 == prefix[j].0;
                assert(d[m].0 == oks[j].0);
            } else {
                assert(d[m].0 == oks[oks.len() - 1].0);
            }
        }
        assert forall|i: int, j: int| 0 <= i < j < d.len() implies d[i].0.0 < d[j].0.0 by {
            if j < dp.len() {
                assert(dp[i].0.0 < dp[j].0.0);
            } else {
                assert(d[i] == dp[i]);
                let j2 = choose|j2: int| 0 <= j2 < prefix.len() && dp[i].0 == prefix[j2].0;
                assert(oks[j2].0.0 < oks[oks.len() - 1].0.0);
            }
        }
    }
}

/// Agreement with the baseline is the same as pairwise agreement, for an
/// equality that is true structural equality.  With the contract of
/// `reduce_with_equality`, the reduction returns ok exactly when there is
/// no error and all ok values are pairwise equal.
pub proof fn lemma_all_agree_pairwise<T: PartialEq>(oks: Seq<(ProviderId, T)>)
    requires
        vstd::laws_eq::obeys_concrete_eq::<T>(),
        oks.len() > 0,
    ensures
        all_agree(oks) <==> (forall|i: int, j: int| #![trigger oks[i], oks[j]]
            0 <= i < oks.len() && 0 <= j < oks.len() ==> oks[i].1 == oks[j].1),
{
    reveal(vstd::laws_eq::obeys_concrete_eq);
    if all_agree(oks) {
        assert forall|i: int, j: int| #![trigger oks[i], oks[j]]
            0 <= i < oks.len() && 0 <= j < oks.len() implies oks[i].1 == oks[j].1 by {
            if i > 0 {
                assert(oks[i].1.eq_spec(&oks[0].1));
            }
            if j > 0 {
                assert(oks[j].1.eq_spec(&oks[0].1));
            }
        }
    }
    if forall|i: int, j: int| #![trigger oks[i], oks[j]]
        0 <= i < oks.len() && 0 <= j < oks.len() ==> oks[i].1 == oks[j].1 {
        assert forall|i: int| #![trigger oks[i]] 1 <= i < oks.len() implies oks[i].1.eq_spec(
            &oks[0].1,
        ) by {
            assert(oks[i].1 == oks[0].1);
        }
    }
}

impl<T: PartialEq> MultiCallResults<T> {
    /// Reduces the ballot to one agreed value.  All ok values must agree
    /// with the first one; any dissent yields the disagreeing entries plus
    /// the baseline, each re-wrapped as an ok outcome, as positive
    /// evidence.  Errors are folded as `all_ok` does.
    pub fn reduce_with_equality(self) -> (r: Result<T, MultiCallError<T>>)
        requires
            self.well_formed(),
            T::obeys_eq_spec(),
        ensures
            ({
                let oks = oks_of(self@);
                let errs = errs_of(self@);
                match r {
                    Ok(v) => {
                        &&& errs.len() == 0
                        &&& oks.len() > 0
                        &&& all_agree(oks)
                        &&& v == oks[0].1
                    },
                    Err(MultiCallError::ConsistentError(err)) => {
                        &&& oks.len() == 0
                        &&& errs.len() > 0
                        &&& err == errs[0].1
                        &&& all_consistent_with_first(errs)
                    },
                    Err(MultiCallError::InconsistentResults(m)) => {
                        if errs.len() > 0 {
                            &&& m == self
                            &&& (oks.len() > 0 || !all_consistent_with_first(errs))
                        } else {
                            &&& !all_agree(oks)
                            &&& m.well_formed()
                            &&& m@ == seq![(oks[0].0, Ok::<T, RpcError>(oks[0].1))]
                                + dissenting_of(oks.skip(1), oks[0].1)
                        }
                    },
                }
            }),
    {
        let ghost s = self@;
        proof {
            lemma_oks_of_sorted(s);
            lemma_oks_errs_partition(s);
        }
        let oks = match self.all_ok() {
            Ok(v) => v,
            Err(e) => {
                return Err(e);
            }
        };
        let ghost ov = oks@;
        let n = oks.len();
        let mut all_same = true;
        let mut i: usize = 1;
        while i < n
            invariant
                1 <= i <= n || n == 0,
                n == ov.len(),
                oks@ == ov,
                T::obeys_eq_spec(),
                all_same == (forall|j: int| #![trigger ov[j]]
                    1 <= j < i ==> ov[j].1.eq_spec(&ov[0].1)),
            decreases n - i,
        {
            let agree = oks[i].1 == oks[0].1;
            if !agree {
                all_same = false;
            }
            i += 1;
        }
        if all_same {
            let mut rem = oks;
            let (_, v) = rem.remove(0);
            proof {
                assert(all_agree(ov));
            }
            Ok(v)
        } else {
            proof {
                assert(!all_agree(ov));
                lemma_dissenting_of_sorted(ov.skip(1), ov[0].1);
                assert forall|i2: int, j2: int| 0 <= i2 < j2 < ov.skip(1).len() implies ov.skip(
                    1,
                )[i2].0.0 < ov.skip(1)[j2].0.0 by {
                    assert(ov[i2 + 1].0.0 < ov[j2 + 1].0.0);
                }
            }
            let ghost rest = ov.skip(1);
            let mut rem = oks;
            let (p0, v0) = rem.remove(0);
            proof {
                assert(rem@ =~= rest);
            }
            let mut payload: Vec<(ProviderId, Result<T, RpcError>)> = Vec::new();
            while rem.len() > 0
                invariant
                    rem@.len() <= rest.len(),
                    rem@ =~= rest.subrange(rest.len() - rem@.len(), rest.len() as int),
                    payload@ == dissenting_of(rest.take(rest.len() - rem@.len()), v0),
                    v0 == ov[0].1,
                    rest == ov.skip(1),
                    T::obeys_eq_spec(),
                decreases rem@.len(),
            {
                let ghost k = rest.len() - rem@.len();
                let ghost pre = rem@;
                let (p, v) = rem.remove(0);
                proof {
                    assert(pre[0] == rest.subrange(k, rest.len() as int)[0]);
                    assert((p, v) == rest[k]);
                    assert forall|x: int| 0 <= x < rem@.len() implies rem@[x] == rest[k + 1
                        + x] by {
                        assert(rem@[x] == pre[x + 1]);
                        assert(pre[x + 1] == rest.subrange(k, rest.len() as int)[x + 1]);
                    }
                    assert(rem@ =~= rest.subrange(k + 1, rest.len() as int));
                    assert(rest.take(k + 1) =~= rest.take(k).push(rest[k]));
                    lemma_dissenting_of_push(rest.take(k), v0, rest[k]);
                }
                let agree = v == v0;
                if !agree {
                    payload.push((p, Ok(v)));
                }
            }
            proof {
                assert(rest.take(rest.len() as int) =~= rest);
            }
            payload.insert(0, (p0, Ok(v0)));
            proof {
                assert(payload@ =~= seq![(ov[0].0, Ok::<T, RpcError>(ov[0].1))] + dissenting_of(
                    rest,
                    ov[0].1,
                ));
                let d = dissenting_of(rest, ov[0].1);
                assert forall|i2: int, j2: int| 0 <= i2 < j2 < payload@.len() implies
                    payload@[i2].0.0 < payload@[j2].0.0 by {
                    if i2 == 0 {
                        let j3 = choose|j3: int| 0 <= j3 < rest.len() && d[j2 - 1].0 == rest[j3].0;
                        assert(ov[0].0.0 < ov[j3 + 1].0.0);
                    } else {
                        assert(d[i2 - 1].0.0 < d[j2 - 1].0.0);
                    }
                }
                assert(payload@.len() >= 1);
            }
            Err(MultiCallError::InconsistentResults(MultiCallResults { results: payload }))
        }
    }
}

} // verus!
