//! Lists of outcomes: how the outcomes of the parts of a tree decide the
//! outcome of the whole.

use crate::error::ErrorView;
use vstd::prelude::*;

verus! {

/// Turns a list of outcomes into the outcome of the list: the values in
/// order where every outcome is a value, and else the first failure.
pub open spec fn collect<T>(results: Seq<Result<T, ErrorView>>) -> Result<Seq<T>, ErrorView>
    decreases results.len(),
{
    if results.len() == 0 {
        Ok(Seq::empty())
    } else {
        match collect(results.drop_last()) {
            Ok(front) => match results.last() {
                Ok(v) => Ok(front.push(v)),
                Err(e) => Err(e),
            },
            Err(e) => Err(e),
        }
    }
}

/// The outcome of a list that was extended by one outcome.
pub proof fn lemma_collect_push<T>(results: Seq<Result<T, ErrorView>>, next: Result<T, ErrorView>)
    ensures
        collect(results.push(next)) == match collect(results) {
            Ok(front) => match next {
                Ok(v) => Ok(front.push(v)),
                Err(e) => Err(e),
            },
            Err(e) => Err::<Seq<T>, ErrorView>(e),
        },
{
    assert(results.push(next).drop_last() =~= results);
}

/// Once a prefix of a list of outcomes has failed, the whole list fails in
/// the same way.
pub proof fn lemma_collect_rest<T>(results: Seq<Result<T, ErrorView>>, k: int)
    requires
        0 <= k <= results.len(),
        collect(results.take(k)) is Err,
    ensures
        collect(results) == collect(results.take(k)),
    decreases results.len() - k,
{
    if k == results.len() {
        assert(results.take(k) =~= results);
    } else {
        assert(results.take(k).push(results[k]) =~= results.take(k + 1));
        lemma_collect_push(results.take(k), results[k]);
        lemma_collect_rest(results, k + 1);
    }
}

/// A list of outcomes yields the values `values` exactly where it is as long
/// as `values` and each outcome is the value at its position.
pub proof fn lemma_collect_ok<T>(results: Seq<Result<T, ErrorView>>, values: Seq<T>)
    ensures
        collect(results) == Ok::<Seq<T>, ErrorView>(values) <==> (values.len() == results.len()
            && forall|i: int| 0 <= i < results.len() ==> #[trigger] results[i] == Ok::<
                T,
                ErrorView,
            >(values[i])),
    decreases results.len(),
{
    if results.len() == 0 {
        if values.len() == 0 {
            assert(values =~= Seq::empty());
        }
    } else {
        let front = results.drop_last();
        if collect(results) == Ok::<Seq<T>, ErrorView>(values) {
            let f = collect(front)->Ok_0;
            lemma_collect_ok(front, f);
            assert forall|i: int| 0 <= i < results.len() implies #[trigger] results[i] == Ok::<
                T,
                ErrorView,
            >(values[i]) by {
                if i < front.len() {
                    assert(front[i] == results[i]);
                }
            }
        }
        if values.len() == results.len() && forall|i: int|
            0 <= i < results.len() ==> #[trigger] results[i] == Ok::<T, ErrorView>(values[i]) {
            let f = values.drop_last();
            assert forall|i: int| 0 <= i < front.len() implies #[trigger] front[i] == Ok::<
                T,
                ErrorView,
            >(f[i]) by {
                assert(front[i] == results[i]);
            }
            lemma_collect_ok(front, f);
            assert(results.last() == results[results.len() - 1]);
            assert(f.push(values.last()) =~= values);
        }
    }
}

/// A list of outcomes fails exactly as the first failure in it: some outcome
/// is that failure, and every outcome before it is a value.
pub proof fn lemma_collect_err<T>(results: Seq<Result<T, ErrorView>>) -> (at: int)
    requires
        collect(results) is Err,
    ensures
        0 <= at < results.len(),
        results[at] == Err::<T, ErrorView>(collect(results)->Err_0),
        forall|j: int| 0 <= j < at ==> (#[trigger] results[j]) is Ok,
    decreases results.len(),
{
    let front = results.drop_last();
    if collect(front) is Err {
        let at = lemma_collect_err(front);
        assert forall|j: int| 0 <= j < at implies (#[trigger] results[j]) is Ok by {
            assert(front[j] == results[j]);
        }
        assert(front[at] == results[at]);
        at
    } else {
        let f = collect(front)->Ok_0;
        lemma_collect_ok(front, f);
        assert forall|j: int| 0 <= j < results.len() - 1 implies (#[trigger] results[j]) is Ok by {
            assert(front[j] == results[j]);
        }
        results.len() - 1
    }
}

} // verus!
