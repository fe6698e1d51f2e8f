//! Fallible element-by-element collection.

use crate::error::ErrorView;
use vstd::prelude::*;

verus! {

/// The values of `get` on `i..n` after `acc`, or the first failure.
pub open spec fn collect_from<T>(
    n: nat,
    i: nat,
    acc: Seq<T>,
    get: spec_fn(nat) -> Result<T, ErrorView>,
) -> Result<Seq<T>, ErrorView>
    decreases n - i,
{
    if i >= n {
        Ok(acc)
    } else {
        match get(i) {
            Ok(v) => collect_from(n, i + 1, acc.push(v), get),
            Err(e) => Err(e),
        }
    }
}

/// The values of `get` on `0..n`, or the first failure.
pub open spec fn collect<T>(n: nat, get: spec_fn(nat) -> Result<T, ErrorView>) -> Result<
    Seq<T>,
    ErrorView,
> {
    collect_from(n, 0, Seq::empty(), get)
}

/// A collection that succeeds holds the value of every index.
pub proof fn lemma_collect_from_ok<T>(
    n: nat,
    i: nat,
    acc: Seq<T>,
    get: spec_fn(nat) -> Result<T, ErrorView>,
)
    requires
        collect_from(n, i, acc, get) is Ok,
        acc.len() == i,
        i <= n,
    ensures
        ({
            let all = collect_from(n, i, acc, get)->Ok_0;
            &&& all.len() == n
            &&& all.take(i as int) == acc
            &&& forall|j: nat|
                i <= j < n ==> #[trigger] get(j) == Ok::<T, ErrorView>(all[j as int])
        }),
    decreases n - i,
{
    if i < n {
        let v = get(i)->Ok_0;
        lemma_collect_from_ok(n, i + 1, acc.push(v), get);
        let all = collect_from(n, i, acc, get)->Ok_0;
        assert(all.take((i + 1) as int).take(i as int) == all.take(i as int));
        assert(acc.push(v).take(i as int) == acc);
        assert(all[i as int] == all.take((i + 1) as int)[i as int]);
    } else {
        assert(acc.take(i as int) == acc);
    }
}

/// A collection that succeeds holds the value of every index.
pub proof fn lemma_collect_ok<T>(n: nat, get: spec_fn(nat) -> Result<T, ErrorView>)
    requires
        collect(n, get) is Ok,
    ensures
        collect(n, get)->Ok_0.len() == n,
        forall|j: nat|
            j < n ==> #[trigger] get(j) == Ok::<T, ErrorView>(collect(n, get)->Ok_0[j as int]),
{
    lemma_collect_from_ok(n, 0, Seq::empty(), get);
}

proof fn lemma_collect_from_all<T>(
    n: nat,
    i: nat,
    values: Seq<T>,
    get: spec_fn(nat) -> Result<T, ErrorView>,
)
    requires
        i <= n,
        values.len() == n,
        forall|j: nat| j < n ==> #[trigger] get(j) == Ok::<T, ErrorView>(values[j as int]),
    ensures
        collect_from(n, i, values.take(i as int), get) == Ok::<Seq<T>, ErrorView>(values),
    decreases n - i,
{
    if i < n {
        lemma_collect_from_all(n, i + 1, values, get);
        assert(get(i) == Ok::<T, ErrorView>(values[i as int]));
        assert(values.take(i as int).push(values[i as int]) =~= values.take((i + 1) as int));
    } else {
        assert(values.take(i as int) =~= values);
    }
}

/// Where every index has a value, the collection is those values in order.
pub proof fn lemma_collect_all<T>(
    n: nat,
    values: Seq<T>,
    get: spec_fn(nat) -> Result<T, ErrorView>,
)
    requires
        values.len() == n,
        forall|j: nat| j < n ==> #[trigger] get(j) == Ok::<T, ErrorView>(values[j as int]),
    ensures
        collect(n, get) == Ok::<Seq<T>, ErrorView>(values),
{
    lemma_collect_from_all(n, 0, values, get);
    assert(values.take(0) =~= Seq::<T>::empty());
}

} // verus!
