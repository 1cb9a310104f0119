//! Steps that commute can be taken in any order.
use vstd::prelude::*;

verus! {

/// The steps `a` keep `inv`, and any two of them commute where `inv` holds.
pub open spec fn commuting<M, A>(f: spec_fn(M, A) -> M, inv: spec_fn(M) -> bool, a: Seq<A>) -> bool {
    &&& forall|m: M, x: A| inv(m) && a.contains(x) ==> inv(#[trigger] f(m, x))
    &&& forall|m: M, x: A, y: A|
        inv(m) && a.contains(x) && a.contains(y) && x != y ==> #[trigger] f(f(m, x), y) == f(
            f(m, y),
            x,
        )
}

/// A part of the steps commutes as the whole does.
proof fn lemma_part<M, A>(f: spec_fn(M, A) -> M, inv: spec_fn(M) -> bool, a: Seq<A>, b: Seq<A>)
    requires
        commuting(f, inv, a),
        forall|x: A| b.contains(x) ==> a.contains(x),
    ensures
        commuting(f, inv, b),
{
}

/// Steps that keep `inv` keep it together.
proof fn lemma_keeps<M, A>(f: spec_fn(M, A) -> M, inv: spec_fn(M) -> bool, m: M, a: Seq<A>)
    requires
        inv(m),
        commuting(f, inv, a),
    ensures
        inv(a.fold_left(m, f)),
    decreases a.len(),
{
    if a.len() > 0 {
        let rest = a.drop_last();
        assert forall|x: A| rest.contains(x) implies a.contains(x) by {
            let i = choose|i: int| 0 <= i < rest.len() && rest[i] == x;
            assert(a[i] == x);
        }
        lemma_part(f, inv, a, rest);
        lemma_keeps(f, inv, m, rest);
        assert(a.contains(a.last()));
    }
}

/// Step `k` can be taken last.
pub proof fn lemma_to_the_end<M, A>(
    f: spec_fn(M, A) -> M,
    inv: spec_fn(M) -> bool,
    m: M,
    a: Seq<A>,
    k: int,
)
    requires
        inv(m),
        commuting(f, inv, a),
        0 <= k < a.len(),
    ensures
        a.fold_left(m, f) == f(a.remove(k).fold_left(m, f), a[k]),
    decreases a.len(),
{
    let rest = a.drop_last();
    if k == a.len() - 1 {
        assert(a.remove(k) =~= rest);
    } else {
        let x = a[k];
        let y = a.last();
        assert forall|z: A| rest.contains(z) implies a.contains(z) by {
            let i = choose|i: int| 0 <= i < rest.len() && rest[i] == z;
            assert(a[i] == z);
        }
        lemma_part(f, inv, a, rest);
        lemma_to_the_end(f, inv, m, rest, k);
        let less = rest.remove(k);
        assert forall|z: A| less.contains(z) implies a.contains(z) by {
            let i = choose|i: int| 0 <= i < less.len() && less[i] == z;
            if i < k {
                assert(a[i] == z);
            } else {
                assert(a[i + 1] == z);
            }
        }
        lemma_part(f, inv, a, less);
        lemma_keeps(f, inv, m, less);
        assert(a.remove(k).drop_last() =~= less);
        assert(a.remove(k).last() == y);
        assert(a.contains(x) && a.contains(y));
        let s = less.fold_left(m, f);
        assert(rest.fold_left(m, f) == f(s, x));
        assert(a.remove(k).fold_left(m, f) == f(s, y));
        if x != y {
            assert(f(f(s, x), y) == f(f(s, y), x));
        }
    }
}

/// Commuting steps lead to the same state in any order.
pub proof fn any_order<M, A>(
    f: spec_fn(M, A) -> M,
    inv: spec_fn(M) -> bool,
    m: M,
    a: Seq<A>,
    b: Seq<A>,
)
    requires
        inv(m),
        commuting(f, inv, a),
        a.to_multiset() == b.to_multiset(),
    ensures
        a.fold_left(m, f) == b.fold_left(m, f),
    decreases a.len(),
{
    broadcast use vstd::seq_lib::group_to_multiset_ensures;

    assert(a.len() == b.len()) by {
        assert(a.len() == a.to_multiset().len());
        assert(b.len() == b.to_multiset().len());
    }
    if a.len() > 0 {
        let x = a.last();
        let rest = a.drop_last();
        assert(a.contains(x));
        assert(a.to_multiset().count(x) > 0);
        assert(b.contains(x));
        let k = choose|k: int| 0 <= k < b.len() && b[k] == x;
        assert forall|z: A| b.contains(z) implies a.contains(z) by {
            assert(b.to_multiset().count(z) > 0);
        }
        lemma_part(f, inv, a, b);
        lemma_to_the_end(f, inv, m, b, k);
        assert(a.remove(a.len() - 1) =~= rest);
        assert(rest.to_multiset() == b.remove(k).to_multiset());
        assert forall|z: A| rest.contains(z) implies a.contains(z) by {
            let i = choose|i: int| 0 <= i < rest.len() && rest[i] == z;
            assert(a[i] == z);
        }
        lemma_part(f, inv, a, rest);
        any_order(f, inv, m, rest, b.remove(k));
    }
}

} // verus!
