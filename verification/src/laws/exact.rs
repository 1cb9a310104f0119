//! In exact arithmetic, paged attention is softmax attention.
use crate::attention::online::{
    column, fresh, highest, page_step, scores, weights, RowState,
};
use crate::scalar::{
    dot, empty_sum, exceeds, exp, minus, neg_infinity, over, plus, products, sum_from, times, zero,
    Scalar,
};
use vstd::prelude::*;

verus! {

/// The numbers that `fin` singles out are computed with exactly, as real numbers
/// would be: sums do not depend on how they are grouped, products distribute
/// over them, the exponential turns differences into quotients, and the
/// exponential of anything relative to minus infinity vanishes.
pub open spec fn exact<T: Scalar>(fin: spec_fn(T) -> bool) -> bool {
    &&& fin(zero())
    &&& empty_sum::<T>() == zero::<T>()
    &&& forall|a: T, b: T| fin(a) && fin(b) ==> fin(#[trigger] plus(a, b))
    &&& forall|a: T, b: T| fin(a) && fin(b) ==> fin(#[trigger] times(a, b))
    &&& forall|a: T, b: T| fin(a) && fin(b) ==> fin(#[trigger] exp(minus(a, b)))
    &&& forall|a: T, b: T, c: T|
        fin(a) && fin(b) && fin(c) ==> #[trigger] plus(plus(a, b), c) == plus(a, plus(b, c))
    &&& forall|a: T| fin(a) ==> #[trigger] plus(a, zero()) == a && plus(zero(), a) == a
    &&& forall|a: T, b: T, c: T|
        fin(a) && fin(b) && fin(c) ==> #[trigger] times(plus(a, b), c) == plus(
            times(a, c),
            times(b, c),
        )
    &&& forall|a: T, b: T, c: T|
        fin(a) && fin(b) && fin(c) ==> #[trigger] times(times(a, b), c) == times(times(a, c), b)
    &&& forall|a: T| fin(a) ==> #[trigger] times(zero(), a) == zero::<T>()
    &&& forall|a: T, b: T, c: T|
        fin(a) && fin(b) && fin(c) ==> #[trigger] times(exp(minus(a, b)), exp(minus(b, c))) == exp(
            minus(a, c),
        )
    &&& forall|a: T| fin(a) ==> #[trigger] exp(minus(neg_infinity(), a)) == zero::<T>()
    &&& forall|a: T| fin(a) ==> #[trigger] exceeds(a, neg_infinity())
}

/// All numbers of `s` are among those that `fin` singles out.
pub open spec fn all_fin<T>(fin: spec_fn(T) -> bool, s: Seq<T>) -> bool {
    forall|i: int| 0 <= i < s.len() ==> fin(#[trigger] s[i])
}

/// All numbers of the rows, each of at least `d` numbers, are among those that
/// `fin` singles out.
pub open spec fn rows_fin<T>(fin: spec_fn(T) -> bool, rows: Seq<Seq<T>>, d: nat) -> bool {
    forall|i: int, j: int|
        0 <= i < rows.len() && 0 <= j < d ==> fin(#[trigger] rows[i][j])
}

/// The numbers of the rows that the mask lets through, each of at least `d`
/// numbers, are among those that `fin` singles out.
pub open spec fn seen_fin<T>(
    fin: spec_fn(T) -> bool,
    rows: Seq<Seq<T>>,
    mask: Seq<bool>,
    d: nat,
) -> bool {
    forall|i: int, j: int|
        0 <= i < rows.len() && mask[i] && 0 <= j < d ==> fin(#[trigger] rows[i][j])
}

/// Softmax attention of the query row `q` over all rows at once: the value rows,
/// each weighted by the exponential of its score, divided by the sum of the
/// weights.
pub open spec fn softmax_attention<T: Scalar>(
    scale: T,
    q: Seq<T>,
    keys: Seq<Seq<T>>,
    vals: Seq<Seq<T>>,
    mask: Seq<bool>,
) -> Seq<T> {
    let x = scores(scale, q, keys, mask);
    let w = weights(x, highest(neg_infinity(), x, mask, x.len()));
    Seq::new(q.len(), |j: int| over(dot(w, column(vals, j)), sum_from(zero(), w)))
}

proof fn lemma_sum_fin<T: Scalar>(fin: spec_fn(T) -> bool, start: T, s: Seq<T>)
    requires
        exact(fin),
        fin(start),
        all_fin(fin, s),
    ensures
        fin(sum_from(start, s)),
    decreases s.len(),
{
    if s.len() > 0 {
        assert(all_fin(fin, s.drop_last()));
        lemma_sum_fin(fin, start, s.drop_last());
        assert(fin(s[s.len() - 1]));
    }
}

/// Summing goes on where it was left off.
proof fn lemma_sum_join<T: Scalar>(start: T, a: Seq<T>, b: Seq<T>)
    ensures
        sum_from(start, a + b) == sum_from(sum_from(start, a), b),
    decreases b.len(),
{
    if b.len() == 0 {
        assert(a + b =~= a);
    } else {
        assert((a + b).drop_last() =~= a + b.drop_last());
        lemma_sum_join(start, a, b.drop_last());
    }
}

/// A sum may start anywhere.
proof fn lemma_sum_shift<T: Scalar>(fin: spec_fn(T) -> bool, start: T, s: Seq<T>)
    requires
        exact(fin),
        fin(start),
        all_fin(fin, s),
    ensures
        plus(start, sum_from(zero(), s)) == sum_from(start, s),
    decreases s.len(),
{
    if s.len() > 0 {
        let rest = s.drop_last();
        assert(all_fin(fin, rest));
        lemma_sum_shift(fin, start, rest);
        lemma_sum_fin(fin, zero(), rest);
        assert(fin(s[s.len() - 1]));
        assert(plus(plus(start, sum_from(zero(), rest)), s.last()) == plus(
            start,
            plus(sum_from(zero(), rest), s.last()),
        ));
    }
}

/// A sum times a factor is the sum of the products.
proof fn lemma_sum_scale<T: Scalar>(fin: spec_fn(T) -> bool, s: Seq<T>, e: T, t: Seq<T>)
    requires
        exact(fin),
        all_fin(fin, s),
        fin(e),
        t.len() == s.len(),
        forall|i: int| 0 <= i < s.len() ==> #[trigger] t[i] == times(s[i], e),
    ensures
        times(sum_from(zero(), s), e) == sum_from(zero(), t),
    decreases s.len(),
{
    if s.len() > 0 {
        let rest = s.drop_last();
        assert(all_fin(fin, rest));
        lemma_sum_scale(fin, rest, e, t.drop_last());
        lemma_sum_fin(fin, zero(), rest);
        assert(fin(s[s.len() - 1]));
        assert(t[t.len() - 1] == times(s[s.len() - 1], e));
        assert(times(plus(sum_from(zero(), rest), s.last()), e) == plus(
            times(sum_from(zero(), rest), e),
            times(s.last(), e),
        ));
    }
}

/// The highest score of two pages is found page by page.
proof fn lemma_highest_join<T: Scalar>(
    m: T,
    x: Seq<T>,
    mask_x: Seq<bool>,
    y: Seq<T>,
    mask_y: Seq<bool>,
    i: nat,
)
    requires
        x.len() == mask_x.len(),
        y.len() == mask_y.len(),
        i <= y.len(),
    ensures
        highest(m, x + y, mask_x + mask_y, x.len() + i) == highest(
            highest(m, x, mask_x, x.len()),
            y,
            mask_y,
            i,
        ),
    decreases i,
{
    if i == 0 {
        lemma_highest_prefix(m, x, mask_x, x + y, mask_x + mask_y, x.len());
    } else {
        lemma_highest_join(m, x, mask_x, y, mask_y, (i - 1) as nat);
        let a = x.len() + i - 1;
        assert((x + y)[a] == y[i - 1]);
        assert((mask_x + mask_y)[a] == mask_y[i - 1]);
    }
}

/// The highest of the first scores depends on those alone.
proof fn lemma_highest_prefix<T: Scalar>(
    m: T,
    x: Seq<T>,
    mask_x: Seq<bool>,
    y: Seq<T>,
    mask_y: Seq<bool>,
    i: nat,
)
    requires
        forall|t: int| 0 <= t < i ==> #[trigger] x[t] == y[t],
        forall|t: int| 0 <= t < i ==> #[trigger] mask_x[t] == mask_y[t],
    ensures
        highest(m, y, mask_y, i) == highest(m, x, mask_x, i),
    decreases i,
{
    if i > 0 {
        lemma_highest_prefix(m, x, mask_x, y, mask_y, (i - 1) as nat);
        assert(x[i - 1] == y[i - 1]);
        assert(mask_x[i - 1] == mask_y[i - 1]);
    }
}

/// The highest score is finite once it is, or once a row is visible.
pub(crate) proof fn lemma_highest_fin<T: Scalar>(
    fin: spec_fn(T) -> bool,
    m: T,
    x: Seq<T>,
    mask: Seq<bool>,
    i: nat,
)
    requires
        exact(fin),
        fin(m) || m == neg_infinity::<T>(),
        forall|t: int| 0 <= t < i && mask[t] ==> fin(#[trigger] x[t]),
    ensures
        fin(highest(m, x, mask, i)) || highest(m, x, mask, i) == neg_infinity::<T>(),
        fin(m) || (exists|t: int| 0 <= t < i && #[trigger] mask[t]) ==> fin(highest(m, x, mask, i)),
    decreases i,
{
    if i > 0 {
        lemma_highest_fin(fin, m, x, mask, (i - 1) as nat);
        let h = highest(m, x, mask, (i - 1) as nat);
        if exists|t: int| 0 <= t < i && #[trigger] mask[t] {
            let t = choose|t: int| 0 <= t < i && #[trigger] mask[t];
            if t < i - 1 {
                assert(0 <= t < i - 1 && mask[t]);
                assert(fin(h));
            } else {
                assert(fin(x[i - 1]));
                if !fin(h) {
                    assert(exceeds(x[i - 1], neg_infinity()));
                }
            }
        }
        if mask[i - 1] {
            assert(fin(x[i - 1]));
        }
    }
}

proof fn lemma_dot_fin<T: Scalar>(fin: spec_fn(T) -> bool, a: Seq<T>, b: Seq<T>)
    requires
        exact(fin),
        all_fin(fin, a),
        forall|i: int| 0 <= i < a.len() ==> fin(#[trigger] b[i]),
    ensures
        fin(dot(a, b)),
{
    assert forall|i: int| 0 <= i < a.len() implies fin(#[trigger] products(a, b)[i]) by {
        assert(fin(a[i]) && fin(b[i]));
    }
    lemma_sum_fin(fin, empty_sum(), products(a, b));
}

/// Visible scores are finite.
pub(crate) proof fn lemma_scores_fin<T: Scalar>(
    fin: spec_fn(T) -> bool,
    scale: T,
    q: Seq<T>,
    keys: Seq<Seq<T>>,
    mask: Seq<bool>,
)
    requires
        exact(fin),
        fin(scale),
        all_fin(fin, q),
        seen_fin(fin, keys, mask, q.len()),
    ensures
        forall|t: int|
            0 <= t < keys.len() && mask[t] ==> fin(#[trigger] scores(scale, q, keys, mask)[t]),
{
    assert forall|t: int| 0 <= t < keys.len() && mask[t] implies fin(
        #[trigger] scores(scale, q, keys, mask)[t],
    ) by {
        assert forall|i: int| 0 <= i < q.len() implies fin(#[trigger] keys[t][i]) by {}
        lemma_dot_fin(fin, q, keys[t]);
    }
}

/// Weights relative to a finite score are finite.
pub(crate) proof fn lemma_weights_fin<T: Scalar>(fin: spec_fn(T) -> bool, x: Seq<T>, m: T)
    requires
        exact(fin),
        fin(m),
        forall|t: int| 0 <= t < x.len() ==> fin(#[trigger] x[t]) || x[t] == neg_infinity::<T>(),
    ensures
        all_fin(fin, weights(x, m)),
{
    assert forall|t: int| 0 <= t < x.len() implies fin(#[trigger] weights(x, m)[t]) by {
        if !fin(x[t]) {
            assert(exp(minus(neg_infinity(), m)) == zero::<T>());
        }
    }
}

/// The state has gathered the rows `keys` and `vals`: its highest score, its sum
/// of weights and its sums of weighted values are those of all rows at once.
pub open spec fn gathered<T: Scalar>(
    st: RowState<T>,
    scale: T,
    q: Seq<T>,
    keys: Seq<Seq<T>>,
    vals: Seq<Seq<T>>,
    mask: Seq<bool>,
) -> bool {
    let x = scores(scale, q, keys, mask);
    let w = weights(x, st.m);
    &&& st.m == highest(neg_infinity(), x, mask, x.len())
    &&& st.l == sum_from(zero(), w)
    &&& st.acc.len() == q.len()
    &&& forall|j: int| 0 <= j < q.len() ==> #[trigger] st.acc[j] == dot(w, column(vals, j))
}

/// One more page is gathered.
pub proof fn lemma_gather<T: Scalar>(
    fin: spec_fn(T) -> bool,
    st: RowState<T>,
    scale: T,
    q: Seq<T>,
    k1: Seq<Seq<T>>,
    v1: Seq<Seq<T>>,
    mask1: Seq<bool>,
    k2: Seq<Seq<T>>,
    v2: Seq<Seq<T>>,
    mask2: Seq<bool>,
)
    requires
        exact(fin),
        fin(scale),
        all_fin(fin, q),
        seen_fin(fin, k1, mask1, q.len()),
        rows_fin(fin, v1, q.len()),
        seen_fin(fin, k2, mask2, q.len()),
        rows_fin(fin, v2, q.len()),
        k1.len() == v1.len() == mask1.len(),
        k2.len() == v2.len() == mask2.len(),
        gathered(st, scale, q, k1, v1, mask1),
        fin(st.m),
    ensures
        gathered(page_step(st, scale, q, k2, v2, mask2), scale, q, k1 + k2, v1 + v2, mask1 + mask2),
        fin(page_step(st, scale, q, k2, v2, mask2).m),
{
    let x1 = scores(scale, q, k1, mask1);
    let x2 = scores(scale, q, k2, mask2);
    let x = scores(scale, q, k1 + k2, mask1 + mask2);
    assert(x =~= x1 + x2);
    let next = page_step(st, scale, q, k2, v2, mask2);
    let m = next.m;
    lemma_highest_join(neg_infinity(), x1, mask1, x2, mask2, x2.len());
    lemma_scores_fin(fin, scale, q, k1, mask1);
    lemma_scores_fin(fin, scale, q, k2, mask2);
    lemma_highest_fin(fin, st.m, x2, mask2, x2.len());
    let w1 = weights(x1, st.m);
    let w1m = weights(x1, m);
    let w2 = weights(x2, m);
    let w = weights(x, m);
    assert(w =~= w1m + w2);
    lemma_weights_fin(fin, x1, st.m);
    lemma_weights_fin(fin, x1, m);
    lemma_weights_fin(fin, x2, m);
    let e = exp(minus(st.m, m));
    assert(fin(e));
    assert forall|i: int| 0 <= i < w1.len() implies #[trigger] w1m[i] == times(w1[i], e) by {
        if fin(x1[i]) {
            assert(times(exp(minus(x1[i], st.m)), exp(minus(st.m, m))) == exp(minus(x1[i], m)));
        } else {
            assert(exp(minus(neg_infinity(), m)) == zero::<T>());
            assert(exp(minus(neg_infinity(), st.m)) == zero::<T>());
        }
    }
    lemma_sum_scale(fin, w1, e, w1m);
    lemma_sum_fin(fin, zero(), w1m);
    lemma_sum_shift(fin, sum_from(zero(), w1m), w2);
    lemma_sum_join(zero(), w1m, w2);
    assert forall|j: int| 0 <= j < q.len() implies #[trigger] next.acc[j] == dot(
        w,
        column(v1 + v2, j),
    ) by {
        let c1 = column(v1, j);
        let c2 = column(v2, j);
        let p1 = products(w1, c1);
        let p1m = products(w1m, c1);
        let p2 = products(w2, c2);
        assert forall|i: int| 0 <= i < p1.len() implies fin(#[trigger] p1[i]) && fin(p1m[i])
            && p1m[i] == times(p1[i], e) by {
            assert(fin(v1[i][j]));
            assert(fin(w1[i]) && fin(w1m[i]));
            assert(w1m[i] == times(w1[i], e));
            assert(times(times(w1[i], c1[i]), e) == times(times(w1[i], e), c1[i]));
        }
        assert(all_fin(fin, p1m)) by {
            assert forall|i: int| 0 <= i < p1m.len() implies fin(#[trigger] p1m[i]) by {
                assert(fin(p1[i]));
            }
        }
        assert(all_fin(fin, p2)) by {
            assert forall|i: int| 0 <= i < p2.len() implies fin(#[trigger] p2[i]) by {
                assert(fin(v2[i][j]));
                assert(fin(w2[i]));
            }
        }
        assert forall|i: int| 0 <= i < p1.len() implies #[trigger] p1m[i] == times(p1[i], e) by {
            assert(fin(p1[i]));
        }
        lemma_sum_scale(fin, p1, e, p1m);
        lemma_sum_fin(fin, zero(), p1m);
        lemma_sum_shift(fin, sum_from(zero(), p1m), p2);
        lemma_sum_join(zero(), p1m, p2);
        assert(products(w, column(v1 + v2, j)) =~= p1m + p2);
        assert(next.acc[j] == plus(times(st.acc[j], e), dot(w2, c2)));
    }
}

/// The first page is gathered, if a row of it is visible.
pub proof fn lemma_gather_first<T: Scalar>(
    fin: spec_fn(T) -> bool,
    scale: T,
    q: Seq<T>,
    keys: Seq<Seq<T>>,
    vals: Seq<Seq<T>>,
    mask: Seq<bool>,
)
    requires
        exact(fin),
        fin(scale),
        all_fin(fin, q),
        seen_fin(fin, keys, mask, q.len()),
        rows_fin(fin, vals, q.len()),
        keys.len() == vals.len() == mask.len(),
        exists|t: int| 0 <= t < mask.len() && #[trigger] mask[t],
    ensures
        gathered(
            page_step(fresh(q.len()), scale, q, keys, vals, mask),
            scale,
            q,
            keys,
            vals,
            mask,
        ),
        fin(page_step(fresh(q.len()), scale, q, keys, vals, mask).m),
{
    let x = scores(scale, q, keys, mask);
    let next = page_step(fresh(q.len()), scale, q, keys, vals, mask);
    let m = next.m;
    let w = weights(x, m);
    lemma_scores_fin(fin, scale, q, keys, mask);
    lemma_highest_fin(fin, neg_infinity(), x, mask, x.len());
    lemma_weights_fin(fin, x, m);
    lemma_sum_fin(fin, zero(), w);
    let e = exp(minus(neg_infinity(), m));
    assert(e == zero::<T>());
    assert(times(zero::<T>(), zero::<T>()) == zero::<T>());
    assert(plus(sum_from(zero::<T>(), w), zero()) == sum_from(zero::<T>(), w));
    assert forall|j: int| 0 <= j < q.len() implies #[trigger] next.acc[j] == dot(
        w,
        column(vals, j),
    ) by {
        let c = column(vals, j);
        assert forall|i: int| 0 <= i < w.len() implies fin(#[trigger] c[i]) by {
            assert(fin(vals[i][j]));
        }
        lemma_dot_fin(fin, w, c);
        assert(plus(dot(w, c), zero()) == dot(w, c));
    }
}

/// Weights of rows that are not looked at vanish, and so do their shares.
proof fn lemma_zero_tail<T: Scalar>(fin: spec_fn(T) -> bool, start: T, s: Seq<T>)
    requires
        exact(fin),
        fin(start),
        forall|i: int| 0 <= i < s.len() ==> #[trigger] s[i] == zero::<T>(),
    ensures
        sum_from(start, s) == start,
    decreases s.len(),
{
    if s.len() > 0 {
        lemma_zero_tail(fin, start, s.drop_last());
        assert(s[s.len() - 1] == zero::<T>());
        assert(plus(start, zero()) == start);
    }
}

/// In exact arithmetic, the rows from `seen` on can be left out if none of them
/// is looked at.
pub proof fn drop_unseen<T: Scalar>(
    fin: spec_fn(T) -> bool,
    scale: T,
    q: Seq<T>,
    keys: Seq<Seq<T>>,
    vals: Seq<Seq<T>>,
    mask: Seq<bool>,
    seen: nat,
)
    requires
        exact(fin),
        fin(scale),
        all_fin(fin, q),
        seen_fin(fin, keys, mask, q.len()),
        rows_fin(fin, vals, q.len()),
        keys.len() == vals.len() == mask.len(),
        seen <= mask.len(),
        exists|t: int| 0 <= t < seen && #[trigger] mask[t],
        forall|t: int| seen <= t < mask.len() ==> !#[trigger] mask[t],
    ensures
        softmax_attention(scale, q, keys, vals, mask) == softmax_attention(
            scale,
            q,
            keys.take(seen as int),
            vals.take(seen as int),
            mask.take(seen as int),
        ),
{
    let n = seen as int;
    let k1 = keys.take(n);
    let v1 = vals.take(n);
    let mask1 = mask.take(n);
    let x = scores(scale, q, keys, mask);
    let x1 = scores(scale, q, k1, mask1);
    assert(x1 =~= x.take(n));
    lemma_highest_unseen(neg_infinity(), x, mask, seen, x.len());
    assert forall|t: int| 0 <= t < seen implies #[trigger] x1[t] == x[t] by {}
    assert forall|t: int| 0 <= t < seen implies #[trigger] mask1[t] == mask[t] by {}
    lemma_highest_prefix(neg_infinity(), x1, mask1, x, mask, seen);
    let m = highest(neg_infinity(), x, mask, x.len());
    assert(m == highest(neg_infinity(), x1, mask1, x1.len()));
    lemma_scores_fin(fin, scale, q, keys, mask);
    lemma_highest_fin(fin, neg_infinity(), x, mask, x.len());
    let w = weights(x, m);
    let w1 = weights(x1, m);
    let w2 = w.skip(n);
    lemma_weights_fin(fin, x, m);
    assert(w =~= w1 + w2);
    assert(all_fin(fin, w1)) by {
        assert forall|i: int| 0 <= i < w1.len() implies fin(#[trigger] w1[i]) by {
            assert(w1[i] == w[i]);
        }
    }
    assert forall|i: int| 0 <= i < w2.len() implies #[trigger] w2[i] == zero::<T>() by {
        assert(w2[i] == w[n + i]);
        assert(!mask[n + i]);
        assert(exp(minus(neg_infinity(), m)) == zero::<T>());
    }
    lemma_sum_fin(fin, zero(), w1);
    lemma_zero_tail(fin, sum_from(zero(), w1), w2);
    lemma_sum_join(zero(), w1, w2);
    assert forall|j: int| 0 <= j < q.len() implies #[trigger] dot(w, column(vals, j)) == dot(
        w1,
        column(v1, j),
    ) by {
        let c = column(vals, j);
        let p = products(w, c);
        let p1 = products(w1, column(v1, j));
        let p2 = p.skip(n);
        assert(p =~= p1 + p2);
        assert forall|i: int| 0 <= i < p1.len() implies fin(#[trigger] p1[i]) by {
            assert(fin(w1[i]));
            assert(fin(vals[i][j]));
        }
        assert forall|i: int| 0 <= i < p2.len() implies #[trigger] p2[i] == zero::<T>() by {
            assert(w2[i] == zero::<T>());
            assert(w[n + i] == w2[i]);
            assert(fin(vals[n + i][j]));
            assert(times(zero(), vals[n + i][j]) == zero::<T>());
        }
        lemma_sum_fin(fin, zero(), p1);
        lemma_zero_tail(fin, sum_from(zero(), p1), p2);
        lemma_sum_join(zero(), p1, p2);
    }
    assert(softmax_attention(scale, q, keys, vals, mask) =~= softmax_attention(
        scale,
        q,
        k1,
        v1,
        mask1,
    )) by {
        assert forall|j: int| 0 <= j < q.len() implies softmax_attention(
            scale,
            q,
            keys,
            vals,
            mask,
        )[j] == softmax_attention(scale, q, k1, v1, mask1)[j] by {
            assert(dot(w, column(vals, j)) == dot(w1, column(v1, j)));
        }
    }
}

/// In exact arithmetic, softmax attention depends on nothing but the query row,
/// the mask, and the keys and values that the mask lets through.
pub proof fn softmax_depends_on_seen<T: Scalar>(
    fin: spec_fn(T) -> bool,
    scale: T,
    q: Seq<T>,
    keys_a: Seq<Seq<T>>,
    vals_a: Seq<Seq<T>>,
    keys_b: Seq<Seq<T>>,
    vals_b: Seq<Seq<T>>,
    mask: Seq<bool>,
)
    requires
        exact(fin),
        fin(scale),
        all_fin(fin, q),
        seen_fin(fin, keys_a, mask, q.len()),
        rows_fin(fin, vals_a, q.len()),
        rows_fin(fin, vals_b, q.len()),
        keys_a.len() == vals_a.len() == mask.len(),
        keys_b.len() == vals_b.len() == mask.len(),
        exists|t: int| 0 <= t < mask.len() && #[trigger] mask[t],
        forall|t: int| 0 <= t < mask.len() && mask[t] ==> #[trigger] keys_a[t] == keys_b[t],
        forall|t: int| 0 <= t < mask.len() && mask[t] ==> #[trigger] vals_a[t] == vals_b[t],
    ensures
        softmax_attention(scale, q, keys_a, vals_a, mask) == softmax_attention(
            scale,
            q,
            keys_b,
            vals_b,
            mask,
        ),
{
    let x = scores(scale, q, keys_a, mask);
    assert(x =~= scores(scale, q, keys_b, mask)) by {
        assert forall|t: int| 0 <= t < mask.len() implies #[trigger] x[t] == scores(
            scale,
            q,
            keys_b,
            mask,
        )[t] by {
            if mask[t] {
                assert(keys_a[t] == keys_b[t]);
            }
        }
    }
    let m = highest(neg_infinity(), x, mask, x.len());
    let w = weights(x, m);
    lemma_scores_fin(fin, scale, q, keys_a, mask);
    lemma_highest_fin(fin, neg_infinity(), x, mask, x.len());
    assert forall|j: int| 0 <= j < q.len() implies #[trigger] products(w, column(vals_a, j))
        == products(w, column(vals_b, j)) by {
        let pa = products(w, column(vals_a, j));
        let pb = products(w, column(vals_b, j));
        assert forall|t: int| 0 <= t < mask.len() implies #[trigger] pa[t] == pb[t] by {
            if mask[t] {
                assert(vals_a[t] == vals_b[t]);
            } else {
                assert(exp(minus(neg_infinity(), m)) == zero::<T>());
                assert(fin(vals_a[t][j]) && fin(vals_b[t][j]));
                assert(times(zero(), vals_a[t][j]) == zero::<T>());
                assert(times(zero(), vals_b[t][j]) == zero::<T>());
            }
        }
        assert(pa =~= pb);
    }
    let a = softmax_attention(scale, q, keys_a, vals_a, mask);
    let b = softmax_attention(scale, q, keys_b, vals_b, mask);
    assert forall|j: int| 0 <= j < q.len() implies a[j] == b[j] by {
        assert(products(w, column(vals_a, j)) == products(w, column(vals_b, j)));
    }
    assert(a =~= b);
}

/// Rows that are not looked at do not raise the highest score.
proof fn lemma_highest_unseen<T: Scalar>(m: T, x: Seq<T>, mask: Seq<bool>, seen: nat, i: nat)
    requires
        seen <= i <= mask.len(),
        forall|t: int| seen <= t < mask.len() ==> !#[trigger] mask[t],
    ensures
        highest(m, x, mask, i) == highest(m, x, mask, seen),
    decreases i,
{
    if i > seen {
        lemma_highest_unseen(m, x, mask, seen, (i - 1) as nat);
        assert(!mask[i - 1]);
    }
}

} // verus!
