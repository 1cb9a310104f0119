//! One query row against one page of the cache: the step of the online softmax.
use crate::memory::read;
use crate::scalar::{
    dot, empty_sum, exceeds, exp, functional, minus, neg_infinity, over, plus, products, sum_from,
    times, zero, Scalar,
};
use vstd::prelude::*;

verus! {

/// What a query row has gathered from the pages seen so far.
pub struct RowState<T> {
    /// The highest score.
    pub m: T,
    /// The sum of the weights, each relative to the highest score.
    pub l: T,
    /// The sum of the value rows, each times its weight.
    pub acc: Seq<T>,
}

/// The state of a row before the first page.
pub open spec fn fresh<T: Scalar>(d: nat) -> RowState<T> {
    RowState { m: neg_infinity::<T>(), l: zero::<T>(), acc: Seq::new(d, |j: int| zero::<T>()) }
}

/// The scores of the query row `q` against the rows of a page.
pub open spec fn scores<T: Scalar>(
    scale: T,
    q: Seq<T>,
    keys: Seq<Seq<T>>,
    mask: Seq<bool>,
) -> Seq<T> {
    Seq::new(
        keys.len(),
        |i: int|
            if mask[i] {
                times(dot(q, keys[i]), scale)
            } else {
                neg_infinity::<T>()
            },
    )
}

/// The highest of `m` and the first `i` scores that the mask lets through.
pub open spec fn highest<T: Scalar>(m: T, x: Seq<T>, mask: Seq<bool>, i: nat) -> T
    decreases i,
{
    if i == 0 {
        m
    } else {
        let h = highest(m, x, mask, (i - 1) as nat);
        if mask[i - 1] && exceeds(x[i - 1], h) {
            x[i - 1]
        } else {
            h
        }
    }
}

/// The weights of the scores `x` relative to the score `m`.
pub open spec fn weights<T: Scalar>(x: Seq<T>, m: T) -> Seq<T> {
    Seq::new(x.len(), |i: int| exp(minus(x[i], m)))
}

/// Column `j` of the rows.
pub open spec fn column<T>(rows: Seq<Seq<T>>, j: int) -> Seq<T> {
    Seq::new(rows.len(), |i: int| rows[i][j])
}

/// The state of the query row `q` after one more page.
pub open spec fn page_step<T: Scalar>(
    st: RowState<T>,
    scale: T,
    q: Seq<T>,
    keys: Seq<Seq<T>>,
    vals: Seq<Seq<T>>,
    mask: Seq<bool>,
) -> RowState<T> {
    let x = scores(scale, q, keys, mask);
    let m = highest(st.m, x, mask, x.len());
    let w = weights(x, m);
    let e = exp(minus(st.m, m));
    RowState {
        m,
        l: plus(times(st.l, e), sum_from(zero::<T>(), w)),
        acc: Seq::new(
            st.acc.len(),
            |j: int| plus(times(st.acc[j], e), dot(w, column(vals, j))),
        ),
    }
}

/// The output of a row that has seen every page.
pub open spec fn output<T: Scalar>(st: RowState<T>) -> Seq<T> {
    Seq::new(st.acc.len(), |j: int| over(st.acc[j], st.l))
}

/// The buffer `buf` as rows of `d` elements.
pub open spec fn rows<T>(buf: Seq<T>, count: nat, d: nat) -> Seq<Seq<T>> {
    Seq::new(count, |i: int| read(buf, i * d, d))
}

/// The product of the row `q` with the row of `k` from `at` on.
fn dot_at<T: Scalar>(q: &[T], k: &[T], at: usize) -> (r: T)
    requires
        functional::<T>(),
        at + q@.len() <= k@.len(),
    ensures
        r == dot(q@, read(k@, at as int, q@.len())),
{
    let len: usize = k.len();
    let mut sum = T::empty_sum();
    let ghost p = products(q@, read(k@, at as int, q@.len()));
    for t in 0..q.len()
        invariant
            functional::<T>(),
            len == k@.len(),
            at + q@.len() <= k@.len(),
            p == products(q@, read(k@, at as int, q@.len())),
            sum == sum_from(empty_sum::<T>(), p.take(t as int)),
    {
        let x = q[t].times(k[at + t]);
        sum = sum.plus(x);
        assert(p.take(t + 1).drop_last() =~= p.take(t as int));
    }
    assert(p.take(p.len() as int) =~= p);
    sum
}

/// The product of the weights `w` with column `j` of the rows of `v`.
fn dot_column<T: Scalar>(w: &[T], v: &[T], d: usize, j: usize) -> (r: T)
    requires
        functional::<T>(),
        j < d,
        v@.len() == w@.len() * d,
    ensures
        r == dot(w@, column(rows(v@, w@.len(), d as nat), j as int)),
{
    let len: usize = v.len();
    let mut sum = T::empty_sum();
    let ghost c = column(rows(v@, w@.len(), d as nat), j as int);
    let ghost p = products(w@, c);
    for i in 0..w.len()
        invariant
            functional::<T>(),
            j < d,
            len == v@.len(),
            v@.len() == w@.len() * d,
            c == column(rows(v@, w@.len(), d as nat), j as int),
            p == products(w@, c),
            sum == sum_from(empty_sum::<T>(), p.take(i as int)),
    {
        proof {
            lemma_row_fits(i as int, w@.len() as int, d as int);
        }
        let x = w[i].times(v[i * d + j]);
        sum = sum.plus(x);
        assert(p.take(i + 1).drop_last() =~= p.take(i as int));
    }
    assert(p.take(p.len() as int) =~= p);
    sum
}

/// Row `i` of `count` rows of `d` elements ends within them.
pub(crate) proof fn lemma_row_fits(i: int, count: int, d: int)
    requires
        0 <= i < count,
        0 <= d,
    ensures
        0 <= i * d,
        i * d + d <= count * d,
{
    assert(0 <= i * d && i * d + d <= count * d) by (nonlinear_arith)
        requires
            0 <= i < count,
            0 <= d,
    ;
}

/// Brings one query row one page further. `x` receives the weights of the page.
pub fn update_row<T: Scalar>(
    scale: T,
    q: &[T],
    kj: &[T],
    vj: &[T],
    masks: &[bool],
    mask_at: usize,
    x: &mut [T],
    m: T,
    l: T,
    acc: &mut [T],
) -> (r: (T, T))
    requires
        functional::<T>(),
        old(acc)@.len() == q@.len(),
        kj@.len() == old(x)@.len() * q@.len(),
        vj@.len() == old(x)@.len() * q@.len(),
        mask_at + old(x)@.len() <= masks@.len(),
    ensures
        (RowState { m: r.0, l: r.1, acc: final(acc)@ }) == page_step(
            RowState { m, l, acc: old(acc)@ },
            scale,
            q@,
            rows(kj@, old(x)@.len(), q@.len()),
            rows(vj@, old(x)@.len(), q@.len()),
            read(masks@, mask_at as int, old(x)@.len()),
        ),
        final(x)@ == weights(
            scores(
                scale,
                q@,
                rows(kj@, old(x)@.len(), q@.len()),
                read(masks@, mask_at as int, old(x)@.len()),
            ),
            r.0,
        ),
{
    let d: usize = q.len();
    let bs: usize = x.len();
    let masks_len: usize = masks.len();
    let keys_len: usize = kj.len();
    let ghost keys = rows(kj@, bs as nat, d as nat);
    let ghost vals = rows(vj@, bs as nat, d as nat);
    let ghost mask = read(masks@, mask_at as int, bs as nat);
    let ghost s = scores(scale, q@, keys, mask);
    let mut mi: T = m;
    for i in 0..bs
        invariant
            functional::<T>(),
            d == q@.len(),
            bs == x@.len(),
            keys_len == kj@.len(),
            keys_len == bs * d,
            keys == rows(kj@, bs as nat, d as nat),
            mask == read(masks@, mask_at as int, bs as nat),
            masks_len == masks@.len(),
            mask_at + bs <= masks_len,
            s == scores(scale, q@, keys, mask),
            forall|t: int| 0 <= t < i ==> #[trigger] x@[t] == s[t],
            mi == highest(m, s, mask, i as nat),
    {
        if !masks[mask_at + i] {
            x[i] = T::neg_infinity();
        } else {
            proof {
                lemma_row_fits(i as int, bs as int, d as int);
            }
            let qk = dot_at(q, kj, i * d).times(scale);
            x[i] = qk;
            if qk.exceeds(mi) {
                mi = qk;
            }
        }
    }
    assert(x@ =~= s);
    let ghost w = weights(s, mi);
    let mut sum = T::zero();
    for i in 0..bs
        invariant
            functional::<T>(),
            bs == x@.len(),
            bs == s.len(),
            w == weights(s, mi),
            forall|t: int| 0 <= t < i ==> #[trigger] x@[t] == w[t],
            forall|t: int| i <= t < bs ==> #[trigger] x@[t] == s[t],
            sum == sum_from(zero::<T>(), w.take(i as int)),
    {
        let e = x[i].minus(mi).exp();
        x[i] = e;
        sum = sum.plus(e);
        assert(w.take(i + 1).drop_last() =~= w.take(i as int));
    }
    assert(x@ =~= w);
    assert(w.take(bs as int) =~= w);
    let e = m.minus(mi).exp();
    let di = l.times(e).plus(sum);
    let ghost acc0 = acc@;
    for j in 0..d
        invariant
            functional::<T>(),
            d == acc@.len(),
            d == acc0.len(),
            x@ == w,
            w.len() == bs,
            vj@.len() == bs * d,
            vals == rows(vj@, bs as nat, d as nat),
            forall|t: int| 0 <= t < j ==> #[trigger] acc@[t] == plus(
                times(acc0[t], e),
                dot(w, column(vals, t)),
            ),
            forall|t: int| j <= t < d ==> #[trigger] acc@[t] == acc0[t],
    {
        let xv = dot_column(x, vj, d, j);
        acc[j] = acc[j].times(e).plus(xv);
    }
    assert(acc@ =~= page_step(RowState { m, l, acc: acc0 }, scale, q@, keys, vals, mask).acc);
    (mi, di)
}

} // verus!
