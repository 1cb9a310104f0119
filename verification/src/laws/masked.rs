//! What a query row does not look at, in rounding arithmetic.
use crate::attention::block::Block;
use crate::attention::online::{column, highest, output, page_step, scores, weights, RowState};
use crate::ceil::lemma_ceil_div;
use crate::laws::concat::disjoint;
use crate::memory::read;
use crate::scalar::{
    dot, empty_sum, exceeds, exp, minus, neg_infinity, over, plus, products, sum_from, times, zero,
    Scalar,
};
use vstd::prelude::*;

verus! {

/// `m` lies above minus infinity: the weight of minus infinity relative to `m` is
/// zero.
pub open spec fn settled<T: Scalar>(m: T) -> bool {
    exp(minus(neg_infinity(), m)) == zero::<T>()
}

/// `same` is an equivalence that sums, and products and quotients in their first
/// operand, respect. Equality is one; so is equality of floating point numbers as
/// numbers, for which the sign of zero does not count.
pub open spec fn congruent<T: Scalar>(same: spec_fn(T, T) -> bool) -> bool {
    &&& forall|a: T| #[trigger] same(a, a)
    &&& forall|a: T, b: T| #[trigger] same(a, b) ==> same(b, a)
    &&& forall|a: T, b: T, c: T| #[trigger] same(a, b) && #[trigger] same(b, c) ==> same(a, c)
    &&& forall|a: T, b: T, c: T, d: T|
        same(a, c) && same(b, d) ==> same(#[trigger] plus(a, b), #[trigger] plus(c, d))
    &&& forall|a: T, b: T, c: T|
        same(a, b) ==> same(#[trigger] times(a, c), #[trigger] times(b, c))
    &&& forall|a: T, b: T, c: T| same(a, b) ==> same(#[trigger] over(a, c), #[trigger] over(b, c))
}

/// Zero times a number that `fin` singles out is zero, as far as `same` tells.
pub open spec fn vanishing<T: Scalar>(
    fin: spec_fn(T) -> bool,
    same: spec_fn(T, T) -> bool,
) -> bool {
    &&& congruent(same)
    &&& forall|a: T| fin(a) ==> same(#[trigger] times(zero(), a), zero())
}

/// The numbers that `fin` singles out lie above minus infinity.
pub open spec fn grounded<T: Scalar>(fin: spec_fn(T) -> bool) -> bool {
    forall|a: T| #[trigger] fin(a) ==> settled(a) && exceeds(a, neg_infinity())
}

/// Masked terms vanish: for numbers that `fin` singles out, the weight of minus
/// infinity is zero, zero times a number is zero, and a number exceeds minus
/// infinity. Sums may round.
pub open spec fn masks_vanish<T: Scalar>(fin: spec_fn(T) -> bool) -> bool {
    &&& forall|a: T| fin(a) ==> #[trigger] exp(minus(neg_infinity(), a)) == zero::<T>()
    &&& forall|a: T| fin(a) ==> #[trigger] times(zero(), a) == zero::<T>()
    &&& forall|a: T| fin(a) ==> #[trigger] exceeds(a, neg_infinity())
}

/// Equality.
pub open spec fn equal<T>() -> spec_fn(T, T) -> bool {
    |a: T, b: T| a == b
}

/// Where masked terms vanish, they do so up to equality.
pub proof fn lemma_masks_vanish<T: Scalar>(fin: spec_fn(T) -> bool)
    requires
        masks_vanish(fin),
    ensures
        vanishing(fin, equal()),
        grounded(fin),
{
}

/// A page of which nothing is seen leaves no trace, as far as `same` tells: the
/// weight of a finite score relative to itself is one, adding zero changes
/// nothing, and it does not change the numbers at all that `pos` singles out,
/// among them the sums of weights.
pub open spec fn resting<T: Scalar>(
    fin: spec_fn(T) -> bool,
    same: spec_fn(T, T) -> bool,
    pos: spec_fn(T) -> bool,
) -> bool {
    &&& forall|x: T, a: T| fin(a) ==> #[trigger] times(x, exp(minus(a, a))) == x
    &&& same(empty_sum(), zero())
    &&& forall|x: T| same(#[trigger] plus(x, zero()), x)
    &&& pos(zero())
    &&& forall|a: T| pos(#[trigger] exp(a))
    &&& forall|a: T, b: T| pos(a) && pos(b) ==> pos(#[trigger] plus(a, b))
    &&& forall|a: T, b: T| pos(a) ==> pos(#[trigger] times(a, exp(b)))
    &&& forall|a: T| pos(a) ==> #[trigger] plus(a, zero()) == a
}

/// Besides masked terms, masked pages vanish: the weight of a finite score
/// relative to itself is one, and neither adding zero nor an empty sum changes
/// anything. Other sums may round.
pub open spec fn pages_vanish<T: Scalar>(fin: spec_fn(T) -> bool) -> bool {
    &&& masks_vanish(fin)
    &&& forall|x: T, a: T| fin(a) ==> #[trigger] times(x, exp(minus(a, a))) == x
    &&& forall|x: T| #[trigger] plus(x, zero()) == x
    &&& empty_sum::<T>() == zero::<T>()
}

/// Where masked pages vanish, they do so up to equality.
pub proof fn lemma_pages_vanish<T: Scalar>(fin: spec_fn(T) -> bool)
    requires
        pages_vanish(fin),
    ensures
        vanishing(fin, equal()),
        grounded(fin),
        resting(fin, equal(), |x: T| true),
{
}

/// The numbers of `a` and of `b` are the same, one by one, as far as `same` tells.
pub open spec fn all_same<T>(same: spec_fn(T, T) -> bool, a: Seq<T>, b: Seq<T>) -> bool {
    &&& a.len() == b.len()
    &&& forall|i: int| 0 <= i < a.len() ==> same(#[trigger] a[i], #[trigger] b[i])
}

/// Numbers that are equal one by one are equal.
pub proof fn lemma_all_equal<T>(a: Seq<T>, b: Seq<T>)
    requires
        all_same(equal(), a, b),
    ensures
        a == b,
{
    let same = equal::<T>();
    assert forall|i: int| 0 <= i < a.len() implies a[i] == b[i] by {
        assert(same(a[i], b[i]));
    }
    assert(a =~= b);
}

/// Two states have the same highest score and the same sum of weights, and the
/// same weighted values as far as `same` tells.
pub open spec fn alike<T: Scalar>(
    same: spec_fn(T, T) -> bool,
    a: RowState<T>,
    b: RowState<T>,
) -> bool {
    &&& a.m == b.m
    &&& a.l == b.l
    &&& all_same(same, a.acc, b.acc)
}

/// The states of rows that are alike give outputs that are.
pub(crate) proof fn lemma_output_alike<T: Scalar>(
    same: spec_fn(T, T) -> bool,
    a: RowState<T>,
    b: RowState<T>,
)
    requires
        congruent(same),
        alike(same, a, b),
    ensures
        all_same(same, output(a), output(b)),
{
    let x = output(a);
    let y = output(b);
    assert forall|i: int| 0 <= i < x.len() implies same(#[trigger] x[i], #[trigger] y[i]) by {
        assert(same(a.acc[i], b.acc[i]));
        assert(same(over(a.acc[i], a.l), over(b.acc[i], a.l)));
    }
}

/// Sums of numbers that are the same are the same.
pub(crate) proof fn lemma_sum_same<T: Scalar>(
    same: spec_fn(T, T) -> bool,
    start: T,
    a: Seq<T>,
    b: Seq<T>,
)
    requires
        congruent(same),
        all_same(same, a, b),
    ensures
        same(sum_from(start, a), sum_from(start, b)),
    decreases a.len(),
{
    if a.len() > 0 {
        let x = a.drop_last();
        let y = b.drop_last();
        assert forall|i: int| 0 <= i < x.len() implies same(#[trigger] x[i], #[trigger] y[i]) by {
            assert(same(a[i], b[i]));
        }
        lemma_sum_same(same, start, x, y);
        assert(same(a[a.len() - 1], b[b.len() - 1]));
        assert(same(plus(sum_from(start, x), a.last()), plus(sum_from(start, y), b.last())));
    }
}

/// Rows that are alike stay so over a page on which they see the same.
pub(crate) proof fn lemma_page_alike<T: Scalar>(
    fin: spec_fn(T) -> bool,
    same: spec_fn(T, T) -> bool,
    st_a: RowState<T>,
    st_b: RowState<T>,
    scale: T,
    q: Seq<T>,
    keys_a: Seq<Seq<T>>,
    vals_a: Seq<Seq<T>>,
    keys_b: Seq<Seq<T>>,
    vals_b: Seq<Seq<T>>,
    mask: Seq<bool>,
)
    requires
        vanishing(fin, same),
        alike(same, st_a, st_b),
        keys_a.len() == vals_a.len() == mask.len(),
        keys_b.len() == vals_b.len() == mask.len(),
        forall|i: int| 0 <= i < mask.len() && mask[i] ==> #[trigger] keys_a[i] == keys_b[i],
        forall|i: int| 0 <= i < mask.len() && mask[i] ==> #[trigger] vals_a[i] == vals_b[i],
        forall|i: int, j: int|
            0 <= i < mask.len() && !mask[i] && 0 <= j < st_a.acc.len() ==> fin(
                #[trigger] vals_a[i][j],
            ),
        forall|i: int, j: int|
            0 <= i < mask.len() && !mask[i] && 0 <= j < st_a.acc.len() ==> fin(
                #[trigger] vals_b[i][j],
            ),
        settled(page_step(st_a, scale, q, keys_a, vals_a, mask).m),
    ensures
        alike(
            same,
            page_step(st_a, scale, q, keys_a, vals_a, mask),
            page_step(st_b, scale, q, keys_b, vals_b, mask),
        ),
{
    let a = page_step(st_a, scale, q, keys_a, vals_a, mask);
    let b = page_step(st_b, scale, q, keys_b, vals_b, mask);
    let x = scores(scale, q, keys_a, mask);
    assert(x =~= scores(scale, q, keys_b, mask)) by {
        assert forall|t: int| 0 <= t < mask.len() implies #[trigger] x[t] == scores(
            scale,
            q,
            keys_b,
            mask,
        )[t] by {
            if mask[t] {
                assert(keys_a[t] == keys_b[t]);
            }
        }
    }
    let w = weights(x, a.m);
    let e = exp(minus(st_a.m, a.m));
    assert forall|j: int| 0 <= j < a.acc.len() implies same(
        #[trigger] a.acc[j],
        #[trigger] b.acc[j],
    ) by {
        let pa = products(w, column(vals_a, j));
        let pb = products(w, column(vals_b, j));
        assert forall|t: int| 0 <= t < pa.len() implies same(#[trigger] pa[t], #[trigger] pb[t]) by {
            if mask[t] {
                assert(vals_a[t] == vals_b[t]);
            } else {
                assert(w[t] == zero::<T>());
                let u = vals_a[t][j];
                let v = vals_b[t][j];
                assert(fin(u) && fin(v));
                assert(same(times(zero(), u), zero()));
                assert(same(times(zero(), v), zero()));
                assert(same(zero(), times(zero(), v)));
            }
        }
        lemma_sum_same(same, empty_sum(), pa, pb);
        assert(same(st_a.acc[j], st_b.acc[j]));
        assert(same(times(st_a.acc[j], e), times(st_b.acc[j], e)));
        assert(same(
            plus(times(st_a.acc[j], e), dot(w, column(vals_a, j))),
            plus(times(st_b.acc[j], e), dot(w, column(vals_b, j))),
        ));
    }
}

/// The highest score is one that `top` singles out if it was, or if a visible
/// score exceeds minus infinity, where no other score can come out highest.
proof fn lemma_highest_top<T: Scalar>(
    top: spec_fn(T) -> bool,
    m: T,
    x: Seq<T>,
    mask: Seq<bool>,
    i: nat,
)
    requires
        m == neg_infinity::<T>() || top(m),
        forall|t: int, y: T| 0 <= t < i && mask[t] && #[trigger] exceeds(x[t], y) ==> top(x[t]),
    ensures
        highest(m, x, mask, i) == neg_infinity::<T>() || top(highest(m, x, mask, i)),
        top(m) ==> top(highest(m, x, mask, i)),
        (exists|t: int| 0 <= t < i && mask[t] && #[trigger] exceeds(x[t], neg_infinity())) ==> top(
            highest(m, x, mask, i),
        ),
    decreases i,
{
    if i > 0 {
        lemma_highest_top(top, m, x, mask, (i - 1) as nat);
        let h = highest(m, x, mask, (i - 1) as nat);
        if exists|t: int| 0 <= t < i && mask[t] && #[trigger] exceeds(x[t], neg_infinity()) {
            let t = choose|t: int|
                0 <= t < i && mask[t] && #[trigger] exceeds(x[t], neg_infinity());
            if t < i - 1 {
                assert(exceeds(x[t], neg_infinity()));
                assert(top(h));
            }
        }
        if mask[i - 1] && exceeds(x[i - 1], h) {
            assert(top(x[i - 1]));
        }
    }
}

/// A sum of numbers that are zero is zero, as far as `same` tells.
proof fn lemma_zero_sum<T: Scalar>(same: spec_fn(T, T) -> bool, start: T, s: Seq<T>)
    requires
        congruent(same),
        forall|x: T| same(#[trigger] plus(x, zero()), x),
        same(start, zero()),
        forall|i: int| 0 <= i < s.len() ==> same(#[trigger] s[i], zero()),
    ensures
        same(sum_from(start, s), zero()),
    decreases s.len(),
{
    if s.len() > 0 {
        lemma_zero_sum(same, start, s.drop_last());
        assert(same(s[s.len() - 1], zero()));
        assert(same(plus(sum_from(start, s.drop_last()), s.last()), plus(zero(), zero())));
        assert(same(plus(zero(), zero()), zero()));
    }
}

/// A sum of zeros is zero.
proof fn lemma_zeros<T: Scalar>(s: Seq<T>)
    requires
        plus(zero::<T>(), zero()) == zero::<T>(),
        forall|i: int| 0 <= i < s.len() ==> #[trigger] s[i] == zero::<T>(),
    ensures
        sum_from(zero(), s) == zero::<T>(),
    decreases s.len(),
{
    if s.len() > 0 {
        lemma_zeros(s.drop_last());
        assert(s[s.len() - 1] == zero::<T>());
    }
}

/// Scores that are not seen do not raise the highest.
proof fn lemma_highest_masked<T: Scalar>(m: T, x: Seq<T>, mask: Seq<bool>, i: nat)
    requires
        forall|t: int| 0 <= t < i ==> !#[trigger] mask[t],
    ensures
        highest(m, x, mask, i) == m,
    decreases i,
{
    if i > 0 {
        lemma_highest_masked(m, x, mask, (i - 1) as nat);
        assert(!mask[i - 1]);
    }
}

/// A page of which nothing is seen leaves a state alike.
proof fn lemma_masked_page<T: Scalar>(
    fin: spec_fn(T) -> bool,
    same: spec_fn(T, T) -> bool,
    pos: spec_fn(T) -> bool,
    st: RowState<T>,
    scale: T,
    q: Seq<T>,
    keys: Seq<Seq<T>>,
    vals: Seq<Seq<T>>,
    mask: Seq<bool>,
)
    requires
        vanishing(fin, same),
        resting(fin, same, pos),
        settled(st.m),
        fin(st.m),
        pos(st.l),
        keys.len() == vals.len() == mask.len(),
        forall|t: int| 0 <= t < mask.len() ==> !#[trigger] mask[t],
        forall|i: int, j: int|
            0 <= i < vals.len() && 0 <= j < st.acc.len() ==> fin(#[trigger] vals[i][j]),
    ensures
        alike(same, page_step(st, scale, q, keys, vals, mask), st),
{
    let next = page_step(st, scale, q, keys, vals, mask);
    let x = scores(scale, q, keys, mask);
    let w = weights(x, next.m);
    let e = exp(minus(st.m, st.m));
    lemma_highest_masked(st.m, x, mask, x.len());
    assert forall|t: int| 0 <= t < w.len() implies #[trigger] w[t] == zero::<T>() by {
        assert(!mask[t]);
    }
    assert(plus(zero::<T>(), zero()) == zero::<T>());
    lemma_zeros(w);
    assert(times(st.l, e) == st.l);
    assert(plus(st.l, zero()) == st.l);
    assert forall|j: int| 0 <= j < st.acc.len() implies same(
        #[trigger] next.acc[j],
        #[trigger] st.acc[j],
    ) by {
        let p = products(w, column(vals, j));
        assert forall|t: int| 0 <= t < p.len() implies same(#[trigger] p[t], zero()) by {
            assert(fin(vals[t][j]));
            assert(w[t] == zero::<T>());
            assert(same(times(zero(), vals[t][j]), zero()));
        }
        lemma_zero_sum(same, empty_sum(), p);
        let a = st.acc[j];
        let s = dot(w, column(vals, j));
        assert(times(a, e) == a);
        assert(same(a, a));
        assert(same(plus(a, s), plus(a, zero())));
        assert(same(plus(a, zero()), a));
    }
}

/// A sum of numbers that `pos` singles out is one of them.
proof fn lemma_sum_pos<T: Scalar>(pos: spec_fn(T) -> bool, start: T, s: Seq<T>)
    requires
        forall|a: T, b: T| pos(a) && pos(b) ==> pos(#[trigger] plus(a, b)),
        pos(start),
        forall|i: int| 0 <= i < s.len() ==> pos(#[trigger] s[i]),
    ensures
        pos(sum_from(start, s)),
    decreases s.len(),
{
    if s.len() > 0 {
        lemma_sum_pos(pos, start, s.drop_last());
        assert(pos(s[s.len() - 1]));
    }
}

impl<T: Scalar> Block<T> {
    /// Sums of weights are among the numbers that `pos` singles out.
    proof fn lemma_state_pos(
        self,
        fin: spec_fn(T) -> bool,
        same: spec_fn(T, T) -> bool,
        pos: spec_fn(T) -> bool,
        mem: Seq<T>,
        masks: Seq<bool>,
        iq: int,
        j: nat,
    )
        requires
            resting(fin, same, pos),
        ensures
            pos(self.state(mem, masks, iq, j).l),
        decreases j,
    {
        if j > 0 {
            let c = j - 1;
            self.lemma_state_pos(fin, same, pos, mem, masks, iq, c as nat);
            let st = self.state(mem, masks, iq, c as nat);
            let next = self.state(mem, masks, iq, j);
            let x = scores(
                self.cfg.scale,
                self.query(mem, iq),
                self.keys(mem, c),
                self.mask(masks, iq, c),
            );
            let w = weights(x, next.m);
            assert forall|i: int| 0 <= i < w.len() implies pos(#[trigger] w[i]) by {
                assert(pos(exp(minus(x[i], next.m))));
            }
            lemma_sum_pos(pos, zero(), w);
            assert(pos(times(st.l, exp(minus(st.m, next.m)))));
        }
    }

    /// Pages of which a query row sees nothing leave its state alike.
    pub proof fn lemma_masked_pages(
        self,
        fin: spec_fn(T) -> bool,
        same: spec_fn(T, T) -> bool,
        pos: spec_fn(T) -> bool,
        mem: Seq<T>,
        masks: Seq<bool>,
        iq: int,
        from: nat,
        n: nat,
    )
        requires
            vanishing(fin, same),
            resting(fin, same, pos),
            self.leads(mem, masks, iq),
            self.tops(fin, mem, masks, iq),
            0 < from <= n <= self.page_count(),
            forall|j: int, i: int|
                from <= j < n && 0 <= i < self.bs() ==> !#[trigger] self.mask(masks, iq, j)[i],
            forall|j: int, i: int, e: int|
                from <= j < n && 0 <= i < self.bs() && 0 <= e < self.d() ==> fin(
                    #[trigger] self.vals(mem, j)[i][e],
                ),
        ensures
            alike(same, self.state(mem, masks, iq, n), self.state(mem, masks, iq, from)),
        decreases n,
    {
        if n > from {
            let c = n - 1;
            self.lemma_masked_pages(fin, same, pos, mem, masks, iq, from, c as nat);
            self.lemma_state_pos(fin, same, pos, mem, masks, iq, c as nat);
            self.lemma_acc_len(mem, masks, iq, c as nat);
            let st = self.state(mem, masks, iq, c as nat);
            let first = self.state(mem, masks, iq, from);
            let next = self.state(mem, masks, iq, n);
            assert(settled(st.m) && fin(st.m));
            lemma_masked_page(
                fin,
                same,
                pos,
                st,
                self.cfg.scale,
                self.query(mem, iq),
                self.keys(mem, c),
                self.vals(mem, c),
                self.mask(masks, iq, c),
            );
            assert forall|i: int| 0 <= i < next.acc.len() implies same(
                #[trigger] next.acc[i],
                #[trigger] first.acc[i],
            ) by {
                assert(same(next.acc[i], st.acc[i]));
                assert(same(st.acc[i], first.acc[i]));
            }
        }
    }

    /// The score of row `i` of page `j` for query row `iq`.
    pub open spec fn score(self, mem: Seq<T>, iq: int, j: int, i: int) -> T {
        times(dot(self.query(mem, iq), self.keys(mem, j)[i]), self.cfg.scale)
    }

    /// From the first page on, the highest score of query row `iq` lies above
    /// minus infinity.
    pub open spec fn leads(self, mem: Seq<T>, masks: Seq<bool>, iq: int) -> bool {
        forall|j: nat|
            0 < j <= self.page_count() ==> settled((#[trigger] self.state(mem, masks, iq, j)).m)
    }

    /// From the first page on, the highest score of query row `iq` is one that
    /// `top` singles out.
    pub open spec fn tops(
        self,
        top: spec_fn(T) -> bool,
        mem: Seq<T>,
        masks: Seq<bool>,
        iq: int,
    ) -> bool {
        forall|j: nat|
            0 < j <= self.page_count() ==> top((#[trigger] self.state(mem, masks, iq, j)).m)
    }

    /// A query row leads if a score on its first page exceeds minus infinity and
    /// every score that it sees lies above minus infinity if it exceeds anything.
    /// Of floating point numbers the latter holds whatever the score is.
    pub proof fn scores_lead(self, mem: Seq<T>, masks: Seq<bool>, iq: int)
        requires
            exists|t: int|
                0 <= t < self.bs() && self.mask(masks, iq, 0)[t] && #[trigger] exceeds(
                    self.score(mem, iq, 0, t),
                    neg_infinity(),
                ),
            forall|j: int, i: int, y: T|
                0 <= j < self.page_count() && 0 <= i < self.bs() && self.mask(masks, iq, j)[i]
                    && #[trigger] exceeds(self.score(mem, iq, j, i), y) ==> settled(
                    self.score(mem, iq, j, i),
                ),
        ensures
            self.leads(mem, masks, iq),
    {
        let top = |m: T| settled(m);
        assert forall|j: int, i: int, y: T|
            0 <= j < self.page_count() && 0 <= i < self.bs() && self.mask(masks, iq, j)[i]
                && #[trigger] exceeds(self.score(mem, iq, j, i), y) implies top(
            self.score(mem, iq, j, i),
        ) by {
            assert(settled(self.score(mem, iq, j, i)));
        }
        assert forall|j: nat| 0 < j <= self.page_count() implies settled(
            (#[trigger] self.state(mem, masks, iq, j)).m,
        ) by {
            self.lemma_tops(top, mem, masks, iq, j);
        }
    }

    proof fn lemma_tops(
        self,
        top: spec_fn(T) -> bool,
        mem: Seq<T>,
        masks: Seq<bool>,
        iq: int,
        j: nat,
    )
        requires
            exists|t: int|
                0 <= t < self.bs() && self.mask(masks, iq, 0)[t] && #[trigger] exceeds(
                    self.score(mem, iq, 0, t),
                    neg_infinity(),
                ),
            forall|j: int, i: int, y: T|
                0 <= j < self.page_count() && 0 <= i < self.bs() && self.mask(masks, iq, j)[i]
                    && #[trigger] exceeds(self.score(mem, iq, j, i), y) ==> top(
                    self.score(mem, iq, j, i),
                ),
            0 < j <= self.page_count(),
        ensures
            top(self.state(mem, masks, iq, j).m),
        decreases j,
    {
        let c = j - 1;
        let mask = self.mask(masks, iq, c);
        let x = scores(self.cfg.scale, self.query(mem, iq), self.keys(mem, c), mask);
        let m = self.state(mem, masks, iq, c as nat).m;
        if c > 0 {
            self.lemma_tops(top, mem, masks, iq, c as nat);
        } else {
            let t = choose|t: int|
                0 <= t < self.bs() && self.mask(masks, iq, 0)[t] && #[trigger] exceeds(
                    self.score(mem, iq, 0, t),
                    neg_infinity(),
                );
            assert(x[t] == self.score(mem, iq, 0, t));
            assert(exceeds(x[t], neg_infinity()));
        }
        assert forall|t: int, y: T|
            0 <= t < x.len() && mask[t] && #[trigger] exceeds(x[t], y) implies top(x[t]) by {
            assert(x[t] == self.score(mem, iq, c, t));
            assert(exceeds(self.score(mem, iq, c, t), y));
        }
        lemma_highest_top(top, m, x, mask, x.len());
    }

    /// A query row leads if the scores that it sees are finite and one of them is
    /// on its first page. Its highest score is then finite from that page on.
    pub proof fn finite_scores_lead(
        self,
        fin: spec_fn(T) -> bool,
        mem: Seq<T>,
        masks: Seq<bool>,
        iq: int,
    )
        requires
            grounded(fin),
            self.page_count() > 0,
            exists|t: int| 0 <= t < self.bs() && #[trigger] self.mask(masks, iq, 0)[t],
            forall|j: int, i: int|
                0 <= j < self.page_count() && 0 <= i < self.bs() && self.mask(masks, iq, j)[i]
                    ==> fin(#[trigger] self.score(mem, iq, j, i)),
        ensures
            self.leads(mem, masks, iq),
            self.tops(fin, mem, masks, iq),
    {
        let t = choose|t: int| 0 <= t < self.bs() && #[trigger] self.mask(masks, iq, 0)[t];
        assert(fin(self.score(mem, iq, 0, t)));
        assert(exceeds(self.score(mem, iq, 0, t), neg_infinity()));
        assert forall|j: int, i: int, y: T|
            0 <= j < self.page_count() && 0 <= i < self.bs() && self.mask(masks, iq, j)[i]
                && #[trigger] exceeds(self.score(mem, iq, j, i), y) implies settled(
            self.score(mem, iq, j, i),
        ) by {
            assert(fin(self.score(mem, iq, j, i)));
        }
        self.scores_lead(mem, masks, iq);
        assert forall|j: nat| 0 < j <= self.page_count() implies fin(
            (#[trigger] self.state(mem, masks, iq, j)).m,
        ) by {
            self.lemma_tops(fin, mem, masks, iq, j);
        }
    }

    /// Query row `iq` in the memory `mem`, and query row `iq_b` of the block `b` in
    /// its memory, see the same on the first `n` pages, and the values that they
    /// do not look at are finite.
    pub open spec fn sees_as(
        self,
        fin: spec_fn(T) -> bool,
        mem: Seq<T>,
        masks: Seq<bool>,
        iq: int,
        b: Block<T>,
        mem_b: Seq<T>,
        masks_b: Seq<bool>,
        iq_b: int,
        n: int,
    ) -> bool {
        &&& self.cfg.scale == b.cfg.scale
        &&& self.cfg.d == b.cfg.d
        &&& self.cfg.bs == b.cfg.bs
        &&& self.query(mem, iq) == b.query(mem_b, iq_b)
        &&& forall|j: int|
            0 <= j < n ==> #[trigger] self.mask(masks, iq, j) == b.mask(masks_b, iq_b, j)
        &&& forall|j: int, i: int|
            0 <= j < n && 0 <= i < self.bs() && self.mask(masks, iq, j)[i]
                ==> #[trigger] self.keys(mem, j)[i] == b.keys(mem_b, j)[i]
        &&& forall|j: int, i: int|
            0 <= j < n && 0 <= i < self.bs() && self.mask(masks, iq, j)[i]
                ==> #[trigger] self.vals(mem, j)[i] == b.vals(mem_b, j)[i]
        &&& forall|j: int, i: int, e: int|
            0 <= j < n && 0 <= i < self.bs() && !self.mask(masks, iq, j)[i] && 0 <= e < self.d()
                ==> fin(#[trigger] self.vals(mem, j)[i][e])
        &&& forall|j: int, i: int, e: int|
            0 <= j < n && 0 <= i < self.bs() && !self.mask(masks, iq, j)[i] && 0 <= e < self.d()
                ==> fin(#[trigger] b.vals(mem_b, j)[i][e])
    }

    /// Rows that see the same on the first pages are alike after them.
    pub proof fn lemma_states_alike(
        self,
        fin: spec_fn(T) -> bool,
        same: spec_fn(T, T) -> bool,
        mem: Seq<T>,
        masks: Seq<bool>,
        iq: int,
        b: Block<T>,
        mem_b: Seq<T>,
        masks_b: Seq<bool>,
        iq_b: int,
        n: nat,
    )
        requires
            vanishing(fin, same),
            self.sees_as(fin, mem, masks, iq, b, mem_b, masks_b, iq_b, n as int),
            n <= self.page_count(),
            self.leads(mem, masks, iq),
        ensures
            alike(same, self.state(mem, masks, iq, n), b.state(mem_b, masks_b, iq_b, n)),
        decreases n,
    {
        if n > 0 {
            let j = n - 1;
            let st_a = self.state(mem, masks, iq, j as nat);
            let st_b = b.state(mem_b, masks_b, iq_b, j as nat);
            let mask = self.mask(masks, iq, j);
            self.lemma_states_alike(
                fin,
                same,
                mem,
                masks,
                iq,
                b,
                mem_b,
                masks_b,
                iq_b,
                j as nat,
            );
            self.lemma_acc_len(mem, masks, iq, j as nat);
            assert(mask == b.mask(masks_b, iq_b, j));
            assert(settled(self.state(mem, masks, iq, n).m));
            lemma_page_alike(
                fin,
                same,
                st_a,
                st_b,
                self.cfg.scale,
                self.query(mem, iq),
                self.keys(mem, j),
                self.vals(mem, j),
                b.keys(mem_b, j),
                b.vals(mem_b, j),
                mask,
            );
        }
    }

    /// Row `i` of page `j` is a place of the padded sequence.
    pub(crate) proof fn lemma_page_place(
        self,
        mem: Seq<T>,
        masks: Seq<bool>,
        iq: int,
        j: int,
        i: int,
    )
        requires
            0 <= j < self.page_count(),
            0 <= i < self.bs(),
        ensures
            0 <= j * self.bs() + i < self.places(),
            (j * self.bs() + i) / self.bs() == j,
            (j * self.bs() + i) % self.bs() == i,
            self.all_keys(mem)[j * self.bs() + i] == self.keys(mem, j)[i],
            self.all_vals(mem)[j * self.bs() + i] == self.vals(mem, j)[i],
            self.all_mask(masks, iq)[j * self.bs() + i] == self.mask(masks, iq, j)[i],
    {
        crate::attention::online::lemma_row_fits(j, self.page_count(), self.bs());
        vstd::arithmetic::div_mod::lemma_fundamental_div_mod_converse(
            j * self.bs() + i,
            self.bs(),
            j,
            i,
        );
        assert(0 * self.bs() == 0);
    }

    /// Two runs agree on what query row `iq` looks at: on that query row, on its
    /// own row of the mask, and on the keys and values that this row of the mask
    /// lets through. The other values are finite in both.
    pub open spec fn agree(
        self,
        fin: spec_fn(T) -> bool,
        a: Seq<T>,
        masks_a: Seq<bool>,
        b: Seq<T>,
        masks_b: Seq<bool>,
        iq: int,
    ) -> bool {
        &&& self.query(a, iq) == self.query(b, iq)
        &&& self.all_mask(masks_a, iq) == self.all_mask(masks_b, iq)
        &&& forall|p: int|
            0 <= p < self.places() && self.all_mask(masks_a, iq)[p]
                ==> #[trigger] self.all_keys(a)[p] == self.all_keys(b)[p]
        &&& forall|p: int|
            0 <= p < self.places() && self.all_mask(masks_a, iq)[p]
                ==> #[trigger] self.all_vals(a)[p] == self.all_vals(b)[p]
        &&& forall|p: int, e: int|
            0 <= p < self.places() && !self.all_mask(masks_a, iq)[p] && 0 <= e < self.d() ==> fin(
                #[trigger] self.all_vals(a)[p][e],
            )
        &&& forall|p: int, e: int|
            0 <= p < self.places() && !self.all_mask(masks_a, iq)[p] && 0 <= e < self.d() ==> fin(
                #[trigger] self.all_vals(b)[p][e],
            )
    }

    pub(crate) proof fn lemma_agree_sees(
        self,
        fin: spec_fn(T) -> bool,
        a: Seq<T>,
        masks_a: Seq<bool>,
        b: Seq<T>,
        masks_b: Seq<bool>,
        iq: int,
    )
        requires
            self.agree(fin, a, masks_a, b, masks_b, iq),
        ensures
            self.sees_as(fin, a, masks_a, iq, self, b, masks_b, iq, self.page_count()),
    {
        let n = self.page_count();
        assert forall|j: int| 0 <= j < n implies #[trigger] self.mask(masks_a, iq, j) == self.mask(
            masks_b,
            iq,
            j,
        ) by {
            assert forall|i: int| 0 <= i < self.bs() implies self.mask(masks_a, iq, j)[i]
                == self.mask(masks_b, iq, j)[i] by {
                self.lemma_page_place(a, masks_a, iq, j, i);
                self.lemma_page_place(b, masks_b, iq, j, i);
            }
            assert(self.mask(masks_a, iq, j) =~= self.mask(masks_b, iq, j));
        }
        assert forall|j: int, i: int|
            0 <= j < n && 0 <= i < self.bs() && self.mask(masks_a, iq, j)[i]
                implies #[trigger] self.keys(a, j)[i] == self.keys(b, j)[i] by {
            self.lemma_page_place(a, masks_a, iq, j, i);
            self.lemma_page_place(b, masks_b, iq, j, i);
        }
        assert forall|j: int, i: int|
            0 <= j < n && 0 <= i < self.bs() && self.mask(masks_a, iq, j)[i]
                implies #[trigger] self.vals(a, j)[i] == self.vals(b, j)[i] by {
            self.lemma_page_place(a, masks_a, iq, j, i);
            self.lemma_page_place(b, masks_b, iq, j, i);
        }
        assert forall|j: int, i: int, e: int|
            0 <= j < n && 0 <= i < self.bs() && !self.mask(masks_a, iq, j)[i] && 0 <= e < self.d()
                implies fin(#[trigger] self.vals(a, j)[i][e]) by {
            self.lemma_page_place(a, masks_a, iq, j, i);
            assert(fin(self.all_vals(a)[j * self.bs() + i][e]));
        }
        assert forall|j: int, i: int, e: int|
            0 <= j < n && 0 <= i < self.bs() && !self.mask(masks_a, iq, j)[i] && 0 <= e < self.d()
                implies fin(#[trigger] self.vals(b, j)[i][e]) by {
            self.lemma_page_place(a, masks_a, iq, j, i);
            self.lemma_page_place(b, masks_b, iq, j, i);
            assert(fin(self.all_vals(b)[j * self.bs() + i][e]));
        }
    }

    /// Output row `iq` is the same after two runs of the block, as far as `same`
    /// tells, if they agree on what the query row looks at and it leads in one of
    /// them. Arithmetic may round: all that is asked of it is that zero times a
    /// finite number vanishes.
    pub proof fn output_is_alike(
        self,
        fin: spec_fn(T) -> bool,
        same: spec_fn(T, T) -> bool,
        a: Seq<T>,
        masks_a: Seq<bool>,
        b: Seq<T>,
        masks_b: Seq<bool>,
        bn: int,
        iq: int,
    )
        requires
            vanishing(fin, same),
            bn > 0,
            self.attn_ok(a.len(), masks_a.len()),
            self.attn_ok(b.len(), masks_b.len()),
            forall|p: int| self.reads(p) ==> !self.writes(p),
            0 <= iq < self.req.n,
            forall|r: int|
                iq < r < self.req.n ==> disjoint(
                    self.o_at(iq),
                    #[trigger] self.o_at(r),
                    self.d(),
                ),
            self.leads(a, masks_a, iq),
            self.agree(fin, a, masks_a, b, masks_b, iq),
        ensures
            all_same(
                same,
                read(self.attended(a, masks_a, bn), self.o_at(iq), self.d()),
                read(self.attended(b, masks_b, bn), self.o_at(iq), self.d()),
            ),
    {
        let n = self.page_count();
        lemma_ceil_div(self.req.s_ceil as int, self.bs());
        self.lemma_agree_sees(fin, a, masks_a, b, masks_b, iq);
        self.lemma_states_alike(fin, same, a, masks_a, iq, self, b, masks_b, iq, n as nat);
        lemma_output_alike(
            same,
            self.state(a, masks_a, iq, n as nat),
            self.state(b, masks_b, iq, n as nat),
        );
        self.output_rows_are_attention(a, masks_a, bn, iq);
        self.output_rows_are_attention(b, masks_b, bn, iq);
    }

    /// Output row `iq` depends on nothing but query row `iq`, its own row of the
    /// mask, and the keys and values that this row of the mask lets through: it is
    /// the same after two runs of the block that agree on these, where masked
    /// terms vanish and the scores that the row sees are finite, one of them on
    /// its first page. Sums may round.
    pub proof fn unseen_does_not_matter(
        self,
        fin: spec_fn(T) -> bool,
        a: Seq<T>,
        masks_a: Seq<bool>,
        b: Seq<T>,
        masks_b: Seq<bool>,
        bn: int,
        iq: int,
    )
        requires
            masks_vanish(fin),
            bn > 0,
            self.attn_ok(a.len(), masks_a.len()),
            self.attn_ok(b.len(), masks_b.len()),
            forall|p: int| self.reads(p) ==> !self.writes(p),
            0 <= iq < self.req.n,
            forall|r: int|
                iq < r < self.req.n ==> disjoint(
                    self.o_at(iq),
                    #[trigger] self.o_at(r),
                    self.d(),
                ),
            self.req.s_ceil > 0,
            exists|t: int| 0 <= t < self.bs() && #[trigger] self.mask(masks_a, iq, 0)[t],
            forall|j: int, i: int|
                0 <= j < self.page_count() && 0 <= i < self.bs() && self.mask(masks_a, iq, j)[i]
                    ==> fin(#[trigger] self.score(a, iq, j, i)),
            self.agree(fin, a, masks_a, b, masks_b, iq),
        ensures
            read(self.attended(a, masks_a, bn), self.o_at(iq), self.d()) == read(
                self.attended(b, masks_b, bn),
                self.o_at(iq),
                self.d(),
            ),
    {
        lemma_ceil_div(self.req.s_ceil as int, self.bs());
        lemma_masks_vanish(fin);
        self.finite_scores_lead(fin, a, masks_a, iq);
        self.output_is_alike(fin, equal(), a, masks_a, b, masks_b, bn, iq);
        lemma_all_equal(
            read(self.attended(a, masks_a, bn), self.o_at(iq), self.d()),
            read(self.attended(b, masks_b, bn), self.o_at(iq), self.d()),
        );
    }
}

} // verus!
