//! `update_row` and `flash_attn_block`.
use crate::attention::block::Block;
use crate::attention::cpu::{block_of, flash_attn_block};
use crate::attention::online::{
    column, highest, lemma_row_fits, page_step, rows, scores, update_row, weights, RowState,
};
use crate::attention::{KVPage, KernelCfg, KernelReq};
use crate::ceil::{ceil_div, lemma_ceil_div};
use crate::laws::plain::append::{cached_key, cached_val};
use crate::laws::plain::{address, lemma_row, position, reachable};
use crate::memory::read;
use crate::scalar::{
    empty_sum, exceeds, exp, functional, minus, neg_infinity, over, plus, products, sum_from, times,
    zero, Scalar,
};
use vstd::prelude::*;

verus! {

/// A sum is where its running sums end.
pub(crate) proof fn lemma_sum_run<T: Scalar>(start: T, s: Seq<T>, run: spec_fn(int) -> T)
    requires
        run(0) == start,
        forall|i: int| 0 < i <= s.len() ==> #[trigger] run(i) == plus(run(i - 1), s[i - 1]),
    ensures
        sum_from(start, s) == run(s.len() as int),
    decreases s.len(),
{
    if s.len() > 0 {
        lemma_sum_run(start, s.drop_last(), run);
        assert(run(s.len() as int) == plus(run(s.len() - 1), s[s.len() - 1]));
    }
}

/// The highest score is where the running highest ends.
pub(crate) proof fn lemma_top_run<T: Scalar>(
    m: T,
    x: Seq<T>,
    mask: Seq<bool>,
    run: spec_fn(int) -> T,
    i: nat,
)
    requires
        i <= x.len(),
        run(0) == m,
        forall|i: int|
            0 < i <= x.len() ==> #[trigger] run(i) == (if mask[i - 1] && exceeds(
                x[i - 1],
                run(i - 1),
            ) {
                x[i - 1]
            } else {
                run(i - 1)
            }),
    ensures
        highest(m, x, mask, i) == run(i as int),
    decreases i,
{
    if i > 0 {
        lemma_top_run(m, x, mask, run, (i - 1) as nat);
        assert(run(i as int) == (if mask[i - 1] && exceeds(x[i - 1], run(i - 1)) {
            x[i - 1]
        } else {
            run(i - 1)
        }));
    }
}

/// A call of `update_row` takes a query row one page further. The score of row `i`
/// is the inner product of the query row with key row `i`, times the scale; the
/// rows that the mask does not let through score minus infinity and cannot come
/// out highest. The weight of every row is the exponential of its score less the
/// highest so far. Sum of weights and weighted values are rescaled to the new
/// highest score and grow by those of the page.
pub proof fn a_page_is_weighed<T: Scalar>(
    scale: T,
    q: &[T],
    kj: &[T],
    vj: &[T],
    masks: &[bool],
    mask_at: usize,
    x: &mut [T],
    m: T,
    l: T,
    acc: &mut [T],
    r: (T, T),
    inner: spec_fn(int, int) -> T,
    top: spec_fn(int) -> T,
    sum: spec_fn(int) -> T,
    share: spec_fn(int, int) -> T,
)
    requires
        call_requires(update_row::<T>, (scale, q, kj, vj, masks, mask_at, x, m, l, acc)),
        call_ensures(update_row::<T>, (scale, q, kj, vj, masks, mask_at, x, m, l, acc), r),
        old(acc)@.len() == q@.len(),
        kj@.len() == old(x)@.len() * q@.len(),
        vj@.len() == old(x)@.len() * q@.len(),
        // inner products of the query row with the key rows, element by element
        forall|i: int| #[trigger] inner(i, 0) == empty_sum::<T>(),
        forall|i: int, e: int|
            0 <= i < old(x)@.len() && 0 < e <= q@.len() ==> #[trigger] inner(i, e) == plus(
                inner(i, e - 1),
                times(q@[e - 1], kj@[i * q@.len() + (e - 1)]),
            ),
        // the highest score so far, row by row
        top(0) == m,
        forall|i: int|
            0 < i <= old(x)@.len() ==> #[trigger] top(i) == (if masks@[mask_at + (i - 1)]
                && exceeds(times(inner(i - 1, q@.len() as int), scale), top(i - 1)) {
                times(inner(i - 1, q@.len() as int), scale)
            } else {
                top(i - 1)
            }),
        // the sum of the weights, row by row
        sum(0) == zero::<T>(),
        forall|i: int|
            0 < i <= old(x)@.len() ==> #[trigger] sum(i) == plus(sum(i - 1), final(x)@[i - 1]),
        // the weighted values, element by element and row by row
        forall|e: int| #[trigger] share(e, 0) == empty_sum::<T>(),
        forall|e: int, i: int|
            0 <= e < q@.len() && 0 < i <= old(x)@.len() ==> #[trigger] share(e, i) == plus(
                share(e, i - 1),
                times(final(x)@[i - 1], vj@[(i - 1) * q@.len() + e]),
            ),
    ensures
        r.0 == top(old(x)@.len() as int),
        final(x)@.len() == old(x)@.len(),
        forall|i: int|
            0 <= i < old(x)@.len() ==> #[trigger] final(x)@[i] == exp(
                minus(
                    if masks@[mask_at + i] {
                        times(inner(i, q@.len() as int), scale)
                    } else {
                        neg_infinity()
                    },
                    r.0,
                ),
            ),
        r.1 == plus(times(l, exp(minus(m, r.0))), sum(old(x)@.len() as int)),
        final(acc)@.len() == old(acc)@.len(),
        forall|e: int|
            0 <= e < q@.len() ==> #[trigger] final(acc)@[e] == plus(
                times(old(acc)@[e], exp(minus(m, r.0))),
                share(e, old(x)@.len() as int),
            ),
{
    let d = q@.len();
    let bs = old(x)@.len();
    let keys = rows(kj@, bs, d);
    let vals = rows(vj@, bs, d);
    let mask = read(masks@, mask_at as int, bs);
    let s = scores(scale, q@, keys, mask);
    assert forall|i: int| 0 <= i < bs implies #[trigger] s[i] == (if masks@[mask_at + i] {
        times(inner(i, d as int), scale)
    } else {
        neg_infinity()
    }) by {
        let run = |e: int| inner(i, e);
        let p = products(q@, keys[i]);
        lemma_row_fits(i, bs as int, d as int);
        assert forall|e: int| 0 < e <= p.len() implies #[trigger] run(e) == plus(
            run(e - 1),
            p[e - 1],
        ) by {
            assert(inner(i, e) == plus(
                inner(i, e - 1),
                times(q@[e - 1], kj@[i * d + (e - 1)]),
            ));
        }
        assert(run(0) == inner(i, 0));
        lemma_sum_run(empty_sum(), p, run);
    }
    lemma_top_run(m, s, mask, top, bs);
    let st = page_step(RowState { m, l, acc: old(acc)@ }, scale, q@, keys, vals, mask);
    assert(r.0 == st.m && r.1 == st.l && final(acc)@ == st.acc);
    let w = weights(s, r.0);
    assert(final(x)@ == w);
    lemma_sum_run(zero(), w, sum);
    assert forall|e: int| 0 <= e < d implies #[trigger] final(acc)@[e] == plus(
        times(old(acc)@[e], exp(minus(m, r.0))),
        share(e, bs as int),
    ) by {
        let run = |i: int| share(e, i);
        let p = products(w, column(vals, e));
        assert forall|i: int| 0 < i <= p.len() implies #[trigger] run(i) == plus(
            run(i - 1),
            p[i - 1],
        ) by {
            assert(share(e, i) == plus(
                share(e, i - 1),
                times(final(x)@[i - 1], vj@[(i - 1) * d + e]),
            ));
        }
        assert(run(0) == share(e, 0));
        lemma_sum_run(empty_sum(), p, run);
    }
}

/// `update_row` can be called on a page of as many key and value rows as there are
/// scores, each as long as the query row, with a mask for them.
pub proof fn a_page_can_be_weighed<T: Scalar>(
    scale: T,
    q: &[T],
    kj: &[T],
    vj: &[T],
    masks: &[bool],
    mask_at: usize,
    x: &mut [T],
    m: T,
    l: T,
    acc: &mut [T],
)
    requires
        functional::<T>(),
        old(acc)@.len() == q@.len(),
        kj@.len() == old(x)@.len() * q@.len(),
        vj@.len() == old(x)@.len() * q@.len(),
        mask_at + old(x)@.len() <= masks@.len(),
    ensures
        call_requires(update_row::<T>, (scale, q, kj, vj, masks, mask_at, x, m, l, acc)),
{
}

/// Pages of `bs` rows that `s` rows fill or begin.
pub open spec fn page_number(s: int, bs: int) -> int {
    if s % bs == 0 {
        s / bs
    } else {
        s / bs + 1
    }
}

/// What one query row of a request looks at: query row `iq` of head `head` in the
/// memory `mem`.
pub struct Look<T> {
    pub cfg: KernelCfg<T>,
    pub pages: Seq<KVPage>,
    pub req: KernelReq,
    pub head: int,
    pub masks: Seq<bool>,
    pub mem: Seq<T>,
    pub iq: int,
}

impl<T: Scalar> Look<T> {
    /// Rows of a page.
    pub open spec fn bs(self) -> int {
        self.cfg.bs as int
    }

    /// Pages of the request: as many as the columns of its mask fill or begin.
    pub open spec fn pages_of(self) -> int {
        page_number(self.req.s_ceil as int, self.bs())
    }

    /// The head of the keys and values that the query head shares with others.
    pub open spec fn kv(self) -> int {
        self.head / (self.cfg.g as int)
    }

    /// Element `e` of the query row.
    pub open spec fn query(self, e: int) -> T {
        self.mem[position::<T>(
            address(
                self.req.q as int,
                self.req.q_strides.head as int,
                self.req.q_strides.seq as int,
                self.head,
                self.iq,
            ),
        ) + e]
    }

    /// Element `e` of the key at place `p`.
    pub open spec fn key(self, p: int, e: int) -> T {
        self.mem[cached_key::<T>(self.pages, self.bs(), self.req, self.kv(), p) + e]
    }

    /// Element `e` of the value at place `p`.
    pub open spec fn val(self, p: int, e: int) -> T {
        self.mem[cached_val::<T>(self.pages, self.bs(), self.req, self.kv(), p) + e]
    }

    /// The row looks at place `p`.
    pub open spec fn sees(self, p: int) -> bool {
        self.masks[self.req.mask + self.iq * self.req.s_ceil + p]
    }

    /// The inner product of the first `e` elements of the query row and of the key
    /// at place `p`.
    pub open spec fn inner(self, p: int, e: int) -> T
        decreases e,
    {
        if e <= 0 {
            empty_sum()
        } else {
            plus(self.inner(p, e - 1), times(self.query(e - 1), self.key(p, e - 1)))
        }
    }

    /// The score of place `p`: inner product times scale.
    pub open spec fn score(self, p: int) -> T {
        times(self.inner(p, self.cfg.d as int), self.cfg.scale)
    }

    /// The highest score of the places below `p` that the row looks at.
    pub open spec fn top(self, p: int) -> T
        decreases p,
    {
        if p <= 0 {
            neg_infinity()
        } else if self.sees(p - 1) && exceeds(self.score(p - 1), self.top(p - 1)) {
            self.score(p - 1)
        } else {
            self.top(p - 1)
        }
    }

    /// The weight of row `i` of page `j`: the exponential of its score, or of minus
    /// infinity, less the highest score up to that page.
    pub open spec fn weight(self, j: int, i: int) -> T {
        exp(
            minus(
                if self.sees(j * self.bs() + i) {
                    self.score(j * self.bs() + i)
                } else {
                    neg_infinity()
                },
                self.top((j + 1) * self.bs()),
            ),
        )
    }

    /// What a change of the highest score on page `j` does to earlier weights.
    pub open spec fn fade(self, j: int) -> T {
        exp(minus(self.top(j * self.bs()), self.top((j + 1) * self.bs())))
    }

    /// The weights of the first `i` rows of page `j`, summed.
    pub open spec fn page_sum(self, j: int, i: int) -> T
        decreases i,
    {
        if i <= 0 {
            zero()
        } else {
            plus(self.page_sum(j, i - 1), self.weight(j, i - 1))
        }
    }

    /// The weighted values of the first `i` rows of page `j`, summed.
    pub open spec fn page_share(self, j: int, i: int, e: int) -> T
        decreases i,
    {
        if i <= 0 {
            empty_sum()
        } else {
            plus(
                self.page_share(j, i - 1, e),
                times(self.weight(j, i - 1), self.val(j * self.bs() + (i - 1), e)),
            )
        }
    }

    /// The sum of the weights of the first `j` pages.
    pub open spec fn sum(self, j: int) -> T
        decreases j,
    {
        if j <= 0 {
            zero()
        } else {
            plus(times(self.sum(j - 1), self.fade(j - 1)), self.page_sum(j - 1, self.bs()))
        }
    }

    /// The sum of the weighted values of the first `j` pages.
    pub open spec fn share(self, j: int, e: int) -> T
        decreases j,
    {
        if j <= 0 {
            zero()
        } else {
            plus(
                times(self.share(j - 1, e), self.fade(j - 1)),
                self.page_share(j - 1, self.bs(), e),
            )
        }
    }

    /// Element `e` of the output row: weighted values over weights.
    pub open spec fn out(self, e: int) -> T {
        over(self.share(self.pages_of(), e), self.sum(self.pages_of()))
    }

    /// The block that the row belongs to.
    pub open spec fn block(self) -> Block<T> {
        Block { cfg: self.cfg, pages: self.pages, req: self.req, head: self.head }
    }

    /// Row `i` of page `j` as the block sees it.
    pub(crate) proof fn lemma_place(self, j: int, i: int)
        requires
            self.bs() > 0,
            self.cfg.g > 0,
            0 <= self.head <= usize::MAX,
            0 <= self.iq <= usize::MAX,
            0 <= i < self.bs(),
        ensures
            (j * self.bs() + i) / self.bs() == j,
            (j * self.bs() + i) % self.bs() == i,
            self.block().keys(self.mem, j)[i].len() == self.cfg.d,
            self.block().vals(self.mem, j)[i].len() == self.cfg.d,
            forall|e: int|
                0 <= e < self.cfg.d ==> #[trigger] self.block().keys(self.mem, j)[i][e]
                    == self.key(j * self.bs() + i, e),
            forall|e: int|
                0 <= e < self.cfg.d ==> #[trigger] self.block().vals(self.mem, j)[i][e]
                    == self.val(j * self.bs() + i, e),
            self.block().mask(self.masks, self.iq, j)[i] == self.sees(j * self.bs() + i),
    {
        let b = self.block();
        let kv = self.kv();
        vstd::arithmetic::div_mod::lemma_fundamental_div_mod_converse(
            j * self.bs() + i,
            self.bs(),
            j,
            i,
        );
        vstd::arithmetic::div_mod::lemma_div_pos_is_pos(self.head, self.cfg.g as int);
        vstd::arithmetic::div_mod::lemma_div_is_ordered_by_denominator(
            self.head,
            1,
            self.cfg.g as int,
        );
        lemma_row::<T>(0, b.page(j).k, self.req.kv_strides, kv, i, 0);
        lemma_row::<T>(0, b.page(j).v, self.req.kv_strides, kv, i, 0);
    }

    /// The scores of page `j` as the block sees them.
    pub(crate) proof fn lemma_scores(self, j: int)
        requires
            self.bs() > 0,
            self.cfg.g > 0,
            0 <= self.head <= usize::MAX,
            0 <= self.iq <= usize::MAX,
        ensures
            forall|i: int|
                0 <= i < self.bs() ==> #[trigger] scores(
                    self.cfg.scale,
                    self.block().query(self.mem, self.iq),
                    self.block().keys(self.mem, j),
                    self.block().mask(self.masks, self.iq, j),
                )[i] == (if self.sees(j * self.bs() + i) {
                    self.score(j * self.bs() + i)
                } else {
                    neg_infinity()
                }),
    {
        let b = self.block();
        let q = b.query(self.mem, self.iq);
        let x = scores(
            self.cfg.scale,
            q,
            b.keys(self.mem, j),
            b.mask(self.masks, self.iq, j),
        );
        lemma_row::<T>(0, self.req.q, self.req.q_strides, self.head, self.iq, 0);
        assert forall|i: int| 0 <= i < self.bs() implies #[trigger] x[i] == (if self.sees(
            j * self.bs() + i,
        ) {
            self.score(j * self.bs() + i)
        } else {
            neg_infinity()
        }) by {
            let p = j * self.bs() + i;
            self.lemma_place(j, i);
            let pr = products(q, b.keys(self.mem, j)[i]);
            let run = |e: int| self.inner(p, e);
            assert forall|e: int| 0 < e <= pr.len() implies #[trigger] run(e) == plus(
                run(e - 1),
                pr[e - 1],
            ) by {
                assert(b.keys(self.mem, j)[i][e - 1] == self.key(p, e - 1));
                assert(q[e - 1] == self.query(e - 1));
            }
            lemma_sum_run(empty_sum(), pr, run);
        }
    }

    /// The state of the row after `j` pages.
    pub(crate) proof fn lemma_state(self, j: nat)
        requires
            self.bs() > 0,
            j > 0 ==> self.cfg.g > 0,
            0 <= self.head <= usize::MAX,
            0 <= self.iq <= usize::MAX,
        ensures
            ({
                let st = self.block().state(self.mem, self.masks, self.iq, j);
                &&& st.m == self.top(j * self.bs())
                &&& st.l == self.sum(j as int)
                &&& st.acc.len() == self.cfg.d
                &&& forall|e: int| 0 <= e < self.cfg.d ==> #[trigger] st.acc[e] == self.share(
                    j as int,
                    e,
                )
            }),
        decreases j,
    {
        let b = self.block();
        let bs = self.bs();
        if j == 0 {
            assert(0 * bs == 0);
        } else {
            let c = j - 1;
            self.lemma_state(c as nat);
            self.lemma_scores(c);
            let st = b.state(self.mem, self.masks, self.iq, c as nat);
            let next = b.state(self.mem, self.masks, self.iq, j);
            let mask = b.mask(self.masks, self.iq, c);
            let vals = b.vals(self.mem, c);
            let x = scores(self.cfg.scale, b.query(self.mem, self.iq), b.keys(self.mem, c), mask);
            assert(j * bs == c * bs + bs) by (nonlinear_arith)
                requires
                    j == c + 1,
            ;
            assert(0 <= c * bs) by (nonlinear_arith)
                requires
                    c >= 0,
                    bs > 0,
            ;
            let run = |i: int| self.top(c * bs + i);
            assert forall|i: int| 0 < i <= x.len() implies #[trigger] run(i) == (if mask[i - 1]
                && exceeds(x[i - 1], run(i - 1)) {
                x[i - 1]
            } else {
                run(i - 1)
            }) by {
                self.lemma_place(c, i - 1);
                assert(x[i - 1] == (if self.sees(c * bs + (i - 1)) {
                    self.score(c * bs + (i - 1))
                } else {
                    neg_infinity()
                }));
            }
            lemma_top_run(st.m, x, mask, run, x.len());
            let w = weights(x, next.m);
            assert forall|i: int| 0 <= i < bs implies #[trigger] w[i] == self.weight(c, i) by {
                assert(x[i] == (if self.sees(c * bs + i) {
                    self.score(c * bs + i)
                } else {
                    neg_infinity()
                }));
            }
            let sums = |i: int| self.page_sum(c, i);
            assert forall|i: int| 0 < i <= w.len() implies #[trigger] sums(i) == plus(
                sums(i - 1),
                w[i - 1],
            ) by {
                assert(w[i - 1] == self.weight(c, i - 1));
            }
            lemma_sum_run(zero(), w, sums);
            assert forall|e: int| 0 <= e < self.cfg.d implies #[trigger] next.acc[e] == self.share(
                j as int,
                e,
            ) by {
                let p = products(w, column(vals, e));
                let shares = |i: int| self.page_share(c, i, e);
                assert forall|i: int| 0 < i <= p.len() implies #[trigger] shares(i) == plus(
                    shares(i - 1),
                    p[i - 1],
                ) by {
                    self.lemma_place(c, i - 1);
                    assert(w[i - 1] == self.weight(c, i - 1));
                    assert(vals[i - 1][e] == self.val(c * bs + (i - 1), e));
                }
                lemma_sum_run(empty_sum(), p, shares);
                assert(st.acc[e] == self.share(c, e));
            }
        }
    }

    /// Pages are counted up.
    pub(crate) proof fn lemma_pages_of(self)
        requires
            self.bs() > 0,
        ensures
            self.block().page_count() == self.pages_of(),
            self.pages_of() >= 0,
            self.pages_of() > 0 <==> self.req.s_ceil > 0,
    {
        lemma_ceil_div(self.req.s_ceil as int, self.bs());
    }

    /// The output of the row.
    pub(crate) proof fn lemma_out(self)
        requires
            self.bs() > 0,
            self.req.s_ceil > 0 ==> self.cfg.g > 0,
            0 <= self.head <= usize::MAX,
            0 <= self.iq <= usize::MAX,
        ensures
            self.block().row(self.mem, self.masks, self.iq).len() == self.cfg.d,
            forall|e: int|
                0 <= e < self.cfg.d ==> #[trigger] self.block().row(
                    self.mem,
                    self.masks,
                    self.iq,
                )[e] == self.out(e),
    {
        self.lemma_pages_of();
        self.lemma_state(self.pages_of() as nat);
    }
}

/// The position of output row `iq` of a head.
pub open spec fn output_row<T>(req: KernelReq, head: int, iq: int) -> int {
    position::<T>(
        address(req.o as int, req.o_strides.head as int, req.o_strides.seq as int, head, iq),
    )
}

/// What query row `iq` of request `ireq` looks at in the memory `mem`.
pub open spec fn look<T>(
    cfg: KernelCfg<T>,
    pages: Seq<KVPage>,
    reqs: Seq<KernelReq>,
    ireq: int,
    head: int,
    masks: Seq<bool>,
    mem: Seq<T>,
    iq: int,
) -> Look<T> {
    Look { cfg, pages, req: reqs[ireq], head, masks, mem, iq }
}

/// `after(iq)` is the memory once the output rows below `iq` are written, for every
/// `iq`: row after row, each computed from the memory as it was before the tile of
/// `bn` rows that it is in.
pub open spec fn written_in_turn<T: Scalar>(
    cfg: KernelCfg<T>,
    pages: Seq<KVPage>,
    reqs: Seq<KernelReq>,
    ireq: int,
    head: int,
    bn: int,
    masks: Seq<bool>,
    mem: Seq<T>,
    after: spec_fn(int) -> Seq<T>,
) -> bool {
    &&& after(0) == mem
    &&& forall|iq: int| 0 <= iq <= reqs[ireq].n ==> (#[trigger] after(iq)).len() == mem.len()
    &&& forall|iq: int, t: int|
        0 < iq <= reqs[ireq].n && 0 <= t < mem.len() ==> #[trigger] after(iq)[t] == {
            let o = output_row::<T>(reqs[ireq], head, iq - 1);
            let tile = ((iq - 1) / bn) * bn;
            if o <= t < o + cfg.d {
                look(cfg, pages, reqs, ireq, head, masks, after(tile), iq - 1).out(t - o)
            } else {
                after(iq - 1)[t]
            }
        }
}

/// A call of `flash_attn_block` writes the output rows of the request one after the
/// other, and nothing else: row `iq` holds what its query row makes of the places
/// that it looks at, in any arithmetic and wherever the tensors lie.
pub proof fn attention_is_written_in_turn<T: Scalar>(
    cfg: KernelCfg<T>,
    pages: &[KVPage],
    reqs: &[KernelReq],
    ireq: usize,
    head: usize,
    bn: usize,
    shared: &mut [T],
    masks: &[bool],
    mem: &mut [T],
    after: spec_fn(int) -> Seq<T>,
)
    requires
        call_ensures(
            flash_attn_block::<T>,
            (cfg, pages, reqs, ireq, head, bn, shared, masks, mem),
            (),
        ),
        bn > 0,
        cfg.bs > 0,
        reqs@[ireq as int].n > 0 && reqs@[ireq as int].s_ceil > 0 ==> cfg.g > 0,
        written_in_turn(
            cfg,
            pages@,
            reqs@,
            ireq as int,
            head as int,
            bn as int,
            masks@,
            old(mem)@,
            after,
        ),
    ensures
        final(mem)@ == after(reqs@[ireq as int].n as int),
{
    let n = reqs@[ireq as int].n as int;
    let tiles = ceil_div(n, bn as int);
    lemma_ceil_div(n, bn as int);
    lemma_tiles(
        cfg,
        pages@,
        reqs@,
        ireq as int,
        head as int,
        bn as int,
        masks@,
        old(mem)@,
        after,
        tiles as nat,
    );
}

/// Rows of the first tiles.
pub(crate) open spec fn rows_of_tiles(n: int, bn: int, tiles: int) -> int {
    if tiles * bn < n {
        tiles * bn
    } else {
        n
    }
}

pub(crate) proof fn lemma_tiles<T: Scalar>(
    cfg: KernelCfg<T>,
    pages: Seq<KVPage>,
    reqs: Seq<KernelReq>,
    ireq: int,
    head: int,
    bn: int,
    masks: Seq<bool>,
    mem: Seq<T>,
    after: spec_fn(int) -> Seq<T>,
    tiles: nat,
)
    requires
        bn > 0,
        cfg.bs > 0,
        0 <= head <= usize::MAX,
        reqs[ireq].n > 0 && reqs[ireq].s_ceil > 0 ==> cfg.g > 0,
        written_in_turn(cfg, pages, reqs, ireq, head, bn, masks, mem, after),
        tiles <= ceil_div(reqs[ireq].n as int, bn),
    ensures
        block_of(cfg, pages, reqs, ireq, head).tiled(mem, masks, bn, tiles) == after(
            rows_of_tiles(reqs[ireq].n as int, bn, tiles as int),
        ),
    decreases tiles,
{
    let n = reqs[ireq].n as int;
    let b = block_of(cfg, pages, reqs, ireq, head);
    if tiles == 0 {
        assert(0 * bn == 0);
    } else {
        let c = tiles - 1;
        let first = c * bn;
        lemma_ceil_div(n, bn);
        assert(c * bn < n);
        assert(0 <= c * bn && tiles * bn == c * bn + bn) by (nonlinear_arith)
            requires
                c >= 0,
                bn > 0,
                tiles == c + 1,
        ;
        lemma_tiles(cfg, pages, reqs, ireq, head, bn, masks, mem, after, c as nat);
        let count = b.tile_rows(first, bn);
        lemma_tile(
            cfg,
            pages,
            reqs,
            ireq,
            head,
            bn,
            masks,
            mem,
            after,
            c,
            count as nat,
        );
    }
}

proof fn lemma_tile<T: Scalar>(
    cfg: KernelCfg<T>,
    pages: Seq<KVPage>,
    reqs: Seq<KernelReq>,
    ireq: int,
    head: int,
    bn: int,
    masks: Seq<bool>,
    mem: Seq<T>,
    after: spec_fn(int) -> Seq<T>,
    tile: int,
    count: nat,
)
    requires
        bn > 0,
        cfg.bs > 0,
        0 <= head <= usize::MAX,
        reqs[ireq].n > 0 && reqs[ireq].s_ceil > 0 ==> cfg.g > 0,
        written_in_turn(cfg, pages, reqs, ireq, head, bn, masks, mem, after),
        0 <= tile,
        0 <= tile * bn,
        count <= bn,
        tile * bn + count <= reqs[ireq].n,
    ensures
        block_of(cfg, pages, reqs, ireq, head).stored(
            after(tile * bn),
            after(tile * bn),
            masks,
            tile * bn,
            count,
        ) == after(tile * bn + count),
    decreases count,
{
    let first = tile * bn;
    let b = block_of(cfg, pages, reqs, ireq, head);
    let src = after(first);
    if count > 0 {
        let c = (count - 1) as nat;
        let iq = first + c;
        lemma_tile(cfg, pages, reqs, ireq, head, bn, masks, mem, after, tile, c);
        vstd::arithmetic::div_mod::lemma_fundamental_div_mod_converse(iq, bn, tile, c as int);
        let l = look(cfg, pages, reqs, ireq, head, masks, src, iq);
        l.lemma_out();
        assert(l.block() == b);
        lemma_row::<T>(0, b.req.o, b.req.o_strides, head, iq, 0);
        let new = b.stored(src, src, masks, first, count);
        assert(after(iq + 1).len() == mem.len());
        assert(after(iq).len() == mem.len());
        assert forall|t: int| 0 <= t < mem.len() implies new[t] == after(iq + 1)[t] by {
            let o = output_row::<T>(reqs[ireq], head, iq);
            assert(((iq + 1) - 1) / bn == tile);
            if o <= t < o + cfg.d {
                assert(b.row(src, masks, iq)[t - o] == l.out(t - o));
            }
        }
        assert(new =~= after(iq + 1));
    }
}

/// What `flash_attn_block` needs, its workspace aside: the query and output rows,
/// all rows of the request's pages and the request's mask lie in memories of `len`
/// elements and of `masks` flags.
pub open spec fn attention_fits<T>(
    g: int,
    d: int,
    bs: int,
    pages: Seq<KVPage>,
    req: KernelReq,
    head: int,
    masks: int,
    len: int,
) -> bool {
    let count = page_number(req.s_ceil as int, bs);
    &&& bs > 0
    &&& req.pages_start + count <= pages.len()
    &&& req.n > 0 && req.s_ceil > 0 ==> g > 0
    &&& forall|iq: int|
        0 <= iq < req.n ==> #[trigger] query_row_fits::<T>(d, bs, count, req, head, masks, len, iq)
    &&& forall|j: int, i: int|
        req.n > 0 && 0 <= j < count && 0 <= i < bs ==> #[trigger] page_row_fits::<T>(
            d,
            pages,
            req,
            head / g,
            len,
            j,
            i,
        )
}

/// Query and output row `iq` and the row's mask lie in the memories.
pub open spec fn query_row_fits<T>(
    d: int,
    bs: int,
    count: int,
    req: KernelReq,
    head: int,
    masks: int,
    len: int,
    iq: int,
) -> bool {
    let (qh, qs) = (req.q_strides.head as int, req.q_strides.seq as int);
    let (oh, os) = (req.o_strides.head as int, req.o_strides.seq as int);
    &&& reachable::<T>(len, req.q as int, qh, qs, head, iq, d)
    &&& reachable::<T>(len, req.o as int, oh, os, head, iq, d)
    &&& count > 0 ==> req.mask + iq * req.s_ceil + count * bs <= masks
}

/// Row `i` of page `j` lies in the memory, key and value.
pub open spec fn page_row_fits<T>(
    d: int,
    pages: Seq<KVPage>,
    req: KernelReq,
    kv: int,
    len: int,
    j: int,
    i: int,
) -> bool {
    let page = pages[req.pages_start + j];
    let (ch, cs) = (req.kv_strides.head as int, req.kv_strides.seq as int);
    &&& reachable::<T>(len, page.k as int, ch, cs, kv, i, d)
    &&& reachable::<T>(len, page.v as int, ch, cs, kv, i, d)
}

/// What a block needs is what its rows need.
pub(crate) proof fn lemma_attention_fits<T: Scalar>(
    cfg: KernelCfg<T>,
    pages: Seq<KVPage>,
    reqs: Seq<KernelReq>,
    ireq: int,
    head: int,
    masks: nat,
    len: nat,
)
    requires
        0 <= head <= usize::MAX,
    ensures
        block_of(cfg, pages, reqs, ireq, head).attn_ok(len, masks) <==> attention_fits::<T>(
            cfg.g as int,
            cfg.d as int,
            cfg.bs as int,
            pages,
            reqs[ireq],
            head,
            masks as int,
            len as int,
        ),
{
    let req = reqs[ireq];
    let b = block_of(cfg, pages, reqs, ireq, head);
    let (g, d, bs) = (cfg.g as int, cfg.d as int, cfg.bs as int);
    let (l, k) = (len as int, masks as int);
    if bs > 0 {
        lemma_ceil_div(req.s_ceil as int, bs);
        let count = page_number(req.s_ceil as int, bs);
        assert(count == b.page_count());
        assert forall|iq: int| 0 <= iq < req.n implies #[trigger] b.query_ok(len, masks, iq)
            == query_row_fits::<T>(d, bs, count, req, head, k, l, iq) by {
            lemma_row::<T>(len, req.q, req.q_strides, head, iq, d as nat);
            lemma_row::<T>(len, req.o, req.o_strides, head, iq, d as nat);
            if count > 0 {
                assert(count * bs == (count - 1) * bs + bs) by (nonlinear_arith);
                assert(b.mask_at(iq, count - 1) + bs == req.mask + iq * req.s_ceil + count * bs);
                assert forall|j: int| 0 <= j < count implies #[trigger] b.mask_at(iq, j) + bs
                    <= req.mask + iq * req.s_ceil + count * bs by {
                    lemma_row_fits(j, count, bs);
                }
            }
        }
        if req.n > 0 && count > 0 && g > 0 {
            assert forall|j: int, i: int|
                0 <= j < count && 0 <= i < bs implies #[trigger] b.cache_row_ok::<T>(
                len,
                b.kv_head(),
                j,
                i,
            ) == page_row_fits::<T>(d, pages, req, head / g, l, j, i) by {
                vstd::arithmetic::div_mod::lemma_div_pos_is_pos(head, g);
                vstd::arithmetic::div_mod::lemma_div_is_ordered_by_denominator(head, 1, g);
                lemma_row::<T>(len, b.page(j).k, req.kv_strides, head / g, i, d as nat);
                lemma_row::<T>(len, b.page(j).v, req.kv_strides, head / g, i, d as nat);
            }
        }
        if attention_fits::<T>(g, d, bs, pages, req, head, k, l) {
            assert forall|iq: int| 0 <= iq < req.n implies #[trigger] b.query_ok(
                len,
                masks,
                iq,
            ) by {
                assert(query_row_fits::<T>(d, bs, count, req, head, k, l, iq));
            }
            assert forall|j: int, i: int|
                req.n > 0 && 0 <= j < count && 0 <= i < bs implies #[trigger] b.cache_row_ok::<T>(
                len,
                b.kv_head(),
                j,
                i,
            ) by {
                assert(page_row_fits::<T>(d, pages, req, head / g, l, j, i));
            }
        }
        if b.attn_ok(len, masks) {
            assert forall|iq: int| 0 <= iq < req.n implies #[trigger] query_row_fits::<T>(
                d,
                bs,
                count,
                req,
                head,
                k,
                l,
                iq,
            ) by {
                assert(b.query_ok(len, masks, iq));
            }
            assert forall|j: int, i: int|
                req.n > 0 && 0 <= j < count && 0 <= i < bs implies #[trigger] page_row_fits::<T>(
                d,
                pages,
                req,
                head / g,
                l,
                j,
                i,
            ) by {
                assert(b.cache_row_ok::<T>(len, b.kv_head(), j, i));
            }
        }
    }
}

/// `flash_attn_block` can be called whenever its rows and masks lie in the memories,
/// there is a row to a tile, and the workspace has room for two tiles of rows, two
/// pages and the weights of a tile on a page.
pub proof fn attention_can_be_called<T: Scalar>(
    cfg: KernelCfg<T>,
    pages: &[KVPage],
    reqs: &[KernelReq],
    ireq: usize,
    head: usize,
    bn: usize,
    shared: &mut [T],
    masks: &[bool],
    mem: &mut [T],
)
    requires
        functional::<T>(),
        ireq < reqs@.len(),
        bn > 0,
        old(shared)@.len() == 2 * (bn * cfg.d) + 2 * (cfg.bs * cfg.d) + bn * cfg.bs,
        attention_fits::<T>(
            cfg.g as int,
            cfg.d as int,
            cfg.bs as int,
            pages@,
            reqs@[ireq as int],
            head as int,
            masks@.len() as int,
            old(mem)@.len() as int,
        ),
    ensures
        call_requires(
            flash_attn_block::<T>,
            (cfg, pages, reqs, ireq, head, bn, shared, masks, mem),
        ),
{
    lemma_attention_fits(
        cfg,
        pages@,
        reqs@,
        ireq as int,
        head as int,
        masks@.len(),
        old(mem)@.len(),
    );
}

} // verus!
