//! What `flash_attn_block` leaves in an output row.
use crate::attention::cpu::{block_of, flash_attn_block};
use crate::attention::online::{column, lemma_row_fits, scores, weights};
use crate::attention::{KVPage, KernelCfg, KernelReq};
use crate::laws::concat::disjoint;
use crate::laws::exact::{exact, lemma_highest_fin, lemma_scores_fin, softmax_attention};
use crate::laws::plain::append::{cached_key, cached_val};
use crate::laws::plain::attend::{
    attention_fits, lemma_attention_fits, lemma_sum_run, lemma_top_run, look, output_row, Look,
};
use crate::laws::plain::{address, lemma_row, position};
use crate::memory::read;
use crate::scalar::{
    dot, empty_sum, exp, minus, neg_infinity, over, plus, products, sum_from, times, zero, Scalar,
};
use vstd::prelude::*;

verus! {

/// The position of query row `iq` of a head.
pub open spec fn query_row<T>(req: KernelReq, head: int, iq: int) -> int {
    position::<T>(
        address(req.q as int, req.q_strides.head as int, req.q_strides.seq as int, head, iq),
    )
}

/// No output row overlaps another, a query row, or a key or value of the request's
/// pages.
pub open spec fn outputs_apart<T>(
    d: int,
    bs: int,
    kv: int,
    places: int,
    pages: Seq<KVPage>,
    req: KernelReq,
    head: int,
) -> bool {
    let off = |a: int, b: int| a + d <= b || b + d <= a;
    &&& forall|i: int, j: int|
        #![trigger output_row::<T>(req, head, i), output_row::<T>(req, head, j)]
        0 <= i < req.n && 0 <= j < req.n && i != j ==> off(
            output_row::<T>(req, head, i),
            output_row::<T>(req, head, j),
        )
    &&& forall|i: int, j: int|
        #![trigger output_row::<T>(req, head, i), query_row::<T>(req, head, j)]
        0 <= i < req.n && 0 <= j < req.n ==> off(
            output_row::<T>(req, head, i),
            query_row::<T>(req, head, j),
        )
    &&& forall|i: int, p: int|
        #![trigger output_row::<T>(req, head, i), cached_key::<T>(pages, bs, req, kv, p)]
        0 <= i < req.n && 0 <= p < places ==> off(
            output_row::<T>(req, head, i),
            cached_key::<T>(pages, bs, req, kv, p),
        ) && off(output_row::<T>(req, head, i), cached_val::<T>(pages, bs, req, kv, p))
}

proof fn lemma_reads_apart<T: Scalar>(
    cfg: KernelCfg<T>,
    pages: Seq<KVPage>,
    reqs: Seq<KernelReq>,
    ireq: int,
    head: int,
    masks: Seq<bool>,
    mem: Seq<T>,
    t: int,
)
    requires
        0 <= head <= usize::MAX,
        attention_fits::<T>(
            cfg.g as int,
            cfg.d as int,
            cfg.bs as int,
            pages,
            reqs[ireq],
            head,
            masks.len() as int,
            mem.len() as int,
        ),
        outputs_apart::<T>(
            cfg.d as int,
            cfg.bs as int,
            head / (cfg.g as int),
            look(cfg, pages, reqs, ireq, head, masks, mem, 0).places(),
            pages,
            reqs[ireq],
            head,
        ),
        block_of(cfg, pages, reqs, ireq, head).reads(t),
    ensures
        !block_of(cfg, pages, reqs, ireq, head).writes(t),
{
    let req = reqs[ireq];
    let b = block_of(cfg, pages, reqs, ireq, head);
    let bs = cfg.bs as int;
    let kv = head / (cfg.g as int);
    let l = look(cfg, pages, reqs, ireq, head, masks, mem, 0);
    l.lemma_pages_of();
    assert(l.block() == b);
    if b.writes(t) {
        let i = choose|i: int| 0 <= i < req.n && #[trigger] b.in_output(i, t);
        assert(b.in_output(i, t));
        lemma_row::<T>(0, req.o, req.o_strides, head, i, 0);
        let o = output_row::<T>(req, head, i);
        if exists|iq: int| #[trigger] b.reads_query(iq, t) {
            let iq = choose|iq: int| #[trigger] b.reads_query(iq, t);
            lemma_row::<T>(0, req.q, req.q_strides, head, iq, 0);
            let q = query_row::<T>(req, head, iq);
        } else {
            let (j, r) = choose|j: int, i: int| #[trigger] b.reads_cache(j, i, t);
            let p = j * bs + r;
            assert(l.pages_of() > 0);
            l.lemma_place(j, r);
            lemma_row_fits(j, l.pages_of(), bs);
            vstd::arithmetic::div_mod::lemma_div_pos_is_pos(head, cfg.g as int);
            vstd::arithmetic::div_mod::lemma_div_is_ordered_by_denominator(
                head,
                1,
                cfg.g as int,
            );
            lemma_row::<T>(0, b.page(j).k, req.kv_strides, kv, r, 0);
            lemma_row::<T>(0, b.page(j).v, req.kv_strides, kv, r, 0);
            let k = cached_key::<T>(pages, bs, req, kv, p);
        }
    }
}

/// After a call of `flash_attn_block` whose output rows overlap nothing else, output
/// row `iq` holds what query row `iq` makes of the places that it looks at, in the
/// memory as it was before the call and in any arithmetic.
pub proof fn output_holds_what_is_seen<T: Scalar>(
    cfg: KernelCfg<T>,
    pages: &[KVPage],
    reqs: &[KernelReq],
    ireq: usize,
    head: usize,
    bn: usize,
    shared: &mut [T],
    masks: &[bool],
    mem: &mut [T],
    iq: int,
    e: int,
)
    requires
        call_ensures(
            flash_attn_block::<T>,
            (cfg, pages, reqs, ireq, head, bn, shared, masks, mem),
            (),
        ),
        bn > 0,
        attention_fits::<T>(
            cfg.g as int,
            cfg.d as int,
            cfg.bs as int,
            pages@,
            reqs@[ireq as int],
            head as int,
            masks@.len() as int,
            old(mem)@.len() as int,
        ),
        outputs_apart::<T>(
            cfg.d as int,
            cfg.bs as int,
            head as int / (cfg.g as int),
            look(cfg, pages@, reqs@, ireq as int, head as int, masks@, old(mem)@, 0).places(),
            pages@,
            reqs@[ireq as int],
            head as int,
        ),
        0 <= iq < reqs@[ireq as int].n,
        0 <= e < cfg.d,
    ensures
        final(mem)@[output_row::<T>(reqs@[ireq as int], head as int, iq) + e] == look(
            cfg,
            pages@,
            reqs@,
            ireq as int,
            head as int,
            masks@,
            old(mem)@,
            iq,
        ).out(e),
{
    let req = reqs@[ireq as int];
    let b = block_of(cfg, pages@, reqs@, ireq as int, head as int);
    let l = look(cfg, pages@, reqs@, ireq as int, head as int, masks@, old(mem)@, iq);
    assert(l.block() == b);
    lemma_attention_fits(
        cfg,
        pages@,
        reqs@,
        ireq as int,
        head as int,
        masks@.len(),
        old(mem)@.len(),
    );
    assert forall|t: int| b.reads(t) implies !b.writes(t) by {
        lemma_reads_apart(
            cfg,
            pages@,
            reqs@,
            ireq as int,
            head as int,
            masks@,
            old(mem)@,
            t,
        );
    }
    lemma_row::<T>(0, req.o, req.o_strides, head as int, iq, 0);
    assert forall|r: int| iq < r < req.n implies disjoint(
        b.o_at(iq),
        #[trigger] b.o_at(r),
        b.d(),
    ) by {
        lemma_row::<T>(0, req.o, req.o_strides, head as int, r, 0);
        let (x, y) = (
            output_row::<T>(req, head as int, iq),
            output_row::<T>(req, head as int, r),
        );
    }
    b.output_rows_are_attention(old(mem)@, masks@, bn as int, iq);
    l.lemma_out();
    assert(read(final(mem)@, b.o_at(iq), b.d())[e] == b.row(old(mem)@, masks@, iq)[e]);
}

impl<T: Scalar> Look<T> {
    /// Places of the request's pages.
    pub open spec fn places(self) -> int {
        self.pages_of() * self.bs()
    }

    /// The exponential of the score of place `p` less the highest score of all that
    /// the row looks at.
    pub open spec fn portion(self, p: int) -> T {
        exp(minus(self.score(p), self.top(self.places())))
    }

    /// The portions of the places below `p` that the row looks at, summed.
    pub open spec fn below(self, p: int) -> T
        decreases p,
    {
        if p <= 0 {
            zero()
        } else if self.sees(p - 1) {
            plus(self.below(p - 1), self.portion(p - 1))
        } else {
            self.below(p - 1)
        }
    }

    /// Their values, each times its portion, summed.
    pub open spec fn above(self, p: int, e: int) -> T
        decreases p,
    {
        if p <= 0 {
            zero()
        } else if self.sees(p - 1) {
            plus(self.above(p - 1, e), times(self.portion(p - 1), self.val(p - 1, e)))
        } else {
            self.above(p - 1, e)
        }
    }

    /// Query row, seen keys, scale and all values are finite.
    pub open spec fn finite(self, fin: spec_fn(T) -> bool) -> bool {
        &&& fin(self.cfg.scale)
        &&& forall|e: int| 0 <= e < self.cfg.d ==> fin(#[trigger] self.query(e))
        &&& forall|p: int, e: int|
            0 <= p < self.places() && self.sees(p) && 0 <= e < self.cfg.d ==> fin(
                #[trigger] self.key(p, e),
            )
        &&& forall|p: int, e: int|
            0 <= p < self.places() && 0 <= e < self.cfg.d ==> fin(#[trigger] self.val(p, e))
    }

    /// Place `p` as the block sees it.
    proof fn lemma_at(self, p: int)
        requires
            self.bs() > 0,
            self.cfg.g > 0,
            0 <= self.head <= usize::MAX,
            0 <= self.iq <= usize::MAX,
            0 <= p < self.places(),
        ensures
            self.block().places() == self.places(),
            self.block().all_keys(self.mem)[p].len() == self.cfg.d,
            self.block().all_vals(self.mem)[p].len() == self.cfg.d,
            forall|e: int|
                0 <= e < self.cfg.d ==> #[trigger] self.block().all_keys(self.mem)[p][e]
                    == self.key(p, e),
            forall|e: int|
                0 <= e < self.cfg.d ==> #[trigger] self.block().all_vals(self.mem)[p][e]
                    == self.val(p, e),
            self.block().all_mask(self.masks, self.iq)[p] == self.sees(p),
    {
        let b = self.block();
        let bs = self.bs();
        self.lemma_pages_of();
        vstd::arithmetic::div_mod::lemma_fundamental_div_mod(p, bs);
        vstd::arithmetic::div_mod::lemma_mod_bound(p, bs);
        assert(bs * (p / bs) == (p / bs) * bs) by (nonlinear_arith);
        self.lemma_place(p / bs, p % bs);
        assert(b.all_keys(self.mem)[p] == b.keys(self.mem, p / bs)[p % bs]);
        assert(b.all_vals(self.mem)[p] == b.vals(self.mem, p / bs)[p % bs]);
        assert(0 * bs == 0);
    }

    /// In exact arithmetic the row gets its softmax attention: the values that it
    /// looks at, each in proportion to the exponential of its score.
    pub(crate) proof fn lemma_softmax(self, fin: spec_fn(T) -> bool, e: int)
        requires
            exact(fin),
            self.bs() > 0,
            self.cfg.g > 0,
            self.req.s_ceil > 0,
            0 <= self.head <= usize::MAX,
            0 <= self.iq <= usize::MAX,
            self.finite(fin),
            exists|i: int| 0 <= i < self.bs() && #[trigger] self.sees(i),
            0 <= e < self.cfg.d,
        ensures
            self.out(e) == over(self.above(self.places(), e), self.below(self.places())),
    {
        let b = self.block();
        let bs = self.bs();
        let d = self.cfg.d as nat;
        let n = self.places();
        let q = b.query(self.mem, self.iq);
        let keys = b.all_keys(self.mem);
        let vals = b.all_vals(self.mem);
        let mask = b.all_mask(self.masks, self.iq);
        self.lemma_pages_of();
        lemma_row_fits(0, self.pages_of(), bs);
        assert(0 * bs == 0);
        assert(b.places() == n);
        lemma_row::<T>(0, self.req.q, self.req.q_strides, self.head, self.iq, 0);
        assert forall|i: int| 0 <= i < q.len() implies fin(#[trigger] q[i]) by {
            assert(q[i] == self.query(i));
        }
        assert forall|i: int, j: int|
            0 <= i < keys.len() && mask[i] && 0 <= j < d implies fin(#[trigger] keys[i][j]) by {
            self.lemma_at(i);
            assert(fin(self.key(i, j)));
        }
        assert forall|i: int, j: int| 0 <= i < vals.len() && 0 <= j < d implies fin(
            #[trigger] vals[i][j],
        ) by {
            self.lemma_at(i);
            assert(fin(self.val(i, j)));
        }
        let i = choose|i: int| 0 <= i < bs && #[trigger] self.sees(i);
        self.lemma_place(0, i);
        assert(b.mask(self.masks, self.iq, 0)[i]);
        self.lemma_at(i);
        assert(mask[i]);
        b.paged_is_softmax(fin, self.mem, self.masks, self.iq);
        self.lemma_out();
        let x = scores(self.cfg.scale, q, keys, mask);
        assert forall|p: int| 0 <= p < n implies #[trigger] x[p] == (if self.sees(p) {
            self.score(p)
        } else {
            neg_infinity()
        }) by {
            self.lemma_at(p);
            let pr = products(q, keys[p]);
            let run = |j: int| self.inner(p, j);
            assert forall|j: int| 0 < j <= pr.len() implies #[trigger] run(j) == plus(
                run(j - 1),
                pr[j - 1],
            ) by {
                assert(keys[p][j - 1] == self.key(p, j - 1));
                assert(q[j - 1] == self.query(j - 1));
            }
            lemma_sum_run(empty_sum(), pr, run);
        }
        let run = |p: int| self.top(p);
        assert forall|p: int| 0 < p <= x.len() implies #[trigger] run(p) == (if mask[p - 1]
            && crate::scalar::exceeds(x[p - 1], run(p - 1)) {
            x[p - 1]
        } else {
            run(p - 1)
        }) by {
            self.lemma_at(p - 1);
            assert(x[p - 1] == (if self.sees(p - 1) {
                self.score(p - 1)
            } else {
                neg_infinity()
            }));
        }
        lemma_top_run(neg_infinity(), x, mask, run, x.len());
        let m = self.top(n);
        lemma_scores_fin(fin, self.cfg.scale, q, keys, mask);
        lemma_highest_fin(fin, neg_infinity(), x, mask, x.len());
        assert(fin(m));
        let w = weights(x, m);
        assert forall|p: int| 0 <= p < n implies #[trigger] w[p] == (if self.sees(p) {
            self.portion(p)
        } else {
            zero()
        }) && fin(w[p]) by {
            self.lemma_at(p);
            assert(x[p] == (if self.sees(p) {
                self.score(p)
            } else {
                neg_infinity()
            }));
            assert(exp(minus(neg_infinity(), m)) == zero::<T>());
        }
        self.lemma_below(fin, w, n as nat);
        self.lemma_above(fin, w, column(vals, e), e, n as nat);
        assert(w.take(n) =~= w);
        let p = products(w, column(vals, e));
        assert(p.take(n) =~= p);
        let all = softmax_attention(self.cfg.scale, q, keys, vals, mask);
        assert(all[e] == over(dot(w, column(vals, e)), sum_from(zero(), w)));
    }

    proof fn lemma_below(self, fin: spec_fn(T) -> bool, w: Seq<T>, n: nat)
        requires
            exact(fin),
            n <= w.len(),
            forall|p: int|
                0 <= p < w.len() ==> #[trigger] w[p] == (if self.sees(p) {
                    self.portion(p)
                } else {
                    zero()
                }) && fin(w[p]),
        ensures
            sum_from(zero(), w.take(n as int)) == self.below(n as int),
            fin(self.below(n as int)),
        decreases n,
    {
        if n > 0 {
            self.lemma_below(fin, w, (n - 1) as nat);
            assert(w.take(n as int).drop_last() =~= w.take(n - 1));
            assert(w.take(n as int).last() == w[n - 1]);
            assert(fin(w[n - 1]));
            let a = self.below(n - 1);
            assert(plus(a, zero()) == a);
        }
    }

    proof fn lemma_above(
        self,
        fin: spec_fn(T) -> bool,
        w: Seq<T>,
        c: Seq<T>,
        e: int,
        n: nat,
    )
        requires
            exact(fin),
            n <= w.len(),
            w.len() == c.len(),
            w.len() == self.places(),
            self.bs() > 0,
            self.cfg.g > 0,
            0 <= self.head <= usize::MAX,
            0 <= self.iq <= usize::MAX,
            0 <= e < self.cfg.d,
            c == column(self.block().all_vals(self.mem), e),
            self.finite(fin),
            forall|p: int|
                0 <= p < w.len() ==> #[trigger] w[p] == (if self.sees(p) {
                    self.portion(p)
                } else {
                    zero()
                }) && fin(w[p]),
        ensures
            sum_from(empty_sum(), products(w, c).take(n as int)) == self.above(n as int, e),
            fin(self.above(n as int, e)),
        decreases n,
    {
        let p = products(w, c);
        if n > 0 {
            self.lemma_above(fin, w, c, e, (n - 1) as nat);
            self.lemma_at(n - 1);
            assert(p.take(n as int).drop_last() =~= p.take(n - 1));
            assert(p.take(n as int).last() == p[n - 1]);
            assert(fin(w[n - 1]));
            assert(self.block().all_vals(self.mem)[n - 1][e] == self.val(n - 1, e));
            assert(fin(self.val(n - 1, e)));
            let a = self.above(n - 1, e);
            assert(plus(a, zero()) == a);
            assert(times(zero(), self.val(n - 1, e)) == zero::<T>());
        }
    }
}

/// After a call of `flash_attn_block` in exact arithmetic, output row `iq` holds the
/// softmax attention of query row `iq`: with `x` the score of a place, inner product
/// of query row and key times scale, and `m` the highest score that the row sees, it
/// is the sum of `exp(x - m)` times value over the sum of `exp(x - m)`, over the
/// places that the row looks at.
pub proof fn output_is_softmax<T: Scalar>(
    cfg: KernelCfg<T>,
    pages: &[KVPage],
    reqs: &[KernelReq],
    ireq: usize,
    head: usize,
    bn: usize,
    shared: &mut [T],
    masks: &[bool],
    mem: &mut [T],
    fin: spec_fn(T) -> bool,
    iq: int,
    e: int,
)
    requires
        call_ensures(
            flash_attn_block::<T>,
            (cfg, pages, reqs, ireq, head, bn, shared, masks, mem),
            (),
        ),
        bn > 0,
        attention_fits::<T>(
            cfg.g as int,
            cfg.d as int,
            cfg.bs as int,
            pages@,
            reqs@[ireq as int],
            head as int,
            masks@.len() as int,
            old(mem)@.len() as int,
        ),
        outputs_apart::<T>(
            cfg.d as int,
            cfg.bs as int,
            head as int / (cfg.g as int),
            look(cfg, pages@, reqs@, ireq as int, head as int, masks@, old(mem)@, 0).places(),
            pages@,
            reqs@[ireq as int],
            head as int,
        ),
        0 <= iq < reqs@[ireq as int].n,
        0 <= e < cfg.d,
        reqs@[ireq as int].s_ceil > 0,
        exact(fin),
        look(cfg, pages@, reqs@, ireq as int, head as int, masks@, old(mem)@, iq).finite(fin),
        exists|i: int|
            0 <= i < cfg.bs && #[trigger] look(
                cfg,
                pages@,
                reqs@,
                ireq as int,
                head as int,
                masks@,
                old(mem)@,
                iq,
            ).sees(i),
    ensures
        ({
            let l = look(cfg, pages@, reqs@, ireq as int, head as int, masks@, old(mem)@, iq);
            final(mem)@[output_row::<T>(reqs@[ireq as int], head as int, iq) + e] == over(
                l.above(l.places(), e),
                l.below(l.places()),
            )
        }),
{
    let l = look(cfg, pages@, reqs@, ireq as int, head as int, masks@, old(mem)@, iq);
    output_holds_what_is_seen(
        cfg,
        pages,
        reqs,
        ireq,
        head,
        bn,
        shared,
        masks,
        mem,
        iq,
        e,
    );
    l.lemma_softmax(fin, e);
}

/// A query row that looks at one place only gets that place's value row, whatever its
/// score: its portion of itself, which is all there is.
pub proof fn a_lone_place_is_all<T: Scalar>(
    cfg: KernelCfg<T>,
    pages: &[KVPage],
    reqs: &[KernelReq],
    ireq: usize,
    head: usize,
    bn: usize,
    shared: &mut [T],
    masks: &[bool],
    mem: &mut [T],
    fin: spec_fn(T) -> bool,
    iq: int,
    e: int,
    p: int,
)
    requires
        call_ensures(
            flash_attn_block::<T>,
            (cfg, pages, reqs, ireq, head, bn, shared, masks, mem),
            (),
        ),
        bn > 0,
        attention_fits::<T>(
            cfg.g as int,
            cfg.d as int,
            cfg.bs as int,
            pages@,
            reqs@[ireq as int],
            head as int,
            masks@.len() as int,
            old(mem)@.len() as int,
        ),
        outputs_apart::<T>(
            cfg.d as int,
            cfg.bs as int,
            head as int / (cfg.g as int),
            look(cfg, pages@, reqs@, ireq as int, head as int, masks@, old(mem)@, 0).places(),
            pages@,
            reqs@[ireq as int],
            head as int,
        ),
        0 <= iq < reqs@[ireq as int].n,
        0 <= e < cfg.d,
        reqs@[ireq as int].s_ceil > 0,
        exact(fin),
        // a number's portion of itself is one
        forall|x: T, v: T|
            fin(x) && fin(v) ==> over(#[trigger] times(exp(minus(x, x)), v), exp(minus(x, x)))
                == v,
        look(cfg, pages@, reqs@, ireq as int, head as int, masks@, old(mem)@, iq).finite(fin),
        0 <= p < cfg.bs,
        ({
            let l = look(cfg, pages@, reqs@, ireq as int, head as int, masks@, old(mem)@, iq);
            forall|i: int| 0 <= i < l.places() ==> (#[trigger] l.sees(i) <==> i == p)
        }),
    ensures
        final(mem)@[output_row::<T>(reqs@[ireq as int], head as int, iq) + e] == old(
            mem,
        )@[cached_val::<T>(
            pages@,
            cfg.bs as int,
            reqs@[ireq as int],
            head as int / (cfg.g as int),
            p,
        ) + e],
{
    let l = look(cfg, pages@, reqs@, ireq as int, head as int, masks@, old(mem)@, iq);
    l.lemma_pages_of();
    lemma_row_fits(0, l.pages_of(), l.bs());
    assert(0 * l.bs() == 0);
    assert(l.sees(p));
    output_is_softmax(
        cfg,
        pages,
        reqs,
        ireq,
        head,
        bn,
        shared,
        masks,
        mem,
        fin,
        iq,
        e,
    );
    l.lemma_lone(fin, p, e, l.places() as nat);
    l.lemma_score_fin(fin, p, cfg.d as nat);
    let x = l.score(p);
    assert(fin(x));
    assert(l.top(l.places()) == x);
    let u = exp(minus(x, x));
    let v = l.val(p, e);
    assert(fin(v));
    assert(fin(u));
    assert(fin(times(u, v)));
    assert(plus(zero(), u) == u) by {
        assert(plus(u, zero()) == u);
    }
    assert(plus(zero(), times(u, v)) == times(u, v)) by {
        assert(plus(times(u, v), zero()) == times(u, v));
    }
}

impl<T: Scalar> Look<T> {
    /// Sums over a lone place.
    proof fn lemma_lone(self, fin: spec_fn(T) -> bool, p: int, e: int, n: nat)
        requires
            exact(fin),
            self.finite(fin),
            0 <= p < self.places(),
            0 <= e < self.cfg.d,
            n <= self.places(),
            forall|i: int| 0 <= i < self.places() ==> (#[trigger] self.sees(i) <==> i == p),
        ensures
            self.top(n as int) == (if n <= p {
                neg_infinity()
            } else {
                self.score(p)
            }),
            self.below(n as int) == (if n <= p {
                zero()
            } else {
                plus(zero(), self.portion(p))
            }),
            self.above(n as int, e) == (if n <= p {
                zero()
            } else {
                plus(zero(), times(self.portion(p), self.val(p, e)))
            }),
        decreases n,
    {
        if n > 0 {
            self.lemma_lone(fin, p, e, (n - 1) as nat);
            assert(self.sees(n - 1) <==> n - 1 == p);
            self.lemma_score_fin(fin, p, self.cfg.d as nat);
            assert(crate::scalar::exceeds(self.score(p), neg_infinity()));
        }
    }

    /// Scores that are seen are finite.
    proof fn lemma_score_fin(self, fin: spec_fn(T) -> bool, p: int, d: nat)
        requires
            exact(fin),
            self.finite(fin),
            0 <= p < self.places(),
            self.sees(p),
            d <= self.cfg.d,
        ensures
            fin(self.inner(p, d as int)),
            fin(self.score(p)) || d < self.cfg.d,
        decreases d,
    {
        if d > 0 {
            self.lemma_score_fin(fin, p, (d - 1) as nat);
            assert(fin(self.query(d - 1)));
            assert(fin(self.key(p, d - 1)));
            assert(fin(times(self.query(d - 1), self.key(p, d - 1))));
        }
    }
}

} // verus!
