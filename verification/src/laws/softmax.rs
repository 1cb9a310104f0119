//! What the attention of a block is, over the sequence as a whole.
use crate::attention::block::Block;
use crate::attention::online::{fresh, scores};
use crate::ceil::lemma_ceil_div;
use crate::laws::concat::disjoint;
use crate::laws::exact::{
    all_fin, exact, gathered, lemma_gather, lemma_gather_first, rows_fin, seen_fin,
    softmax_attention, softmax_depends_on_seen,
};
use crate::memory::read;
use crate::scalar::Scalar;
use vstd::prelude::*;

verus! {

impl<T: Scalar> Block<T> {
    /// Rows of all pages.
    pub open spec fn places(self) -> nat {
        (self.page_count() * self.bs()) as nat
    }

    /// The keys at all places of the padded sequence.
    pub open spec fn all_keys(self, mem: Seq<T>) -> Seq<Seq<T>> {
        Seq::new(
            self.places(),
            |p: int|
                read(
                    mem,
                    self.k_at::<T>(self.kv_head(), p / self.bs(), p % self.bs()),
                    self.d(),
                ),
        )
    }

    /// The values at all places of the padded sequence.
    pub open spec fn all_vals(self, mem: Seq<T>) -> Seq<Seq<T>> {
        Seq::new(
            self.places(),
            |p: int|
                read(
                    mem,
                    self.v_at::<T>(self.kv_head(), p / self.bs(), p % self.bs()),
                    self.d(),
                ),
        )
    }

    /// Which places of the padded sequence query row `iq` looks at.
    pub open spec fn all_mask(self, masks: Seq<bool>, iq: int) -> Seq<bool> {
        read(masks, self.mask_at(iq, 0), self.places())
    }

    /// The places of page `j` follow those of the pages before it.
    proof fn lemma_pages_join(self, mem: Seq<T>, masks: Seq<bool>, iq: int, j: int)
        requires
            self.bs() > 0,
            0 <= j < self.page_count(),
        ensures
            0 <= j * self.bs(),
            (j + 1) * self.bs() <= self.places(),
            self.all_keys(mem).take((j + 1) * self.bs()) == self.all_keys(mem).take(j * self.bs())
                + self.keys(mem, j),
            self.all_vals(mem).take((j + 1) * self.bs()) == self.all_vals(mem).take(j * self.bs())
                + self.vals(mem, j),
            self.all_mask(masks, iq).take((j + 1) * self.bs()) == self.all_mask(masks, iq).take(
                j * self.bs(),
            ) + self.mask(masks, iq, j),
    {
        let bs = self.bs();
        crate::attention::online::lemma_row_fits(j, self.page_count(), bs);
        assert((j + 1) * bs == j * bs + bs) by (nonlinear_arith);
        assert(0 * bs == 0) by (nonlinear_arith);
        assert forall|i: int| 0 <= i < bs implies (#[trigger] (j * bs + i)) / bs == j && (j * bs + i)
            % bs == i by {
            vstd::arithmetic::div_mod::lemma_fundamental_div_mod_converse(j * bs + i, bs, j, i);
        }
        let to = (j + 1) * bs;
        let from = j * bs;
        let ak = self.all_keys(mem);
        let av = self.all_vals(mem);
        let am = self.all_mask(masks, iq);
        assert forall|p: int| from <= p < to implies #[trigger] ak[p] == self.keys(mem, j)[p - from] by {
            assert(p == j * bs + (p - from));
        }
        assert forall|p: int| from <= p < to implies #[trigger] av[p] == self.vals(mem, j)[p - from] by {
            assert(p == j * bs + (p - from));
        }
        assert(ak.take(to) =~= ak.take(from) + self.keys(mem, j));
        assert(av.take(to) =~= av.take(from) + self.vals(mem, j));
        assert(am.take(to) =~= am.take(from) + self.mask(masks, iq, j));
    }

    /// After some pages, a row has gathered the places of those pages.
    proof fn lemma_gathers(
        self,
        fin: spec_fn(T) -> bool,
        mem: Seq<T>,
        masks: Seq<bool>,
        iq: int,
        j: nat,
    )
        requires
            exact(fin),
            self.bs() > 0,
            fin(self.cfg.scale),
            all_fin(fin, self.query(mem, iq)),
            seen_fin(fin, self.all_keys(mem), self.all_mask(masks, iq), self.d()),
            rows_fin(fin, self.all_vals(mem), self.d()),
            exists|t: int| 0 <= t < self.bs() && #[trigger] self.mask(masks, iq, 0)[t],
            0 < j <= self.page_count(),
        ensures
            gathered(
                self.state(mem, masks, iq, j),
                self.cfg.scale,
                self.query(mem, iq),
                self.all_keys(mem).take(j * self.bs()),
                self.all_vals(mem).take(j * self.bs()),
                self.all_mask(masks, iq).take(j * self.bs()),
            ),
            fin(self.state(mem, masks, iq, j).m),
        decreases j,
    {
        let bs = self.bs();
        let c = j - 1;
        let q = self.query(mem, iq);
        let ak = self.all_keys(mem);
        let av = self.all_vals(mem);
        let am = self.all_mask(masks, iq);
        self.lemma_pages_join(mem, masks, iq, c);
        let k2 = self.keys(mem, c);
        let mask2 = self.mask(masks, iq, c);
        let v2 = self.vals(mem, c);
        let k1 = ak.take(c * bs);
        let mask1 = am.take(c * bs);
        let v1 = av.take(c * bs);
        assert(c * bs + bs == j * bs) by (nonlinear_arith)
            requires
                j == c + 1,
        ;
        assert forall|i: int, e: int| 0 <= i < k2.len() && mask2[i] && 0 <= e < self.d() implies fin(
            #[trigger] k2[i][e],
        ) by {
            assert(k2[i] == ak.take(j * bs)[c * bs + i]);
            assert(mask2[i] == am.take(j * bs)[c * bs + i]);
            assert(fin(ak[c * bs + i][e]));
        }
        assert forall|i: int, e: int| 0 <= i < v2.len() && 0 <= e < self.d() implies fin(
            #[trigger] v2[i][e],
        ) by {
            assert(v2[i] == av.take(j * bs)[c * bs + i]);
            assert(fin(av[c * bs + i][e]));
        }
        assert forall|i: int, e: int| 0 <= i < k1.len() && mask1[i] && 0 <= e < self.d() implies fin(
            #[trigger] k1[i][e],
        ) by {
            assert(fin(ak[i][e]));
        }
        assert forall|i: int, e: int| 0 <= i < v1.len() && 0 <= e < self.d() implies fin(
            #[trigger] v1[i][e],
        ) by {
            assert(fin(av[i][e]));
        }
        if j == 1 {
            assert(k1.len() == 0 && v1.len() == 0);
            assert(ak.take(j * bs) =~= k2);
            assert(av.take(j * bs) =~= v2);
            assert(am.take(j * bs) =~= self.mask(masks, iq, c));
            assert(self.state(mem, masks, iq, 0) == fresh::<T>(q.len()));
            let t = choose|t: int| 0 <= t < self.bs() && #[trigger] self.mask(masks, iq, 0)[t];
            assert(self.mask(masks, iq, c)[t]);
            lemma_gather_first(fin, self.cfg.scale, q, k2, v2, self.mask(masks, iq, c));
        } else {
            self.lemma_gathers(fin, mem, masks, iq, c as nat);
            lemma_gather(
                fin,
                self.state(mem, masks, iq, c as nat),
                self.cfg.scale,
                q,
                k1,
                v1,
                mask1,
                k2,
                v2,
                self.mask(masks, iq, c),
            );
        }
    }

    /// In exact arithmetic the pages leave no trace: the output of a query row
    /// that looks at a row of the first page is its softmax attention over all
    /// places at once.
    pub proof fn paged_is_softmax(
        self,
        fin: spec_fn(T) -> bool,
        mem: Seq<T>,
        masks: Seq<bool>,
        iq: int,
    )
        requires
            exact(fin),
            self.bs() > 0,
            self.req.s_ceil > 0,
            fin(self.cfg.scale),
            all_fin(fin, self.query(mem, iq)),
            seen_fin(fin, self.all_keys(mem), self.all_mask(masks, iq), self.d()),
            rows_fin(fin, self.all_vals(mem), self.d()),
            exists|t: int| 0 <= t < self.bs() && #[trigger] self.mask(masks, iq, 0)[t],
        ensures
            self.row(mem, masks, iq) == softmax_attention(
                self.cfg.scale,
                self.query(mem, iq),
                self.all_keys(mem),
                self.all_vals(mem),
                self.all_mask(masks, iq),
            ),
    {
        lemma_ceil_div(self.req.s_ceil as int, self.bs());
        let n = self.page_count();
        self.lemma_gathers(fin, mem, masks, iq, n as nat);
        self.lemma_pages_join(mem, masks, iq, n - 1);
        assert(n * self.bs() == self.places());
        assert(self.all_keys(mem).take(n * self.bs()) =~= self.all_keys(mem));
        assert(self.all_vals(mem).take(n * self.bs()) =~= self.all_vals(mem));
        assert(self.all_mask(masks, iq).take(n * self.bs()) =~= self.all_mask(masks, iq));
        assert(self.row(mem, masks, iq) =~= softmax_attention(
            self.cfg.scale,
            self.query(mem, iq),
            self.all_keys(mem),
            self.all_vals(mem),
            self.all_mask(masks, iq),
        ));
    }

    /// The keys of rows that a query row does not look at do not matter to it,
    /// in any arithmetic.
    pub proof fn unseen_keys_do_not_matter(
        self,
        a: Seq<T>,
        b: Seq<T>,
        masks: Seq<bool>,
        iq: int,
    )
        requires
            self.bs() > 0,
            self.query(a, iq) == self.query(b, iq),
            forall|j: int|
                0 <= j < self.page_count() ==> #[trigger] self.vals(a, j) == self.vals(b, j),
            forall|j: int, i: int|
                0 <= j < self.page_count() && 0 <= i < self.bs() && self.mask(masks, iq, j)[i]
                    ==> #[trigger] self.keys(a, j)[i] == self.keys(b, j)[i],
        ensures
            self.row(a, masks, iq) == self.row(b, masks, iq),
    {
        lemma_ceil_div(self.req.s_ceil as int, self.bs());
        self.lemma_unseen(a, b, masks, iq, self.page_count() as nat);
    }

    proof fn lemma_unseen(self, a: Seq<T>, b: Seq<T>, masks: Seq<bool>, iq: int, n: nat)
        requires
            self.query(a, iq) == self.query(b, iq),
            n <= self.page_count(),
            forall|j: int|
                0 <= j < self.page_count() ==> #[trigger] self.vals(a, j) == self.vals(b, j),
            forall|j: int, i: int|
                0 <= j < self.page_count() && 0 <= i < self.bs() && self.mask(masks, iq, j)[i]
                    ==> #[trigger] self.keys(a, j)[i] == self.keys(b, j)[i],
        ensures
            self.state(a, masks, iq, n) == self.state(b, masks, iq, n),
        decreases n,
    {
        if n > 0 {
            let j = n - 1;
            self.lemma_unseen(a, b, masks, iq, j as nat);
            let q = self.query(a, iq);
            let mask = self.mask(masks, iq, j);
            assert(self.vals(a, j) == self.vals(b, j));
            let xa = scores(self.cfg.scale, q, self.keys(a, j), mask);
            let xb = scores(self.cfg.scale, q, self.keys(b, j), mask);
            assert forall|i: int| 0 <= i < self.bs() implies xa[i] == xb[i] by {
                if mask[i] {
                    assert(self.keys(a, j)[i] == self.keys(b, j)[i]);
                }
            }
            assert(xa =~= xb);
        }
    }

    /// In exact arithmetic, the attention of query row `iq` depends on nothing but
    /// that query row, its own row of the mask, and the keys and values that this
    /// row of the mask lets through. The other values only have to be finite.
    pub proof fn row_depends_on_what_it_sees(
        self,
        fin: spec_fn(T) -> bool,
        a: Seq<T>,
        masks_a: Seq<bool>,
        b: Seq<T>,
        masks_b: Seq<bool>,
        iq: int,
    )
        requires
            exact(fin),
            self.bs() > 0,
            self.req.s_ceil > 0,
            fin(self.cfg.scale),
            all_fin(fin, self.query(a, iq)),
            seen_fin(fin, self.all_keys(a), self.all_mask(masks_a, iq), self.d()),
            rows_fin(fin, self.all_vals(a), self.d()),
            rows_fin(fin, self.all_vals(b), self.d()),
            exists|t: int| 0 <= t < self.bs() && #[trigger] self.mask(masks_a, iq, 0)[t],
            self.query(a, iq) == self.query(b, iq),
            self.all_mask(masks_a, iq) == self.all_mask(masks_b, iq),
            forall|p: int|
                0 <= p < self.places() && self.all_mask(masks_a, iq)[p]
                    ==> #[trigger] self.all_keys(a)[p] == self.all_keys(b)[p],
            forall|p: int|
                0 <= p < self.places() && self.all_mask(masks_a, iq)[p]
                    ==> #[trigger] self.all_vals(a)[p] == self.all_vals(b)[p],
        ensures
            self.row(a, masks_a, iq) == self.row(b, masks_b, iq),
    {
        let mask = self.all_mask(masks_a, iq);
        let n = self.page_count();
        lemma_ceil_div(self.req.s_ceil as int, self.bs());
        crate::attention::online::lemma_row_fits(0, n, self.bs());
        assert(0 * self.bs() == 0);
        let t = choose|t: int| 0 <= t < self.bs() && #[trigger] self.mask(masks_a, iq, 0)[t];
        assert(mask[t] == self.mask(masks_a, iq, 0)[t]);
        assert(self.all_mask(masks_b, iq)[t] == self.mask(masks_b, iq, 0)[t]);
        assert(self.mask(masks_b, iq, 0)[t]);
        assert(seen_fin(fin, self.all_keys(b), mask, self.d())) by {
            assert forall|i: int, j: int|
                0 <= i < self.places() && mask[i] && 0 <= j < self.d() implies fin(
                #[trigger] self.all_keys(b)[i][j],
            ) by {
                assert(self.all_keys(a)[i] == self.all_keys(b)[i]);
                assert(fin(self.all_keys(a)[i][j]));
            }
        }
        self.paged_is_softmax(fin, a, masks_a, iq);
        self.paged_is_softmax(fin, b, masks_b, iq);
        softmax_depends_on_seen(
            fin,
            self.cfg.scale,
            self.query(a, iq),
            self.all_keys(a),
            self.all_vals(a),
            self.all_keys(b),
            self.all_vals(b),
            mask,
        );
    }

    /// The same of two runs of the block: in exact arithmetic, output row `iq` is
    /// the same after both if they agree on query row `iq`, on its row of the
    /// mask, and on the keys and values that this row of the mask lets through,
    /// where the block writes nothing it reads and no later output row over it.
    pub proof fn output_depends_on_what_it_sees(
        self,
        fin: spec_fn(T) -> bool,
        a: Seq<T>,
        masks_a: Seq<bool>,
        b: Seq<T>,
        masks_b: Seq<bool>,
        bn: int,
        iq: int,
    )
        requires
            exact(fin),
            bn > 0,
            self.attn_ok(a.len(), masks_a.len()),
            self.attn_ok(b.len(), masks_b.len()),
            forall|p: int| self.reads(p) ==> !self.writes(p),
            0 <= iq < self.req.n,
            forall|r: int|
                iq < r < self.req.n ==> disjoint(
                    self.o_at(iq),
                    #[trigger] self.o_at(r),
                    self.d(),
                ),
            self.req.s_ceil > 0,
            fin(self.cfg.scale),
            all_fin(fin, self.query(a, iq)),
            seen_fin(fin, self.all_keys(a), self.all_mask(masks_a, iq), self.d()),
            rows_fin(fin, self.all_vals(a), self.d()),
            rows_fin(fin, self.all_vals(b), self.d()),
            exists|t: int| 0 <= t < self.bs() && #[trigger] self.mask(masks_a, iq, 0)[t],
            self.query(a, iq) == self.query(b, iq),
            self.all_mask(masks_a, iq) == self.all_mask(masks_b, iq),
            forall|p: int|
                0 <= p < self.places() && self.all_mask(masks_a, iq)[p]
                    ==> #[trigger] self.all_keys(a)[p] == self.all_keys(b)[p],
            forall|p: int|
                0 <= p < self.places() && self.all_mask(masks_a, iq)[p]
                    ==> #[trigger] self.all_vals(a)[p] == self.all_vals(b)[p],
        ensures
            read(self.attended(a, masks_a, bn), self.o_at(iq), self.d()) == read(
                self.attended(b, masks_b, bn),
                self.o_at(iq),
                self.d(),
            ),
    {
        self.row_depends_on_what_it_sees(fin, a, masks_a, b, masks_b, iq);
        self.output_rows_are_attention(a, masks_a, bn, iq);
        self.output_rows_are_attention(b, masks_b, bn, iq);
    }
}

} // verus!
