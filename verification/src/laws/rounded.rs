//! Batches and requests in rounding arithmetic: what later rows and parts do not
//! change.
use crate::attention::batch::{masks_spec, Attention};
use crate::attention::FlashAttnCfg;
use crate::ceil::lemma_ceil_div;
use crate::laws::batch::{heads_share_evenly, pages_hold_sequence};
use crate::laws::masked::{
    alike, all_same, equal, grounded, lemma_all_equal, lemma_masks_vanish, lemma_output_alike,
    lemma_pages_vanish, masks_vanish, pages_vanish, resting, vanishing,
};
use crate::laws::request::Row;
use crate::laws::whole::{grown_key, grown_val};
use crate::memory::read;
use crate::scalar::{dot, times, Scalar};
use vstd::prelude::*;

verus! {

impl FlashAttnCfg {
    /// Later rows have no influence on earlier ones, as far as `same` tells: two
    /// runs on the same requests give the same output rows below `t` of block
    /// `id`, if their memories agree on the query rows below `t` and on what the
    /// sequence holds up to there, filled before or new. The scores that a row
    /// sees have to be finite, and so have the values that it does not see.
    /// Arithmetic may round.
    pub proof fn later_rows_are_alike<T: Scalar>(
        self,
        fin: spec_fn(T) -> bool,
        same: spec_fn(T, T) -> bool,
        scale: T,
        reqs: Seq<Attention>,
        a: Seq<T>,
        b: Seq<T>,
        id: (usize, usize),
        t: int,
        iq: int,
    )
        requires
            vanishing(fin, same),
            grounded(fin),
            self.kvh > 0,
            self.h % self.kvh == 0,
            self.tile_seq > 0,
            reqs.len() <= usize::MAX,
            id.0 < reqs.len(),
            id.1 < self.h,
            reqs[id.0 as int].ok(self.tile_ctx as int),
            masks_spec(reqs, self.tile_ctx as int, reqs.len()).len() <= usize::MAX,
            0 <= iq < t <= reqs[id.0 as int].n(),
            a.len() == b.len(),
            self.in_order(scale, reqs, a.len(), id, iq),
            forall|i: int|
                0 <= i < t ==> #[trigger] self.batch_view(scale, reqs).block(id).query(a, i)
                    == self.batch_view(scale, reqs).block(id).query(b, i),
            forall|p: int|
                0 <= p < reqs[id.0 as int].pos + t ==> #[trigger] grown_key(
                    self.batch_view(scale, reqs).block(self.kv_block(id)),
                    a,
                    p,
                ) == grown_key(self.batch_view(scale, reqs).block(self.kv_block(id)), b, p),
            forall|p: int|
                0 <= p < reqs[id.0 as int].pos + t ==> #[trigger] grown_val(
                    self.batch_view(scale, reqs).block(self.kv_block(id)),
                    a,
                    p,
                ) == grown_val(self.batch_view(scale, reqs).block(self.kv_block(id)), b, p),
            self.batch_scores_fin(fin, scale, reqs, a, id, iq),
            self.batch_unseen_fin(fin, scale, reqs, a, id, iq),
            self.batch_unseen_fin(fin, scale, reqs, b, id, iq),
        ensures
            all_same(
                same,
                read(
                    self.computed(scale, reqs, a),
                    self.batch_view(scale, reqs).block(id).o_at(iq),
                    self.d as nat,
                ),
                read(
                    self.computed(scale, reqs, b),
                    self.batch_view(scale, reqs).block(id).o_at(iq),
                    self.d as nat,
                ),
            ),
    {
        let tile = self.tile_ctx as int;
        let req = reqs[id.0 as int];
        let view = self.batch_view(scale, reqs);
        let m = view.masks;
        let x = view.block(id);
        let c = view.block(self.kv_block(id));
        let fa = self.filled(scale, reqs, a);
        let fb = self.filled(scale, reqs, b);
        let n = x.page_count();
        self.each_row_sees_the_grown_cache(scale, reqs, a, id, iq);
        self.each_row_sees_the_grown_cache(scale, reqs, b, id, iq);
        self.block_mask_is_causal(scale, reqs, id, iq);
        pages_hold_sequence(req, tile);
        assert(x.query(a, iq) == x.query(b, iq));
        assert(x.agree(fin, fa, m, fb, m, iq)) by {
            assert forall|p: int| 0 <= p < x.places() && x.all_mask(m, iq)[p]
                implies #[trigger] x.all_keys(fa)[p] == x.all_keys(fb)[p] by {
                assert(grown_key(c, a, p) == grown_key(c, b, p));
            }
            assert forall|p: int| 0 <= p < x.places() && x.all_mask(m, iq)[p]
                implies #[trigger] x.all_vals(fa)[p] == x.all_vals(fb)[p] by {
                assert(grown_val(c, a, p) == grown_val(c, b, p));
            }
            assert forall|p: int, e: int|
                0 <= p < x.places() && !x.all_mask(m, iq)[p] && 0 <= e < x.d() implies fin(
                #[trigger] x.all_vals(fa)[p][e],
            ) by {
                assert(x.all_mask(m, iq)[p] <==> p <= req.pos + iq);
            }
            assert forall|p: int, e: int|
                0 <= p < x.places() && !x.all_mask(m, iq)[p] && 0 <= e < x.d() implies fin(
                #[trigger] x.all_vals(fb)[p][e],
            ) by {
                assert(x.all_mask(m, iq)[p] <==> p <= req.pos + iq);
            }
        }
        x.lemma_agree_sees(fin, fa, m, fb, m, iq);
        lemma_ceil_div(x.req.s_ceil as int, x.bs());
        x.lemma_page_place(fa, m, iq, 0, 0);
        assert(x.all_mask(m, iq)[0]);
        assert(x.mask(m, iq, 0)[0]);
        assert forall|j: int, i: int|
            0 <= j < n && 0 <= i < x.bs() && x.mask(m, iq, j)[i] implies fin(
            #[trigger] x.score(fa, iq, j, i),
        ) by {
            x.lemma_page_place(fa, m, iq, j, i);
            let p = j * x.bs() + i;
            assert(x.all_mask(m, iq)[p]);
            assert(x.all_keys(fa)[p] == grown_key(c, a, p));
        }
        x.finite_scores_lead(fin, fa, m, iq);
        x.lemma_states_alike(fin, same, fa, m, iq, x, fb, m, iq, n as nat);
        lemma_output_alike(same, x.state(fa, m, iq, n as nat), x.state(fb, m, iq, n as nat));
    }

    /// The scores that query row `iq` of block `id` sees are finite.
    pub open spec fn batch_scores_fin<T: Scalar>(
        self,
        fin: spec_fn(T) -> bool,
        scale: T,
        reqs: Seq<Attention>,
        mem: Seq<T>,
        id: (usize, usize),
        iq: int,
    ) -> bool {
        let view = self.batch_view(scale, reqs);
        forall|p: int|
            0 <= p <= reqs[id.0 as int].pos + iq ==> fin(
                times(
                    dot(
                        view.block(id).query(mem, iq),
                        #[trigger] grown_key(view.block(self.kv_block(id)), mem, p),
                    ),
                    scale,
                ),
            )
    }

    /// The values that query row `iq` of block `id` does not see are finite once
    /// the new rows are in the cache.
    pub open spec fn batch_unseen_fin<T: Scalar>(
        self,
        fin: spec_fn(T) -> bool,
        scale: T,
        reqs: Seq<Attention>,
        mem: Seq<T>,
        id: (usize, usize),
        iq: int,
    ) -> bool {
        let b = self.batch_view(scale, reqs).block(id);
        forall|p: int, e: int|
            reqs[id.0 as int].pos + iq < p < b.places() && 0 <= e < self.d ==> fin(
                #[trigger] b.all_vals(self.filled(scale, reqs, mem))[p][e],
            )
    }

    /// The same where masked terms vanish: the output rows below `t` are equal.
    pub proof fn later_rows_vanish<T: Scalar>(
        self,
        fin: spec_fn(T) -> bool,
        scale: T,
        reqs: Seq<Attention>,
        a: Seq<T>,
        b: Seq<T>,
        id: (usize, usize),
        t: int,
        iq: int,
    )
        requires
            masks_vanish(fin),
            self.kvh > 0,
            self.h % self.kvh == 0,
            self.tile_seq > 0,
            reqs.len() <= usize::MAX,
            id.0 < reqs.len(),
            id.1 < self.h,
            reqs[id.0 as int].ok(self.tile_ctx as int),
            masks_spec(reqs, self.tile_ctx as int, reqs.len()).len() <= usize::MAX,
            0 <= iq < t <= reqs[id.0 as int].n(),
            a.len() == b.len(),
            self.in_order(scale, reqs, a.len(), id, iq),
            forall|i: int|
                0 <= i < t ==> #[trigger] self.batch_view(scale, reqs).block(id).query(a, i)
                    == self.batch_view(scale, reqs).block(id).query(b, i),
            forall|p: int|
                0 <= p < reqs[id.0 as int].pos + t ==> #[trigger] grown_key(
                    self.batch_view(scale, reqs).block(self.kv_block(id)),
                    a,
                    p,
                ) == grown_key(self.batch_view(scale, reqs).block(self.kv_block(id)), b, p),
            forall|p: int|
                0 <= p < reqs[id.0 as int].pos + t ==> #[trigger] grown_val(
                    self.batch_view(scale, reqs).block(self.kv_block(id)),
                    a,
                    p,
                ) == grown_val(self.batch_view(scale, reqs).block(self.kv_block(id)), b, p),
            self.batch_scores_fin(fin, scale, reqs, a, id, iq),
            self.batch_unseen_fin(fin, scale, reqs, a, id, iq),
            self.batch_unseen_fin(fin, scale, reqs, b, id, iq),
        ensures
            read(
                self.computed(scale, reqs, a),
                self.batch_view(scale, reqs).block(id).o_at(iq),
                self.d as nat,
            ) == read(
                self.computed(scale, reqs, b),
                self.batch_view(scale, reqs).block(id).o_at(iq),
                self.d as nat,
            ),
    {
        let at = self.batch_view(scale, reqs).block(id).o_at(iq);
        lemma_masks_vanish(fin);
        self.later_rows_are_alike(fin, equal(), scale, reqs, a, b, id, t, iq);
        lemma_all_equal(
            read(self.computed(scale, reqs, a), at, self.d as nat),
            read(self.computed(scale, reqs, b), at, self.d as nat),
        );
    }

    /// What computing one request whose tensors do not overlap leaves in an output
    /// row, in any arithmetic: what the pages make of the query row, with the new
    /// rows in the cache and the places up to the row's own in sight.
    proof fn lemma_request_run<T: Scalar>(
        self,
        scale: T,
        req: Attention,
        mem: Seq<T>,
        head: int,
        iq: int,
    )
        requires
            self.computable(scale, seq![req], mem.len()),
            self.tensors_apart::<T>(req),
            0 <= head < self.h,
            0 <= iq < req.n(),
        ensures
            ({
                let tile = self.tile_ctx as int;
                let kv = self.kv_of(head);
                let b = self.one_block(scale, req, head);
                let f = self.filled(scale, seq![req], mem);
                let m = self.batch_view(scale, seq![req]).masks;
                &&& self.row_of(req, Row::Output(head, iq), self.computed(scale, seq![req], mem))
                    == b.row(f, m, iq)
                &&& b.query(f, iq) == self.row_of(req, Row::Query(head, iq), mem)
                &&& b.cfg.scale == scale
                &&& b.cfg.d == self.d
                &&& b.cfg.bs == self.tile_ctx
                &&& 0 < tile
                &&& 0 <= kv < self.kvh
                &&& b.page_count() == req.page_count(tile)
                &&& req.s() <= b.page_count() * tile < req.s() + tile
                &&& forall|j: int, i: int|
                    0 <= j < b.page_count() && 0 <= i < tile ==> #[trigger] b.keys(f, j)[i]
                        == self.key_after(req, mem, kv, j * tile + i)
                &&& forall|j: int, i: int|
                    0 <= j < b.page_count() && 0 <= i < tile ==> #[trigger] b.vals(f, j)[i]
                        == self.val_after(req, mem, kv, j * tile + i)
                &&& forall|j: int, i: int|
                    0 <= j < b.page_count() && 0 <= i < tile ==> (#[trigger] b.mask(m, iq, j)[i]
                        <==> j * tile + i <= req.pos + iq)
            }),
    {
        let tile = self.tile_ctx as int;
        let reqs = seq![req];
        let kv = self.kv_of(head);
        let id = (0usize, head as usize);
        let b = self.one_block(scale, req, head);
        let f = self.filled(scale, reqs, mem);
        let m = self.batch_view(scale, reqs).masks;
        assert(reqs[0].ok(tile));
        heads_share_evenly(self.h as int, self.kvh as int, head);
        self.lemma_one_block(scale, req, head);
        self.apart_is_in_order(scale, req, mem.len(), head, iq);
        assert(masks_spec(reqs, tile, 0) =~= Seq::empty());
        assert(masks_spec(reqs, tile, 1) =~= req.mask(tile));
        self.each_row_sees_the_grown_cache(scale, reqs, mem, id, iq);
        self.block_mask_is_causal(scale, reqs, id, iq);
        pages_hold_sequence(req, tile);
        assert forall|j: int, i: int| 0 <= j < b.page_count() && 0 <= i < tile implies {
            &&& #[trigger] b.keys(f, j)[i] == self.key_after(req, mem, kv, j * tile + i)
            &&& b.vals(f, j)[i] == self.val_after(req, mem, kv, j * tile + i)
            &&& (b.mask(m, iq, j)[i] <==> j * tile + i <= req.pos + iq)
        } by {
            let p = j * tile + i;
            b.lemma_page_place(f, m, iq, j, i);
            self.lemma_place::<T, T>(scale, req, head, kv, p);
            self.lemma_filled_place(scale, req, mem, kv, p);
            assert(b.all_mask(m, iq)[p] <==> p <= req.pos + iq);
        }
        assert forall|j: int, i: int|
            0 <= j < b.page_count() && 0 <= i < tile implies #[trigger] b.vals(f, j)[i]
            == self.val_after(req, mem, kv, j * tile + i) by {
            assert(b.keys(f, j)[i] == self.key_after(req, mem, kv, j * tile + i));
        }
        assert forall|j: int, i: int|
            0 <= j < b.page_count() && 0 <= i < tile implies (#[trigger] b.mask(m, iq, j)[i]
            <==> j * tile + i <= req.pos + iq) by {
            assert(b.keys(f, j)[i] == self.key_after(req, mem, kv, j * tile + i));
        }
    }

    /// The scores that query row `iq` of head `head` sees are finite.
    pub open spec fn scores_fin<T: Scalar>(
        self,
        fin: spec_fn(T) -> bool,
        scale: T,
        req: Attention,
        mem: Seq<T>,
        head: int,
        iq: int,
    ) -> bool {
        forall|p: int|
            0 <= p <= req.pos + iq ==> fin(
                times(
                    dot(
                        self.row_of(req, Row::Query(head, iq), mem),
                        #[trigger] self.key_after(req, mem, self.kv_of(head), p),
                    ),
                    scale,
                ),
            )
    }

    /// The values that query row `iq` of head `head` does not see are finite once
    /// the new rows are in the cache.
    pub open spec fn unseen_fin<T>(
        self,
        fin: spec_fn(T) -> bool,
        req: Attention,
        mem: Seq<T>,
        head: int,
        iq: int,
    ) -> bool {
        forall|p: int, e: int|
            req.pos + iq < p < req.page_count(self.tile_ctx as int) * self.tile_ctx && 0 <= e
                < self.d ==> fin(#[trigger] self.val_after(req, mem, self.kv_of(head), p)[e])
    }

    /// Two query rows at the same place of their sequences, which see the same,
    /// get the same output as far as `same` tells. If the first has more pages to
    /// go through, it sees nothing of those that the other lacks.
    proof fn lemma_rows_alike<T: Scalar>(
        self,
        fin: spec_fn(T) -> bool,
        same: spec_fn(T, T) -> bool,
        pos: spec_fn(T) -> bool,
        scale: T,
        ra: Attention,
        a: Seq<T>,
        ia: int,
        rb: Attention,
        b: Seq<T>,
        ib: int,
        head: int,
    )
        requires
            vanishing(fin, same),
            grounded(fin),
            self.computable(scale, seq![ra], a.len()),
            self.computable(scale, seq![rb], b.len()),
            self.tensors_apart::<T>(ra),
            self.tensors_apart::<T>(rb),
            0 <= head < self.h,
            0 <= ia < ra.n(),
            0 <= ib < rb.n(),
            ra.pos + ia == rb.pos + ib,
            rb.s() == ra.s() || (rb.s() <= ra.s() && resting(fin, same, pos)),
            self.row_of(ra, Row::Query(head, ia), a) == self.row_of(rb, Row::Query(head, ib), b),
            forall|p: int|
                0 <= p <= ra.pos + ia ==> #[trigger] self.key_after(ra, a, self.kv_of(head), p)
                    == self.key_after(rb, b, self.kv_of(head), p),
            forall|p: int|
                0 <= p <= ra.pos + ia ==> #[trigger] self.val_after(ra, a, self.kv_of(head), p)
                    == self.val_after(rb, b, self.kv_of(head), p),
            self.scores_fin(fin, scale, ra, a, head, ia),
            self.unseen_fin(fin, ra, a, head, ia),
            self.unseen_fin(fin, rb, b, head, ib),
        ensures
            all_same(
                same,
                self.row_of(ra, Row::Output(head, ia), self.computed(scale, seq![ra], a)),
                self.row_of(rb, Row::Output(head, ib), self.computed(scale, seq![rb], b)),
            ),
    {
        let tile = self.tile_ctx as int;
        let kv = self.kv_of(head);
        let last = ra.pos + ia;
        let x = self.one_block(scale, ra, head);
        let y = self.one_block(scale, rb, head);
        let fa = self.filled(scale, seq![ra], a);
        let fb = self.filled(scale, seq![rb], b);
        let ma = self.batch_view(scale, seq![ra]).masks;
        let mb = self.batch_view(scale, seq![rb]).masks;
        self.lemma_request_run(scale, ra, a, head, ia);
        self.lemma_request_run(scale, rb, b, head, ib);
        let na = x.page_count();
        let n = y.page_count();
        assert(0 < n <= na) by (nonlinear_arith)
            requires
                tile > 0,
                0 < rb.s() <= n * tile,
                n * tile < rb.s() + tile,
                rb.s() <= ra.s(),
                ra.s() <= na * tile,
        ;
        // where the rows see something, they see the same
        assert forall|j: int| 0 <= j < n implies #[trigger] x.mask(ma, ia, j) == y.mask(
            mb,
            ib,
            j,
        ) by {
            assert(x.mask(ma, ia, j) =~= y.mask(mb, ib, j));
        }
        assert forall|j: int, i: int|
            0 <= j < n && 0 <= i < x.bs() && x.mask(ma, ia, j)[i] implies #[trigger] x.keys(
            fa,
            j,
        )[i] == y.keys(fb, j)[i] by {
            let p = j * tile + i;
            crate::attention::online::lemma_row_fits(j, na, tile);
            if j < n {
                crate::attention::online::lemma_row_fits(j, n, tile);
            }
            assert(self.key_after(ra, a, kv, p) == self.key_after(rb, b, kv, p));
        }
        assert forall|j: int, i: int|
            0 <= j < n && 0 <= i < x.bs() && x.mask(ma, ia, j)[i] implies #[trigger] x.vals(
            fa,
            j,
        )[i] == y.vals(fb, j)[i] by {
            let p = j * tile + i;
            crate::attention::online::lemma_row_fits(j, na, tile);
            if j < n {
                crate::attention::online::lemma_row_fits(j, n, tile);
            }
            assert(self.val_after(ra, a, kv, p) == self.val_after(rb, b, kv, p));
        }
        assert forall|j: int, i: int, e: int|
            0 <= j < na && 0 <= i < x.bs() && !x.mask(ma, ia, j)[i] && 0 <= e < x.d()
                implies fin(#[trigger] x.vals(fa, j)[i][e]) by {
            let p = j * tile + i;
            crate::attention::online::lemma_row_fits(j, na, tile);
            if j < n {
                crate::attention::online::lemma_row_fits(j, n, tile);
            }
            assert(fin(self.val_after(ra, a, kv, p)[e]));
        }
        assert forall|j: int, i: int, e: int|
            0 <= j < n && 0 <= i < x.bs() && !x.mask(ma, ia, j)[i] && 0 <= e < x.d()
                implies fin(#[trigger] y.vals(fb, j)[i][e]) by {
            let p = j * tile + i;
            crate::attention::online::lemma_row_fits(j, na, tile);
            if j < n {
                crate::attention::online::lemma_row_fits(j, n, tile);
            }
            assert(x.mask(ma, ia, j)[i] <==> p <= last);
            assert(fin(self.val_after(rb, b, kv, p)[e]));
        }
        assert(x.sees_as(fin, fa, ma, ia, y, fb, mb, ib, n));
        assert(0 * tile == 0);
        assert(x.mask(ma, ia, 0)[0]);
        assert forall|j: int, i: int|
            0 <= j < na && 0 <= i < x.bs() && x.mask(ma, ia, j)[i] implies fin(
            #[trigger] x.score(fa, ia, j, i),
        ) by {
            let p = j * tile + i;
            crate::attention::online::lemma_row_fits(j, na, tile);
            if j < n {
                crate::attention::online::lemma_row_fits(j, n, tile);
            }
            assert(x.keys(fa, j)[i] == self.key_after(ra, a, kv, p));
        }
        x.finite_scores_lead(fin, fa, ma, ia);
        x.lemma_states_alike(fin, same, fa, ma, ia, y, fb, mb, ib, n as nat);
        let sa = x.state(fa, ma, ia, na as nat);
        let sn = x.state(fa, ma, ia, n as nat);
        let sb = y.state(fb, mb, ib, n as nat);
        if n < na {
            assert(resting(fin, same, pos));
            assert forall|j: int, i: int|
                n <= j < na && 0 <= i < x.bs() implies !#[trigger] x.mask(ma, ia, j)[i] by {
                assert(n * tile <= j * tile) by (nonlinear_arith)
                    requires
                        n <= j,
                        tile > 0,
                ;
            }
            assert forall|j: int, i: int, e: int|
                n <= j < na && 0 <= i < x.bs() && 0 <= e < x.d() implies fin(
                #[trigger] x.vals(fa, j)[i][e],
            ) by {
                assert(!x.mask(ma, ia, j)[i]);
            }
            x.lemma_masked_pages(fin, same, pos, fa, ma, ia, n as nat, na as nat);
            assert forall|i: int| 0 <= i < sa.acc.len() implies same(
                #[trigger] sa.acc[i],
                #[trigger] sb.acc[i],
            ) by {
                assert(same(sa.acc[i], sn.acc[i]));
                assert(same(sn.acc[i], sb.acc[i]));
            }
        }
        assert(alike(same, sa, sb));
        lemma_output_alike(same, sa, sb);
    }

    /// A row's output never depends on later rows, as far as `same` tells: two runs
    /// of a request whose tensors do not overlap give the same output row `iq`
    /// below `t`, if they agree on that query row, on the rows below `t` of the
    /// new keys and values, and on the cache rows filled before. The scores that
    /// the row sees have to be finite, and so have the values that it does not
    /// see. Arithmetic may round.
    pub proof fn earlier_rows_are_alike<T: Scalar>(
        self,
        fin: spec_fn(T) -> bool,
        same: spec_fn(T, T) -> bool,
        scale: T,
        req: Attention,
        a: Seq<T>,
        b: Seq<T>,
        t: int,
        head: int,
        iq: int,
    )
        requires
            vanishing(fin, same),
            grounded(fin),
            a.len() == b.len(),
            self.computable(scale, seq![req], a.len()),
            self.tensors_apart::<T>(req),
            0 <= head < self.h,
            0 <= iq < t <= req.n(),
            self.row_of(req, Row::Query(head, iq), a) == self.row_of(req, Row::Query(head, iq), b),
            forall|i: int|
                0 <= i < t ==> #[trigger] self.row_of(req, Row::NewKey(self.kv_of(head), i), a)
                    == self.row_of(req, Row::NewKey(self.kv_of(head), i), b),
            forall|i: int|
                0 <= i < t ==> #[trigger] self.row_of(req, Row::NewVal(self.kv_of(head), i), a)
                    == self.row_of(req, Row::NewVal(self.kv_of(head), i), b),
            forall|p: int|
                0 <= p < req.pos ==> #[trigger] self.row_of(req, Row::Key(self.kv_of(head), p), a)
                    == self.row_of(req, Row::Key(self.kv_of(head), p), b),
            forall|p: int|
                0 <= p < req.pos ==> #[trigger] self.row_of(req, Row::Val(self.kv_of(head), p), a)
                    == self.row_of(req, Row::Val(self.kv_of(head), p), b),
            self.scores_fin(fin, scale, req, a, head, iq),
            self.unseen_fin(fin, req, a, head, iq),
            self.unseen_fin(fin, req, b, head, iq),
        ensures
            all_same(
                same,
                self.row_of(req, Row::Output(head, iq), self.computed(scale, seq![req], a)),
                self.row_of(req, Row::Output(head, iq), self.computed(scale, seq![req], b)),
            ),
    {
        let kv = self.kv_of(head);
        assert forall|p: int| 0 <= p <= req.pos + iq implies #[trigger] self.key_after(req, a, kv, p)
            == self.key_after(req, b, kv, p) by {
            if p < req.pos {
                assert(self.row_of(req, Row::Key(kv, p), a) == self.row_of(req, Row::Key(kv, p), b));
            } else {
                let i = p - req.pos;
                assert(self.row_of(req, Row::NewKey(kv, i), a) == self.row_of(
                    req,
                    Row::NewKey(kv, i),
                    b,
                ));
            }
        }
        assert forall|p: int| 0 <= p <= req.pos + iq implies #[trigger] self.val_after(req, a, kv, p)
            == self.val_after(req, b, kv, p) by {
            if p < req.pos {
                assert(self.row_of(req, Row::Val(kv, p), a) == self.row_of(req, Row::Val(kv, p), b));
            } else {
                let i = p - req.pos;
                assert(self.row_of(req, Row::NewVal(kv, i), a) == self.row_of(
                    req,
                    Row::NewVal(kv, i),
                    b,
                ));
            }
        }
        self.lemma_rows_alike(fin, same, |x: T| true, scale, req, a, iq, req, b, iq, head);
    }

    /// The same where masked terms vanish: the output rows below `t` are equal.
    pub proof fn earlier_rows_are_equal<T: Scalar>(
        self,
        fin: spec_fn(T) -> bool,
        scale: T,
        req: Attention,
        a: Seq<T>,
        b: Seq<T>,
        t: int,
        head: int,
        iq: int,
    )
        requires
            masks_vanish(fin),
            a.len() == b.len(),
            self.computable(scale, seq![req], a.len()),
            self.tensors_apart::<T>(req),
            0 <= head < self.h,
            0 <= iq < t <= req.n(),
            self.row_of(req, Row::Query(head, iq), a) == self.row_of(req, Row::Query(head, iq), b),
            forall|i: int|
                0 <= i < t ==> #[trigger] self.row_of(req, Row::NewKey(self.kv_of(head), i), a)
                    == self.row_of(req, Row::NewKey(self.kv_of(head), i), b),
            forall|i: int|
                0 <= i < t ==> #[trigger] self.row_of(req, Row::NewVal(self.kv_of(head), i), a)
                    == self.row_of(req, Row::NewVal(self.kv_of(head), i), b),
            forall|p: int|
                0 <= p < req.pos ==> #[trigger] self.row_of(req, Row::Key(self.kv_of(head), p), a)
                    == self.row_of(req, Row::Key(self.kv_of(head), p), b),
            forall|p: int|
                0 <= p < req.pos ==> #[trigger] self.row_of(req, Row::Val(self.kv_of(head), p), a)
                    == self.row_of(req, Row::Val(self.kv_of(head), p), b),
            self.scores_fin(fin, scale, req, a, head, iq),
            self.unseen_fin(fin, req, a, head, iq),
            self.unseen_fin(fin, req, b, head, iq),
        ensures
            self.row_of(req, Row::Output(head, iq), self.computed(scale, seq![req], a))
                == self.row_of(req, Row::Output(head, iq), self.computed(scale, seq![req], b)),
    {
        lemma_masks_vanish(fin);
        self.earlier_rows_are_alike(fin, equal(), scale, req, a, b, t, head, iq);
        lemma_all_equal(
            self.row_of(req, Row::Output(head, iq), self.computed(scale, seq![req], a)),
            self.row_of(req, Row::Output(head, iq), self.computed(scale, seq![req], b)),
        );
    }

    /// Output row `iq` of a sequence that is taken in two calls.
    pub open spec fn two_calls_row<T: Scalar>(
        self,
        scale: T,
        first: Attention,
        b: Seq<T>,
        second: Attention,
        c: Seq<T>,
        head: int,
        iq: int,
    ) -> Seq<T> {
        if iq < first.n() {
            self.row_of(first, Row::Output(head, iq), self.computed(scale, seq![first], b))
        } else {
            self.row_of(
                second,
                Row::Output(head, iq - first.n()),
                self.computed(scale, seq![second], c),
            )
        }
    }

    /// A sequence taken in two calls gets the same output rows as in one, as far
    /// as `same` tells. The calls need not share tensors, and arithmetic may
    /// round. The scores that a row sees have to be finite, and so have the values
    /// that it does not see.
    pub proof fn two_calls_are_alike<T: Scalar>(
        self,
        fin: spec_fn(T) -> bool,
        same: spec_fn(T, T) -> bool,
        pos: spec_fn(T) -> bool,
        scale: T,
        whole: Attention,
        a: Seq<T>,
        first: Attention,
        b: Seq<T>,
        second: Attention,
        c: Seq<T>,
        head: int,
        iq: int,
    )
        requires
            vanishing(fin, same),
            grounded(fin),
            resting(fin, same, pos),
            self.in_two(scale, whole, a, first, b, second, c),
            self.computable(scale, seq![whole], a.len()),
            self.computable(scale, seq![first], b.len()),
            self.computable(scale, seq![second], c.len()),
            self.tensors_apart::<T>(whole),
            self.tensors_apart::<T>(first),
            self.tensors_apart::<T>(second),
            0 <= head < self.h,
            0 <= iq < whole.n(),
            self.scores_fin(fin, scale, whole, a, head, iq),
            self.unseen_fin(fin, whole, a, head, iq),
            iq < first.n() ==> self.unseen_fin(fin, first, b, head, iq),
            iq >= first.n() ==> self.unseen_fin(fin, second, c, head, iq - first.n()),
        ensures
            all_same(
                same,
                self.row_of(whole, Row::Output(head, iq), self.computed(scale, seq![whole], a)),
                self.two_calls_row(scale, first, b, second, c, head, iq),
            ),
    {
        let kv = self.kv_of(head);
        let n1 = first.n();
        heads_share_evenly(self.h as int, self.kvh as int, head);
        assert forall|p: int| 0 <= p <= whole.pos + iq implies {
            &&& #[trigger] self.key_after(whole, a, kv, p) == self.key_after(second, c, kv, p)
            &&& self.val_after(whole, a, kv, p) == self.val_after(second, c, kv, p)
            &&& iq < n1 ==> self.key_after(whole, a, kv, p) == self.key_after(first, b, kv, p)
            &&& iq < n1 ==> self.val_after(whole, a, kv, p) == self.val_after(first, b, kv, p)
        } by {
            self.lemma_in_two(scale, whole, a, first, b, second, c, kv, p);
        }
        assert forall|p: int| 0 <= p <= whole.pos + iq implies {
            &&& #[trigger] self.val_after(whole, a, kv, p) == self.val_after(second, c, kv, p)
            &&& iq < n1 ==> self.val_after(whole, a, kv, p) == self.val_after(first, b, kv, p)
        } by {
            assert(self.key_after(whole, a, kv, p) == self.key_after(second, c, kv, p));
        }
        if iq < n1 {
            assert(self.row_of(first, Row::Query(head, iq), b) == self.row_of(
                whole,
                Row::Query(head, iq),
                a,
            ));
            self.lemma_rows_alike(fin, same, pos, scale, whole, a, iq, first, b, iq, head);
        } else {
            let i = iq - n1;
            assert(self.row_of(second, Row::Query(head, i), c) == self.row_of(
                whole,
                Row::Query(head, n1 + i),
                a,
            ));
            self.lemma_rows_alike(fin, same, pos, scale, whole, a, iq, second, c, i, head);
        }
    }

    /// The same where masked pages vanish: the output rows are equal.
    pub proof fn two_calls_are_equal<T: Scalar>(
        self,
        fin: spec_fn(T) -> bool,
        scale: T,
        whole: Attention,
        a: Seq<T>,
        first: Attention,
        b: Seq<T>,
        second: Attention,
        c: Seq<T>,
        head: int,
        iq: int,
    )
        requires
            pages_vanish(fin),
            self.in_two(scale, whole, a, first, b, second, c),
            self.computable(scale, seq![whole], a.len()),
            self.computable(scale, seq![first], b.len()),
            self.computable(scale, seq![second], c.len()),
            self.tensors_apart::<T>(whole),
            self.tensors_apart::<T>(first),
            self.tensors_apart::<T>(second),
            0 <= head < self.h,
            0 <= iq < whole.n(),
            self.scores_fin(fin, scale, whole, a, head, iq),
            self.unseen_fin(fin, whole, a, head, iq),
            iq < first.n() ==> self.unseen_fin(fin, first, b, head, iq),
            iq >= first.n() ==> self.unseen_fin(fin, second, c, head, iq - first.n()),
        ensures
            self.row_of(whole, Row::Output(head, iq), self.computed(scale, seq![whole], a))
                == self.two_calls_row(scale, first, b, second, c, head, iq),
    {
        lemma_pages_vanish(fin);
        self.two_calls_are_alike(
            fin,
            equal(),
            |x: T| true,
            scale,
            whole,
            a,
            first,
            b,
            second,
            c,
            head,
            iq,
        );
        lemma_all_equal(
            self.row_of(whole, Row::Output(head, iq), self.computed(scale, seq![whole], a)),
            self.two_calls_row(scale, first, b, second, c, head, iq),
        );
    }

    /// An output row after both parts is that of the whole.
    proof fn lemma_parts_output<T: Scalar>(
        self,
        fin: spec_fn(T) -> bool,
        same: spec_fn(T, T) -> bool,
        pos: spec_fn(T) -> bool,
        scale: T,
        whole: Attention,
        first: Attention,
        second: Attention,
        mem: Seq<T>,
        head: int,
        iq: int,
    )
        requires
            vanishing(fin, same),
            grounded(fin),
            resting(fin, same, pos),
            first.part_of(whole, 0),
            second.part_of(whole, first.n()),
            first.n() + second.n() == whole.n(),
            self.rows_match::<T>(whole, first, 0),
            self.rows_match::<T>(whole, second, first.n()),
            self.computable(scale, seq![whole], mem.len()),
            self.computable(scale, seq![first], mem.len()),
            self.computable(scale, seq![second], mem.len()),
            self.tensors_apart::<T>(whole),
            forall|head: int, iq: int|
                0 <= head < self.h && 0 <= iq < whole.n() ==> #[trigger] self.scores_fin(
                    fin,
                    scale,
                    whole,
                    mem,
                    head,
                    iq,
                ),
            forall|head: int, iq: int|
                0 <= head < self.h && 0 <= iq < whole.n() ==> #[trigger] self.unseen_fin(
                    fin,
                    whole,
                    mem,
                    head,
                    iq,
                ),
            forall|head: int, iq: int|
                0 <= head < self.h && 0 <= iq < first.n() ==> #[trigger] self.unseen_fin(
                    fin,
                    first,
                    mem,
                    head,
                    iq,
                ),
            0 <= head < self.h,
            0 <= iq < whole.n(),
        ensures
            all_same(
                same,
                self.row_of(whole, Row::Output(head, iq), self.computed(scale, seq![whole], mem)),
                self.row_of(
                    whole,
                    Row::Output(head, iq),
                    self.computed(scale, seq![second], self.computed(scale, seq![first], mem)),
                ),
            ),
    {
        let tile = self.tile_ctx as int;
        let kv = self.kv_of(head);
        let n1 = first.n();
        let len = mem.len();
        let mem1 = self.computed(scale, seq![first], mem);
        assert(seq![whole][0].ok(tile));
        assert(seq![first][0].ok(tile));
        assert(seq![second][0].ok(tile));
        assert(second.s() == whole.s());
        self.lemma_lengths(scale, first, mem);
        heads_share_evenly(self.h as int, self.kvh as int, head);
        pages_hold_sequence(whole, tile);
        assert(self.scores_fin(fin, scale, whole, mem, head, iq));
        assert(self.unseen_fin(fin, whole, mem, head, iq));
        if iq < n1 {
            assert(self.unseen_fin(fin, first, mem, head, iq));
            self.lemma_part_apart::<T>(whole, first, 0);
            self.lemma_part_row::<T>(whole, first, 0, Row::Output(head, iq));
            self.lemma_part_row::<T>(whole, first, 0, Row::Query(head, iq));
            assert forall|p: int|
                0 <= p <= whole.pos + iq implies #[trigger] self.key_after(whole, mem, kv, p)
                == self.key_after(first, mem, kv, p) by {
                self.lemma_first_finds(whole, first, mem, kv, p);
            }
            assert forall|p: int|
                0 <= p <= whole.pos + iq implies #[trigger] self.val_after(whole, mem, kv, p)
                == self.val_after(first, mem, kv, p) by {
                self.lemma_first_finds(whole, first, mem, kv, p);
            }
            self.lemma_rows_alike(fin, same, pos, scale, whole, mem, iq, first, mem, iq, head);
            self.lemma_row_inside(scale, whole, len, Row::Output(head, iq));
            self.lemma_part_leaves(scale, whole, second, n1, mem1, Row::Output(head, iq));
        } else {
            let i = iq - n1;
            self.lemma_part_apart::<T>(whole, second, n1);
            self.lemma_part_row::<T>(whole, second, n1, Row::Output(head, i));
            self.lemma_part_row::<T>(whole, second, n1, Row::Query(head, i));
            self.lemma_row_inside(scale, whole, len, Row::Query(head, iq));
            self.lemma_part_leaves(scale, whole, first, 0, mem, Row::Query(head, iq));
            assert forall|p: int|
                0 <= p < whole.page_count(tile) * tile implies #[trigger] self.key_after(
                whole,
                mem,
                kv,
                p,
            ) == self.key_after(second, mem1, kv, p) by {
                self.lemma_second_finds(scale, whole, first, second, mem, kv, p);
            }
            assert forall|p: int|
                0 <= p < whole.page_count(tile) * tile implies #[trigger] self.val_after(
                whole,
                mem,
                kv,
                p,
            ) == self.val_after(second, mem1, kv, p) by {
                self.lemma_second_finds(scale, whole, first, second, mem, kv, p);
            }
            assert(self.unseen_fin(fin, second, mem1, head, i)) by {
                assert forall|p: int, e: int|
                    second.pos + i < p < second.page_count(tile) * tile && 0 <= e < self.d
                        implies fin(#[trigger] self.val_after(second, mem1, kv, p)[e]) by {
                    assert(self.val_after(whole, mem, kv, p) == self.val_after(second, mem1, kv, p));
                    assert(fin(self.val_after(whole, mem, kv, p)[e]));
                }
            }
            self.lemma_rows_alike(fin, same, pos, scale, whole, mem, iq, second, mem1, i, head);
        }
    }

    /// Computing in two parts is computing at once, as far as `same` tells: a
    /// request whose tensors do not overlap leaves the same memory, cache and
    /// output included, whether its rows are computed at once, or some first and
    /// the others after them. The scores that a row sees have to be finite, and so
    /// have the values that it does not see. Arithmetic may round.
    pub proof fn parts_are_alike<T: Scalar>(
        self,
        fin: spec_fn(T) -> bool,
        same: spec_fn(T, T) -> bool,
        pos: spec_fn(T) -> bool,
        scale: T,
        whole: Attention,
        first: Attention,
        second: Attention,
        mem: Seq<T>,
    )
        requires
            vanishing(fin, same),
            grounded(fin),
            resting(fin, same, pos),
            first.part_of(whole, 0),
            second.part_of(whole, first.n()),
            first.n() + second.n() == whole.n(),
            mem.len() <= usize::MAX,
            self.computable(scale, seq![whole], mem.len()),
            self.computable(scale, seq![first], mem.len()),
            self.computable(scale, seq![second], mem.len()),
            self.tensors_apart::<T>(whole),
            forall|head: int, iq: int|
                0 <= head < self.h && 0 <= iq < whole.n() ==> #[trigger] self.scores_fin(
                    fin,
                    scale,
                    whole,
                    mem,
                    head,
                    iq,
                ),
            forall|head: int, iq: int|
                0 <= head < self.h && 0 <= iq < whole.n() ==> #[trigger] self.unseen_fin(
                    fin,
                    whole,
                    mem,
                    head,
                    iq,
                ),
            forall|head: int, iq: int|
                0 <= head < self.h && 0 <= iq < first.n() ==> #[trigger] self.unseen_fin(
                    fin,
                    first,
                    mem,
                    head,
                    iq,
                ),
        ensures
            all_same(
                same,
                self.computed(scale, seq![whole], mem),
                self.computed(scale, seq![second], self.computed(scale, seq![first], mem)),
            ),
    {
        self.lemma_rows_match(scale, whole, first, 0, mem.len());
        self.lemma_rows_match(scale, whole, second, first.n(), mem.len());
        let tile = self.tile_ctx as int;
        let d = self.d as nat;
        let n1 = first.n();
        let mem1 = self.computed(scale, seq![first], mem);
        let parts = self.computed(scale, seq![second], mem1);
        let at_once = self.computed(scale, seq![whole], mem);
        assert(seq![whole][0].ok(tile));
        assert(seq![first][0].ok(tile));
        assert(seq![second][0].ok(tile));
        self.lemma_lengths(scale, whole, mem);
        self.lemma_lengths(scale, first, mem);
        self.lemma_lengths(scale, second, mem1);
        assert forall|t: int| 0 <= t < at_once.len() implies same(
            #[trigger] at_once[t],
            #[trigger] parts[t],
        ) by {
            assert(same(at_once[t], at_once[t]));
            if self.touched::<T>(whole, t) {
                let r = choose|r: Row| #[trigger]
                    self.in_row::<T>(whole, r, t) && self.row_written(whole, r);
                let at = self.row_pos::<T>(whole, r);
                match r {
                    Row::Output(head, iq) => {
                        self.lemma_parts_output(
                            fin,
                            same,
                            pos,
                            scale,
                            whole,
                            first,
                            second,
                            mem,
                            head,
                            iq,
                        );
                    },
                    Row::Key(head, p) => {
                        self.lemma_parts_place(scale, whole, first, second, mem, head, p);
                    },
                    Row::Val(head, p) => {
                        self.lemma_parts_place(scale, whole, first, second, mem, head, p);
                    },
                    _ => {},
                }
                assert(same(read(at_once, at, d)[t - at], read(parts, at, d)[t - at])) by {
                    assert(same(read(at_once, at, d)[t - at], read(at_once, at, d)[t - at]));
                }
            } else {
                if self.touched::<T>(first, t) {
                    self.lemma_part_touched::<T>(whole, first, 0, t);
                }
                if self.touched::<T>(second, t) {
                    self.lemma_part_touched::<T>(whole, second, n1, t);
                }
                self.request_leaves_rest(scale, whole, mem, t);
                self.request_leaves_rest(scale, first, mem, t);
                self.request_leaves_rest(scale, second, mem1, t);
            }
        }
    }

    /// The same where masked pages vanish: the memories are equal.
    pub proof fn parts_are_equal<T: Scalar>(
        self,
        fin: spec_fn(T) -> bool,
        scale: T,
        whole: Attention,
        first: Attention,
        second: Attention,
        mem: Seq<T>,
    )
        requires
            pages_vanish(fin),
            first.part_of(whole, 0),
            second.part_of(whole, first.n()),
            first.n() + second.n() == whole.n(),
            mem.len() <= usize::MAX,
            self.computable(scale, seq![whole], mem.len()),
            self.computable(scale, seq![first], mem.len()),
            self.computable(scale, seq![second], mem.len()),
            self.tensors_apart::<T>(whole),
            forall|head: int, iq: int|
                0 <= head < self.h && 0 <= iq < whole.n() ==> #[trigger] self.scores_fin(
                    fin,
                    scale,
                    whole,
                    mem,
                    head,
                    iq,
                ),
            forall|head: int, iq: int|
                0 <= head < self.h && 0 <= iq < whole.n() ==> #[trigger] self.unseen_fin(
                    fin,
                    whole,
                    mem,
                    head,
                    iq,
                ),
            forall|head: int, iq: int|
                0 <= head < self.h && 0 <= iq < first.n() ==> #[trigger] self.unseen_fin(
                    fin,
                    first,
                    mem,
                    head,
                    iq,
                ),
        ensures
            self.computed(scale, seq![second], self.computed(scale, seq![first], mem))
                == self.computed(scale, seq![whole], mem),
    {
        lemma_pages_vanish(fin);
        self.parts_are_alike(fin, equal(), |x: T| true, scale, whole, first, second, mem);
        lemma_all_equal(
            self.computed(scale, seq![whole], mem),
            self.computed(scale, seq![second], self.computed(scale, seq![first], mem)),
        );
    }
}

} // verus!
