//! How a batch is laid out, and what its causal mask means.
use crate::attention::batch::{
    blocks_spec, causal_mask_spec, masks_spec, page_table_spec, Attention,
};
use crate::attention::driver::lemma_block_id;
use crate::attention::FlashAttnCfg;
use crate::ceil::{ceil_div, lemma_ceil_div};
use crate::laws::exact::{all_fin, drop_unseen, exact, rows_fin, softmax_attention};
use crate::scalar::Scalar;
use vstd::prelude::*;

verus! {

/// A query row looks at its own place and at those before it, and at no other.
/// In particular it looks at the first place, and never at the padding.
pub proof fn mask_is_causal(n: int, s: int, s_ceil: int, row: int, col: int)
    requires
        n <= s,
        0 <= row < n,
        0 <= col < s_ceil,
    ensures
        0 <= row * s_ceil + col < causal_mask_spec(n, s, s_ceil).len(),
        causal_mask_spec(n, s, s_ceil)[row * s_ceil + col] <==> col <= s - n + row,
        col == 0 ==> causal_mask_spec(n, s, s_ceil)[row * s_ceil + col],
        col >= s ==> !causal_mask_spec(n, s, s_ceil)[row * s_ceil + col],
{
    crate::attention::online::lemma_row_fits(row, n, s_ceil);
    vstd::arithmetic::div_mod::lemma_fundamental_div_mod_converse(
        row * s_ceil + col,
        s_ceil,
        row,
        col,
    );
}

/// The pages hold the sequence, the last of them at least in part: the padded
/// length is a number of whole pages, and the least such that the sequence fits.
pub proof fn pages_hold_sequence(req: Attention, tile: int)
    requires
        req.q.shape@.len() >= 2,
        tile > 0,
    ensures
        req.s() <= req.page_count(tile) * tile < req.s() + tile,
        ceil_div(req.page_count(tile) * tile, tile) == req.page_count(tile),
{
    lemma_ceil_div(req.s(), tile);
    let c = req.page_count(tile);
    lemma_ceil_div(c * tile, tile);
    let e = ceil_div(c * tile, tile);
    assert(e == c) by (nonlinear_arith)
        requires
            tile > 0,
            c * tile <= e * tile < c * tile + tile,
    ;
}

/// Each request and each head has one block in the list, and the list holds
/// nothing else.
pub proof fn blocks_are_all_pairs(count: int, heads: int, ireq: usize, head: usize)
    requires
        0 <= count <= usize::MAX,
        0 <= heads <= usize::MAX,
    ensures
        blocks_spec(count, heads).contains((ireq, head)) <==> ireq < count && head < heads,
        blocks_spec(count, heads).no_duplicates(),
{
    let list = blocks_spec(count, heads);
    if list.contains((ireq, head)) {
        let i = choose|i: int| 0 <= i < list.len() && list[i] == (ireq, head);
        assert(count * heads >= 0) by (nonlinear_arith)
            requires
                count >= 0,
                heads >= 0,
        ;
        lemma_block_id(count, heads, i);
    }
    if ireq < count && head < heads {
        let i = ireq * heads + head;
        crate::attention::online::lemma_row_fits(ireq as int, count, heads);
        vstd::arithmetic::div_mod::lemma_fundamental_div_mod_converse(
            i,
            heads,
            ireq as int,
            head as int,
        );
        assert(list[i] == (ireq, head));
    }
    assert forall|i: int, j: int| 0 <= i < list.len() && 0 <= j < list.len() && i != j implies list[i]
        != list[j] by {
        assert(count * heads >= 0) by (nonlinear_arith)
            requires
                count >= 0,
                heads >= 0,
        ;
        lemma_block_id(count, heads, i);
        lemma_block_id(count, heads, j);
        vstd::arithmetic::div_mod::lemma_fundamental_div_mod(i, heads);
        vstd::arithmetic::div_mod::lemma_fundamental_div_mod(j, heads);
    }
}

/// Every query head has a key and value head, and each of these serves as many
/// query heads as any other: those from `kv * g` to `kv * g + g`.
pub proof fn heads_share_evenly(h: int, kvh: int, head: int)
    requires
        kvh > 0,
        h % kvh == 0,
        0 <= head < h,
    ensures
        h / kvh > 0,
        h == (h / kvh) * kvh,
        0 <= head / (h / kvh) < kvh,
        (head / (h / kvh)) * (h / kvh) <= head < (head / (h / kvh)) * (h / kvh) + h / kvh,
{
    vstd::arithmetic::div_mod::lemma_fundamental_div_mod(h, kvh);
    let g = h / kvh;
    assert(g > 0 && h == g * kvh) by (nonlinear_arith)
        requires
            h == kvh * g + 0,
            h > 0,
            kvh > 0,
    ;
    vstd::arithmetic::div_mod::lemma_fundamental_div_mod(head, g);
    let q = head / g;
    assert(0 <= q < kvh && q * g <= head < q * g + g) by (nonlinear_arith)
        requires
            g > 0,
            head == g * q + head % g,
            0 <= head % g < g,
            0 <= head < g * kvh,
    ;
}

/// The masks of the first requests come first.
pub(crate) proof fn lemma_masks_prefix(reqs: Seq<Attention>, tile: int, a: nat, b: nat)
    requires
        a <= b,
    ensures
        masks_spec(reqs, tile, a).len() <= masks_spec(reqs, tile, b).len(),
        forall|p: int|
            0 <= p < masks_spec(reqs, tile, a).len() ==> #[trigger] masks_spec(reqs, tile, b)[p]
                == masks_spec(reqs, tile, a)[p],
    decreases b,
{
    if a < b {
        lemma_masks_prefix(reqs, tile, a, (b - 1) as nat);
    }
}

/// The pages of the first requests come first.
pub(crate) proof fn lemma_pages_prefix(reqs: Seq<Attention>, tile: int, a: nat, b: nat)
    requires
        a <= b,
    ensures
        page_table_spec(reqs, tile, a).len() <= page_table_spec(reqs, tile, b).len(),
        forall|p: int|
            0 <= p < page_table_spec(reqs, tile, a).len() ==> #[trigger] page_table_spec(
                reqs,
                tile,
                b,
            )[p] == page_table_spec(reqs, tile, a)[p],
    decreases b,
{
    if a < b {
        lemma_pages_prefix(reqs, tile, a, (b - 1) as nat);
    }
}

impl FlashAttnCfg {
    /// The first request of a batch works on the pages of its own cache.
    pub proof fn first_request_has_its_pages<S>(
        self,
        scale: S,
        reqs: Seq<Attention>,
        head: usize,
        j: int,
    )
        requires
            reqs.len() > 0,
            0 <= j < reqs[0].page_count(self.tile_ctx as int),
        ensures
            self.batch_view(scale, reqs).block((0, head)).page(j) == reqs[0].cache.page_spec(
                j * self.tile_ctx,
            ),
    {
        let tile = self.tile_ctx as int;
        lemma_pages_prefix(reqs, tile, 1, reqs.len());
        assert(page_table_spec(reqs, tile, 0) =~= Seq::empty());
        assert(page_table_spec(reqs, tile, 1) =~= reqs[0].pages(tile));
        assert(page_table_spec(reqs, tile, reqs.len())[j] == page_table_spec(reqs, tile, 1)[j]);
    }

    /// Each block of a batch finds the mask of its request: query row `iq` looks
    /// at the places up to its own.
    pub proof fn block_mask_is_causal<T: Scalar>(
        self,
        scale: T,
        reqs: Seq<Attention>,
        id: (usize, usize),
        iq: int,
    )
        requires
            id.0 < reqs.len(),
            reqs[id.0 as int].ok(self.tile_ctx as int),
            masks_spec(reqs, self.tile_ctx as int, reqs.len()).len() <= usize::MAX,
            0 <= iq < reqs[id.0 as int].n(),
        ensures
            self.batch_view(scale, reqs).block(id).places() == reqs[id.0 as int].page_count(
                self.tile_ctx as int,
            ) * self.tile_ctx,
            forall|p: int|
                0 <= p < self.batch_view(scale, reqs).block(id).places() ==> (
                #[trigger] self.batch_view(scale, reqs).block(id).all_mask(
                    self.batch_view(scale, reqs).masks,
                    iq,
                )[p] <==> p <= reqs[id.0 as int].pos + iq),
    {
        let tile = self.tile_ctx as int;
        let r = id.0 as int;
        let req = reqs[r];
        let view = self.batch_view(scale, reqs);
        let b = view.block(id);
        let c = req.page_count(tile);
        let s_ceil = c * tile;
        pages_hold_sequence(req, tile);
        lemma_ceil_div(req.s(), tile);
        assert(s_ceil >= 0);
        let start = masks_spec(reqs, tile, r as nat).len() as int;
        lemma_masks_prefix(reqs, tile, r as nat, reqs.len());
        lemma_masks_prefix(reqs, tile, (r + 1) as nat, reqs.len());
        assert(b.req == req.kernel_req(tile, start));
        assert(b.places() == s_ceil);
        assert forall|p: int| 0 <= p < b.places() implies (#[trigger] b.all_mask(view.masks, iq)[p]
            <==> p <= req.pos + iq) by {
            mask_is_causal(req.n(), req.s(), s_ceil, iq, p);
            let i = iq * s_ceil + p;
            assert(masks_spec(reqs, tile, (r + 1) as nat)[start + i] == req.mask(tile)[i]);
            assert(0 * b.bs() == 0) by (nonlinear_arith);
            assert(b.mask_at(iq, 0) == start + iq * s_ceil);
        }
    }

    /// In exact arithmetic, a query row of a batch gets its causal attention: the
    /// softmax attention over the places up to its own, whatever the pages and
    /// whatever lies beyond.
    ///
    /// The places are those in the pages as the request counts them, from the head
    /// of the list: for a request after the first they lie in the first one's
    /// cache, not in its own.
    pub proof fn batch_is_causal_attention<T: Scalar>(
        self,
        fin: spec_fn(T) -> bool,
        scale: T,
        reqs: Seq<Attention>,
        id: (usize, usize),
        mem: Seq<T>,
        iq: int,
    )
        requires
            exact(fin),
            fin(scale),
            id.0 < reqs.len(),
            reqs[id.0 as int].ok(self.tile_ctx as int),
            masks_spec(reqs, self.tile_ctx as int, reqs.len()).len() <= usize::MAX,
            0 <= iq < reqs[id.0 as int].n(),
            all_fin(fin, self.batch_view(scale, reqs).block(id).query(mem, iq)),
            rows_fin(
                fin,
                self.batch_view(scale, reqs).block(id).all_keys(mem).take(
                    reqs[id.0 as int].pos + iq + 1,
                ),
                self.d as nat,
            ),
            rows_fin(fin, self.batch_view(scale, reqs).block(id).all_vals(mem), self.d as nat),
        ensures
            self.batch_view(scale, reqs).block(id).row(
                mem,
                self.batch_view(scale, reqs).masks,
                iq,
            ) == softmax_attention(
                scale,
                self.batch_view(scale, reqs).block(id).query(mem, iq),
                self.batch_view(scale, reqs).block(id).all_keys(mem).take(
                    reqs[id.0 as int].pos + iq + 1,
                ),
                self.batch_view(scale, reqs).block(id).all_vals(mem).take(
                    reqs[id.0 as int].pos + iq + 1,
                ),
                Seq::new((reqs[id.0 as int].pos + iq + 1) as nat, |p: int| true),
            ),
    {
        let tile = self.tile_ctx as int;
        let req = reqs[id.0 as int];
        let view = self.batch_view(scale, reqs);
        let b = view.block(id);
        let seen = req.pos + iq + 1;
        self.block_mask_is_causal(scale, reqs, id, iq);
        pages_hold_sequence(req, tile);
        let am = b.all_mask(view.masks, iq);
        assert(b.mask(view.masks, iq, 0)[0] == am[0]);
        assert(am[0]);
        assert(b.mask(view.masks, iq, 0)[0]);
        assert forall|i: int, j: int|
            0 <= i < b.places() && am[i] && 0 <= j < self.d implies fin(
            #[trigger] b.all_keys(mem)[i][j],
        ) by {
            assert(fin(b.all_keys(mem).take(seen)[i][j]));
        }
        b.paged_is_softmax(fin, mem, view.masks, iq);
        assert(am.take(seen) =~= Seq::new(seen as nat, |p: int| true));
        drop_unseen(
            fin,
            scale,
            b.query(mem, iq),
            b.all_keys(mem),
            b.all_vals(mem),
            am,
            seen as nat,
        );
    }
}

} // verus!
