//! `prepare`, and what it makes of tensors, caches and masks.
use crate::attention::batch::{
    blocks, causal_mask, masks_spec, page_table, page_table_spec, Attention, Batch, TensorView,
};
use crate::attention::driver::lemma_block_id;
use crate::attention::online::lemma_row_fits;
use crate::attention::{FlashAttnCfg, KVPage, Strides2D};
use crate::ceil::lemma_ceil_div;
use crate::laws::batch::{lemma_masks_prefix, lemma_pages_prefix};
use crate::laws::plain::attend::page_number;
use crate::laws::plain::{address, counted, holds, lemma_counted, lemma_row, position};
use vstd::prelude::*;

verus! {

/// The byte address at which the key rows of cache row `row` start. The cache has the
/// axes rows, keys and values, heads, elements.
pub open spec fn key_address(cache: TensorView, row: int) -> int {
    cache.base + cache.offset + counted(row) * cache.strides@[0]
}

/// The byte address at which the value rows of cache row `row` start.
pub open spec fn val_address(cache: TensorView, row: int) -> int {
    cache.base + cache.offset + counted(row) * cache.strides@[0] + cache.strides@[1]
}

/// A page can start at cache row `row`: the cache has that row, keys and values, and
/// their addresses can be reached.
pub open spec fn page_fits(cache: TensorView, row: int) -> bool {
    let step = counted(row) * cache.strides@[0];
    &&& cache.shape@.len() >= 2
    &&& cache.strides@.len() == cache.shape@.len()
    &&& row < cache.shape@[0]
    &&& cache.shape@[1] >= 2
    &&& holds(step)
    &&& holds(cache.offset + step)
    &&& holds(cache.offset + step + cache.strides@[1])
    &&& 0 <= key_address(cache, row) <= usize::MAX
    &&& 0 <= val_address(cache, row) <= usize::MAX
}

/// Query rows of a request.
pub open spec fn rows_of(req: Attention) -> int {
    req.q.shape@[1] as int
}

/// Length of the request's sequence.
pub open spec fn length_of(req: Attention) -> int {
    req.pos + req.q.shape@[1]
}

/// Columns of the request's mask: its sequence, padded to whole pages.
pub open spec fn padded(req: Attention, tile: int) -> int {
    page_number(length_of(req), tile) * tile
}

/// The pages of a request can start where they have to, its sequence can be counted.
pub open spec fn pages_fit(req: Attention, tile: int) -> bool {
    &&& tile > 0
    &&& req.q.shape@.len() >= 2
    &&& length_of(req) <= usize::MAX
    &&& forall|j: int|
        0 <= j < page_number(length_of(req), tile) ==> page_fits(
            req.cache,
            #[trigger] (j * tile),
        )
}

/// The request can be prepared: its pages fit, its tensors have three axes and its
/// cache four, and its mask can be counted.
pub open spec fn request_fits(req: Attention, tile: int) -> bool {
    &&& pages_fit(req, tile)
    &&& req.q.strides@.len() == 3
    &&& req.k.strides@.len() == 3
    &&& req.v.strides@.len() == 3
    &&& req.o.strides@.len() == 3
    &&& req.cache.strides@.len() == 4
    &&& padded(req, tile) <= usize::MAX
    &&& rows_of(req) * padded(req, tile) <= usize::MAX
}

/// Pages of the first `i` requests.
pub open spec fn pages_before(reqs: Seq<Attention>, tile: int, i: int) -> int
    decreases i,
{
    if i <= 0 {
        0
    } else {
        pages_before(reqs, tile, i - 1) + page_number(length_of(reqs[i - 1]), tile)
    }
}

/// Flags of the masks of the first `i` requests.
pub open spec fn flags_before(reqs: Seq<Attention>, tile: int, i: int) -> int
    decreases i,
{
    if i <= 0 {
        0
    } else {
        flags_before(reqs, tile, i - 1) + rows_of(reqs[i - 1]) * padded(reqs[i - 1], tile)
    }
}

/// A page fits where the block says.
pub(crate) proof fn lemma_page_fits(cache: TensorView, row: int)
    requires
        0 <= row <= usize::MAX,
    ensures
        cache.page_ok(row) == page_fits(cache, row),
        page_fits(cache, row) ==> cache.page_spec(row).k == key_address(cache, row)
            && cache.page_spec(row).v == val_address(cache, row),
{
    lemma_counted(row);
    assert(0 * cache.strides@[1] == 0 && 1 * cache.strides@[1] == cache.strides@[1]);
}

/// Pages are counted up.
pub(crate) proof fn lemma_page_number(req: Attention, tile: int)
    requires
        tile > 0,
        req.q.shape@.len() >= 2,
    ensures
        req.n() == rows_of(req),
        req.s() == length_of(req),
        req.page_count(tile) == page_number(length_of(req), tile),
        0 <= page_number(length_of(req), tile),
        length_of(req) <= padded(req, tile) < length_of(req) + tile,
        forall|j: int|
            0 <= j < page_number(length_of(req), tile) ==> 0 <= #[trigger] (j * tile) < length_of(
                req,
            ),
{
    lemma_ceil_div(length_of(req), tile);
    assert forall|j: int| 0 <= j < page_number(length_of(req), tile) implies 0 <= #[trigger] (j
        * tile) < length_of(req) by {
        assert(0 <= j * tile) by (nonlinear_arith)
            requires
                0 <= j,
                tile > 0,
        ;
    }
}

/// What a request needs.
pub(crate) proof fn lemma_request_fits(req: Attention, tile: int)
    ensures
        req.pages_ok(tile) == pages_fit(req, tile),
        req.ok(tile) == request_fits(req, tile),
{
    if tile > 0 && req.q.shape@.len() >= 2 && length_of(req) <= usize::MAX {
        lemma_page_number(req, tile);
        let count = page_number(length_of(req), tile);
        assert forall|j: int| 0 <= j < count implies req.cache.page_ok(#[trigger] (j * tile))
            == page_fits(req.cache, j * tile) by {
            lemma_page_fits(req.cache, j * tile);
        }
    }
}

/// A call of `prepare` makes of request `i`, whichever it is, what the kernels read of
/// it: where its own queries, new keys, new values and output are, their head stride,
/// which is the stride of the first axis, and their row stride, that of the second;
/// the head and row strides of its own cache, those of the third and of the first
/// axis; how many rows it has and how long its sequence is, padded to whole pages; and
/// where its mask is, after those of the requests before it. Pages are counted from
/// the head of the list.
pub proof fn prepared_request_is_its_tensors(
    cfg: &FlashAttnCfg,
    reqs: &[Attention],
    batch: Batch,
    i: int,
)
    requires
        call_ensures(FlashAttnCfg::prepare, (cfg, reqs), batch),
        forall|i: int|
            0 <= i < reqs@.len() ==> request_fits(#[trigger] reqs@[i], cfg.tile_ctx as int),
        0 <= i < reqs@.len(),
    ensures
        ({
            let r = batch.reqs@[i];
            let a = reqs@[i];
            &&& batch.reqs@.len() == reqs@.len()
            &&& r.q == a.q.base
            &&& r.q_strides.head == a.q.strides@[0]
            &&& r.q_strides.seq == a.q.strides@[1]
            &&& r.k == a.k.base
            &&& r.k_strides.head == a.k.strides@[0]
            &&& r.k_strides.seq == a.k.strides@[1]
            &&& r.v == a.v.base
            &&& r.v_strides.head == a.v.strides@[0]
            &&& r.v_strides.seq == a.v.strides@[1]
            &&& r.o == a.o.base
            &&& r.o_strides.head == a.o.strides@[0]
            &&& r.o_strides.seq == a.o.strides@[1]
            &&& r.kv_strides.head == a.cache.strides@[2]
            &&& r.kv_strides.seq == a.cache.strides@[0]
            &&& r.n == rows_of(a)
            &&& r.s == length_of(a)
            &&& r.s_ceil == padded(a, cfg.tile_ctx as int)
            &&& r.s <= r.s_ceil < r.s + cfg.tile_ctx
            &&& r.s_ceil as int % cfg.tile_ctx as int == 0
            &&& r.mask == flags_before(reqs@, cfg.tile_ctx as int, i)
            &&& r.pages_start == 0
        }),
{
    let tile = cfg.tile_ctx as int;
    let count = page_number(length_of(reqs@[i]), tile);
    lemma_request_fits(reqs@[i], tile);
    lemma_page_number(reqs@[i], tile);
    lemma_masks_prefix(reqs@, tile, i as nat, reqs@.len());
    lemma_flags(reqs@, tile, i as nat);
    let total: usize = batch.masks.len();
    assert(masks_spec(reqs@, tile, i as nat).len() <= total);
    assert((count * tile) % tile == 0) by {
        vstd::arithmetic::div_mod::lemma_mod_multiples_basic(count, tile);
    }
}

/// The masks of the first requests are as long as they have to be.
pub(crate) proof fn lemma_flags(reqs: Seq<Attention>, tile: int, i: nat)
    requires
        i <= reqs.len(),
        forall|i: int| 0 <= i < reqs.len() ==> request_fits(#[trigger] reqs[i], tile),
    ensures
        masks_spec(reqs, tile, i).len() == flags_before(reqs, tile, i as int),
    decreases i,
{
    if i > 0 {
        let a = reqs[i - 1];
        lemma_flags(reqs, tile, (i - 1) as nat);
        assert(request_fits(a, tile));
        lemma_page_number(a, tile);
        assert(rows_of(a) * padded(a, tile) >= 0) by (nonlinear_arith)
            requires
                rows_of(a) >= 0,
                padded(a, tile) >= 0,
        ;
    }
}

/// A call of `prepare` gives row `row` of request `i` a mask that lets it look at its
/// own place and at those before it, and at no other.
pub proof fn prepared_mask_is_causal(
    cfg: &FlashAttnCfg,
    reqs: &[Attention],
    batch: Batch,
    i: int,
    row: int,
    p: int,
)
    requires
        call_ensures(FlashAttnCfg::prepare, (cfg, reqs), batch),
        forall|i: int|
            0 <= i < reqs@.len() ==> request_fits(#[trigger] reqs@[i], cfg.tile_ctx as int),
        0 <= i < reqs@.len(),
        0 <= row < rows_of(reqs@[i]),
        0 <= p < padded(reqs@[i], cfg.tile_ctx as int),
    ensures
        ({
            let a = reqs@[i];
            let tile = cfg.tile_ctx as int;
            let at = flags_before(reqs@, tile, i) + row * padded(a, tile) + p;
            &&& batch.masks@.len() == flags_before(reqs@, tile, reqs@.len() as int)
            &&& 0 <= at < batch.masks@.len()
            &&& batch.masks@[at] == (p <= a.pos + row)
        }),
{
    let tile = cfg.tile_ctx as int;
    let a = reqs@[i];
    let w = padded(a, tile);
    lemma_request_fits(a, tile);
    lemma_page_number(a, tile);
    lemma_masks_prefix(reqs@, tile, i as nat, reqs@.len());
    lemma_masks_prefix(reqs@, tile, (i + 1) as nat, reqs@.len());
    lemma_flags(reqs@, tile, i as nat);
    lemma_flags(reqs@, tile, reqs@.len());
    lemma_row_fits(row, rows_of(a), w);
    vstd::arithmetic::div_mod::lemma_fundamental_div_mod_converse(row * w + p, w, row, p);
    let at = flags_before(reqs@, tile, i) + row * w + p;
    assert(masks_spec(reqs@, tile, (i + 1) as nat)[at] == a.mask(tile)[row * w + p]);
}

/// A call of `prepare` lists the pages of one request after those of another. Page
/// `j` of request `i` starts at row `j * tile_ctx` of that request's own cache.
pub proof fn prepared_pages_are_the_caches(
    cfg: &FlashAttnCfg,
    reqs: &[Attention],
    batch: Batch,
    i: int,
    j: int,
)
    requires
        call_ensures(FlashAttnCfg::prepare, (cfg, reqs), batch),
        forall|i: int|
            0 <= i < reqs@.len() ==> request_fits(#[trigger] reqs@[i], cfg.tile_ctx as int),
        0 <= i < reqs@.len(),
        0 <= j < page_number(length_of(reqs@[i]), cfg.tile_ctx as int),
    ensures
        ({
            let tile = cfg.tile_ctx as int;
            let at = pages_before(reqs@, tile, i) + j;
            &&& batch.pages@.len() == pages_before(reqs@, tile, reqs@.len() as int)
            &&& 0 <= at < batch.pages@.len()
            &&& batch.pages@[at].k == key_address(reqs@[i].cache, j * tile)
            &&& batch.pages@[at].v == val_address(reqs@[i].cache, j * tile)
        }),
{
    let tile = cfg.tile_ctx as int;
    assert forall|i: int| 0 <= i < reqs@.len() implies pages_fit(#[trigger] reqs@[i], tile) by {
        assert(request_fits(reqs@[i], tile));
    }
    lemma_page(reqs@, tile, i, j);
}

proof fn lemma_page(reqs: Seq<Attention>, tile: int, i: int, j: int)
    requires
        forall|i: int| 0 <= i < reqs.len() ==> pages_fit(#[trigger] reqs[i], tile),
        0 <= i < reqs.len(),
        0 <= j < page_number(length_of(reqs[i]), tile),
    ensures
        ({
            let at = pages_before(reqs, tile, i) + j;
            let pages = page_table_spec(reqs, tile, reqs.len());
            &&& pages.len() == pages_before(reqs, tile, reqs.len() as int)
            &&& 0 <= at < pages.len()
            &&& pages[at].k == key_address(reqs[i].cache, j * tile)
            &&& pages[at].v == val_address(reqs[i].cache, j * tile)
        }),
{
    let a = reqs[i];
    lemma_request_fits(a, tile);
    assert(pages_fit(a, tile));
    lemma_page_number(a, tile);
    lemma_count(reqs, tile, i as nat);
    lemma_count(reqs, tile, (i + 1) as nat);
    lemma_count(reqs, tile, reqs.len());
    lemma_pages_prefix(reqs, tile, (i + 1) as nat, reqs.len());
    let at = pages_before(reqs, tile, i) + j;
    assert(page_table_spec(reqs, tile, (i + 1) as nat)[at] == a.pages(tile)[j]);
    assert(page_table_spec(reqs, tile, reqs.len())[at] == page_table_spec(
        reqs,
        tile,
        (i + 1) as nat,
    )[at]);
    assert(page_fits(a.cache, j * tile));
    lemma_page_fits(a.cache, j * tile);
}

pub(crate) proof fn lemma_count(reqs: Seq<Attention>, tile: int, i: nat)
    requires
        i <= reqs.len(),
        forall|i: int| 0 <= i < reqs.len() ==> pages_fit(#[trigger] reqs[i], tile),
    ensures
        page_table_spec(reqs, tile, i).len() == pages_before(reqs, tile, i as int),
    decreases i,
{
    if i > 0 {
        lemma_count(reqs, tile, (i - 1) as nat);
        assert(pages_fit(reqs[i - 1], tile));
        lemma_page_number(reqs[i - 1], tile);
    }
}

/// A call of `page_table` lists the pages of one request after those of another, each
/// from that request's own cache.
pub proof fn listed_pages_are_the_caches(
    reqs: &[Attention],
    tile: usize,
    pages: Vec<KVPage>,
    i: int,
    j: int,
)
    requires
        call_ensures(page_table, (reqs, tile), pages),
        forall|i: int| 0 <= i < reqs@.len() ==> pages_fit(#[trigger] reqs@[i], tile as int),
        0 <= i < reqs@.len(),
        0 <= j < page_number(length_of(reqs@[i]), tile as int),
    ensures
        ({
            let at = pages_before(reqs@, tile as int, i) + j;
            &&& pages@.len() == pages_before(reqs@, tile as int, reqs@.len() as int)
            &&& 0 <= at < pages@.len()
            &&& pages@[at].k == key_address(reqs@[i].cache, j * tile)
            &&& pages@[at].v == val_address(reqs@[i].cache, j * tile)
        }),
{
    lemma_page(reqs@, tile as int, i, j);
}

/// A call of `prepare` lists the pages and masks of its requests and no more, and
/// neither does a call of `page_table`.
pub proof fn lists_hold_no_more(
    cfg: &FlashAttnCfg,
    reqs: &[Attention],
    batch: Batch,
    tile: usize,
    pages: Vec<KVPage>,
)
    requires
        forall|i: int|
            0 <= i < reqs@.len() ==> request_fits(#[trigger] reqs@[i], cfg.tile_ctx as int),
        forall|i: int| 0 <= i < reqs@.len() ==> pages_fit(#[trigger] reqs@[i], tile as int),
    ensures
        call_ensures(FlashAttnCfg::prepare, (cfg, reqs), batch) ==> {
            let own = cfg.tile_ctx as int;
            &&& batch.reqs@.len() == reqs@.len()
            &&& batch.pages@.len() == pages_before(reqs@, own, reqs@.len() as int)
            &&& batch.masks@.len() == flags_before(reqs@, own, reqs@.len() as int)
        },
        call_ensures(page_table, (reqs, tile), pages) ==> pages@.len() == pages_before(
            reqs@,
            tile as int,
            reqs@.len() as int,
        ),
{
    let own = cfg.tile_ctx as int;
    assert forall|i: int| 0 <= i < reqs@.len() implies pages_fit(#[trigger] reqs@[i], own) by {
        assert(request_fits(reqs@[i], own));
    }
    lemma_count(reqs@, own, reqs@.len());
    lemma_count(reqs@, tile as int, reqs@.len());
    lemma_flags(reqs@, own, reqs@.len());
}

/// `prepare` can be called on every batch of requests that fit, `page_table` on every
/// one whose pages do.
pub proof fn requests_that_fit_can_be_prepared(
    cfg: &FlashAttnCfg,
    reqs: &[Attention],
    tile: usize,
)
    ensures
        (forall|i: int|
            0 <= i < reqs@.len() ==> request_fits(#[trigger] reqs@[i], cfg.tile_ctx as int))
            ==> call_requires(FlashAttnCfg::prepare, (cfg, reqs)),
        (forall|i: int| 0 <= i < reqs@.len() ==> pages_fit(#[trigger] reqs@[i], tile as int))
            ==> call_requires(page_table, (reqs, tile)),
{
    if forall|i: int|
        0 <= i < reqs@.len() ==> request_fits(#[trigger] reqs@[i], cfg.tile_ctx as int) {
        assert forall|i: int| 0 <= i < reqs@.len() implies #[trigger] reqs@[i].ok(
            cfg.tile_ctx as int,
        ) by {
            lemma_request_fits(reqs@[i], cfg.tile_ctx as int);
        }
    }
    if forall|i: int| 0 <= i < reqs@.len() ==> pages_fit(#[trigger] reqs@[i], tile as int) {
        assert forall|i: int| 0 <= i < reqs@.len() implies #[trigger] reqs@[i].pages_ok(
            tile as int,
        ) by {
            lemma_request_fits(reqs@[i], tile as int);
        }
    }
}

/// A call of `page` gives the addresses at which keys and values of a cache row start,
/// and can be made for every row at which a page can start.
pub proof fn page_is_a_cache_row(cache: &TensorView, row: usize, page: KVPage)
    requires
        page_fits(*cache, row as int),
    ensures
        call_requires(TensorView::page, (cache, row)),
        call_ensures(TensorView::page, (cache, row), page) ==> page.k == key_address(
            *cache,
            row as int,
        ) && page.v == val_address(*cache, row as int),
{
    lemma_page_fits(*cache, row as int);
}

/// The head stride of a tensor of heads and rows is that of its first axis, the row
/// stride that of its second, whatever they are.
pub proof fn strides_are_those_of_the_axes(t: &TensorView, r: Strides2D)
    requires
        t.strides@.len() == 3,
    ensures
        call_requires(TensorView::strides2d, (t,)),
        call_ensures(TensorView::strides2d, (t,), r) ==> r.head == t.strides@[0] && r.seq
            == t.strides@[1],
{
}

/// The head stride of a cache is that of its third axis, the row stride that of its
/// first.
pub proof fn cache_strides_are_those_of_the_axes(t: &TensorView, r: Strides2D)
    requires
        t.strides@.len() == 4,
    ensures
        call_requires(TensorView::cache_strides, (t,)),
        call_ensures(TensorView::cache_strides, (t,), r) ==> r.head == t.strides@[2] && r.seq
            == t.strides@[0],
{
}

/// A call of `causal_mask` gives row `row` of the last `n` of `s` rows a flag for each
/// of `w` columns: set for its own place and those before it.
pub proof fn mask_shows_the_past(
    n: usize,
    s: usize,
    w: usize,
    mask: Vec<bool>,
    row: int,
    p: int,
)
    requires
        n <= s,
        n * w <= usize::MAX,
    ensures
        call_requires(causal_mask, (n, s, w)),
        call_ensures(causal_mask, (n, s, w), mask) ==> mask@.len() == n * w,
        call_ensures(causal_mask, (n, s, w), mask) && 0 <= row < n && 0 <= p < w ==> mask@[row * w
            + p] == (p <= s - n + row),
{
    assert(n * w >= 0) by (nonlinear_arith);
    if 0 <= row < n && 0 <= p < w {
        lemma_row_fits(row, n as int, w as int);
        vstd::arithmetic::div_mod::lemma_fundamental_div_mod_converse(
            row * w + p,
            w as int,
            row,
            p,
        );
    }
}

/// A call of `blocks` pairs each request with each head, requests in order and heads
/// in order within a request.
pub proof fn blocks_go_by_request_and_head(
    count: usize,
    heads: usize,
    list: Vec<(usize, usize)>,
    i: int,
    head: int,
)
    ensures
        call_requires(blocks, (count, heads)),
        call_ensures(blocks, (count, heads), list) ==> list@.len() == count * heads,
        call_ensures(blocks, (count, heads), list) && 0 <= i < count && 0 <= head < heads
            ==> list@[i * heads + head].0 == i && list@[i * heads + head].1 == head,
{
    assert(count * heads >= 0) by (nonlinear_arith);
    if 0 <= i < count && 0 <= head < heads {
        lemma_row_fits(i, count as int, heads as int);
        lemma_block_id(count as int, heads as int, i * heads + head);
        vstd::arithmetic::div_mod::lemma_fundamental_div_mod_converse(
            i * heads + head,
            heads as int,
            i,
            head,
        );
    }
}

/// In a batch, the block of request `i` and head `head`, whichever they are, finds
/// its query, new key, new value and output rows in the tensors of request `i`: row
/// `row` starts at the tensor's base plus `head` times the stride of its first axis
/// plus `row` times that of its second.
pub proof fn blocks_read_their_own_tensors<T, S>(
    cfg: FlashAttnCfg,
    scale: S,
    reqs: Seq<Attention>,
    i: usize,
    head: usize,
    row: usize,
)
    requires
        i < reqs.len(),
    ensures
        ({
            let b = cfg.batch_view(scale, reqs).block((i, head));
            let a = reqs[i as int];
            let start = |t: TensorView|
                position::<T>(
                    address(
                        t.base as int,
                        t.strides@[0] as int,
                        t.strides@[1] as int,
                        head as int,
                        row as int,
                    ),
                );
            &&& b.k_src::<T>(row as int) == start(a.k)
            &&& b.v_src::<T>(row as int) == start(a.v)
            &&& crate::attention::block::row_at::<T>(
                b.req.q,
                b.req.q_strides,
                b.head,
                row as int,
            ) == start(a.q)
            &&& crate::attention::block::row_at::<T>(
                b.req.o,
                b.req.o_strides,
                b.head,
                row as int,
            ) == start(a.o)
        }),
{
    let a = reqs[i as int];
    lemma_row::<T>(0, a.q.base, a.q.strides_spec(), head as int, row as int, 0);
    lemma_row::<T>(0, a.k.base, a.k.strides_spec(), head as int, row as int, 0);
    lemma_row::<T>(0, a.v.base, a.v.strides_spec(), head as int, row as int, 0);
    lemma_row::<T>(0, a.o.base, a.o.strides_spec(), head as int, row as int, 0);
}

} // verus!
