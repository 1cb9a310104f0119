//! How two results, or the results of two calls, relate.
use crate::attention::batch::{masks_spec, page_table_spec, Attention, Batch, TensorView};
use crate::attention::block::Block;
use crate::attention::cpu::{block_of, cache_concat_block, flash_attn_block};
use crate::attention::cuda::kernel_source;
use crate::attention::online::{lemma_row_fits, rows, scores, update_row};
use crate::attention::{FlashAttnCfg, KVPage, KernelCfg, KernelReq, Strides2D};
use crate::ceil::ceil_div;
use crate::laws::batch::{lemma_masks_prefix, lemma_pages_prefix};
use crate::laws::exact::exact;
use crate::laws::plain::append::{append_fits, lemma_append_fits};
use crate::laws::plain::attend::{attention_fits, lemma_attention_fits, lemma_sum_run};
use crate::laws::plain::device::source_has_both_entry_points;
use crate::laws::plain::tensors::{
    flags_before, lemma_count, lemma_flags, lemma_page_number, lemma_request_fits, pages_before,
    pages_fit, prepared_request_is_its_tensors, request_fits,
};
use crate::memory::read;
use crate::scalar::{empty_sum, exp, minus, plus, products, times, Scalar};
use vstd::prelude::*;

verus! {

/// In exact arithmetic a call of `update_row` weighs any two rows of a page that the
/// mask lets through in proportion to the exponentials of their scores: one weight is
/// the other times the exponential of the difference of the scores, whatever the
/// scores are.
pub proof fn weights_are_in_proportion<T: Scalar>(
    scale: T,
    q: &[T],
    kj: &[T],
    vj: &[T],
    masks: &[bool],
    mask_at: usize,
    x: &mut [T],
    m: T,
    l: T,
    acc: &mut [T],
    r: (T, T),
    fin: spec_fn(T) -> bool,
    i: int,
    j: int,
    inner: spec_fn(int, int) -> T,
)
    requires
        call_ensures(update_row::<T>, (scale, q, kj, vj, masks, mask_at, x, m, l, acc), r),
        exact(fin),
        0 <= i < old(x)@.len(),
        0 <= j < old(x)@.len(),
        masks@[mask_at + i],
        masks@[mask_at + j],
        // inner products of the query row with the key rows, element by element
        forall|p: int| #[trigger] inner(p, 0) == empty_sum::<T>(),
        forall|p: int, e: int|
            0 <= p < old(x)@.len() && 0 < e <= q@.len() ==> #[trigger] inner(p, e) == plus(
                inner(p, e - 1),
                times(q@[e - 1], kj@[p * q@.len() + (e - 1)]),
            ),
        fin(times(inner(i, q@.len() as int), scale)),
        fin(times(inner(j, q@.len() as int), scale)),
        fin(r.0),
    ensures
        times(
            exp(
                minus(
                    times(inner(i, q@.len() as int), scale),
                    times(inner(j, q@.len() as int), scale),
                ),
            ),
            final(x)@[j],
        ) == final(x)@[i],
{
    let d = q@.len();
    let bs = old(x)@.len();
    let keys = rows(kj@, bs, d);
    let s = scores(scale, q@, keys, read(masks@, mask_at as int, bs));
    assert forall|p: int| 0 <= p < bs && masks@[mask_at + p] implies #[trigger] s[p] == times(
        inner(p, d as int),
        scale,
    ) by {
        let run = |e: int| inner(p, e);
        let pr = products(q@, keys[p]);
        lemma_row_fits(p, bs as int, d as int);
        assert forall|e: int| 0 < e <= pr.len() implies #[trigger] run(e) == plus(
            run(e - 1),
            pr[e - 1],
        ) by {
            assert(inner(p, e) == plus(
                inner(p, e - 1),
                times(q@[e - 1], kj@[p * d + (e - 1)]),
            ));
        }
        assert(run(0) == inner(p, 0));
        lemma_sum_run(empty_sum(), pr, run);
    }
    assert(final(x)@[i] == exp(minus(s[i], r.0)));
    assert(final(x)@[j] == exp(minus(s[j], r.0)));
}

/// A request is prepared in a batch as it is alone: the kernels read the same of it,
/// but for where its mask is, and its pages and its mask stand in the lists of the
/// batch as they do in its own.
pub proof fn a_request_is_prepared_as_alone(
    cfg: &FlashAttnCfg,
    reqs: &[Attention],
    batch: Batch,
    i: int,
    one: &[Attention],
    alone: Batch,
)
    requires
        call_ensures(FlashAttnCfg::prepare, (cfg, reqs), batch),
        call_ensures(FlashAttnCfg::prepare, (cfg, one), alone),
        forall|i: int|
            0 <= i < reqs@.len() ==> request_fits(#[trigger] reqs@[i], cfg.tile_ctx as int),
        0 <= i < reqs@.len(),
        one@ == seq![reqs@[i]],
    ensures
        ({
            let tile = cfg.tile_ctx as int;
            let pages = pages_before(reqs@, tile, i);
            let flags = flags_before(reqs@, tile, i);
            &&& (KernelReq { mask: 0, ..batch.reqs@[i] }) == alone.reqs@[0]
            &&& batch.reqs@[i].mask == flags
            &&& batch.pages@.subrange(pages, pages + alone.pages@.len()) == alone.pages@
            &&& batch.masks@.subrange(flags, flags + alone.masks@.len()) == alone.masks@
        }),
{
    let tile = cfg.tile_ctx as int;
    let a = reqs@[i];
    assert(request_fits(a, tile));
    prepared_request_is_its_tensors(cfg, reqs, batch, i);
    prepared_request_is_its_tensors(cfg, one, alone, 0);
    assert forall|i: int| 0 <= i < reqs@.len() implies pages_fit(#[trigger] reqs@[i], tile) by {
        assert(request_fits(reqs@[i], tile));
    }
    assert(flags_before(one@, tile, 0) == 0);
    reveal_with_fuel(masks_spec, 2);
    reveal_with_fuel(page_table_spec, 2);
    assert(alone.masks@ =~= a.mask(tile));
    assert(alone.pages@ =~= a.pages(tile));
    lemma_request_fits(a, tile);
    lemma_page_number(a, tile);
    lemma_flags(reqs@, tile, i as nat);
    lemma_count(reqs@, tile, i as nat);
    lemma_masks_prefix(reqs@, tile, (i + 1) as nat, reqs@.len());
    lemma_pages_prefix(reqs@, tile, (i + 1) as nat, reqs@.len());
    let pages = pages_before(reqs@, tile, i);
    let flags = flags_before(reqs@, tile, i);
    let some_pages = page_table_spec(reqs@, tile, (i + 1) as nat);
    let some_masks = masks_spec(reqs@, tile, (i + 1) as nat);
    assert(batch.pages@.subrange(pages, pages + alone.pages@.len()) =~= alone.pages@) by {
        assert forall|t: int| 0 <= t < alone.pages@.len() implies batch.pages@[pages + t]
            == alone.pages@[t] by {
            assert(some_pages[pages + t] == batch.pages@[pages + t]);
        }
    }
    assert(batch.masks@.subrange(flags, flags + alone.masks@.len()) =~= alone.masks@) by {
        assert forall|t: int| 0 <= t < alone.masks@.len() implies batch.masks@[flags + t]
            == alone.masks@[t] by {
            assert(some_masks[flags + t] == batch.masks@[flags + t]);
        }
    }
}

/// Moves of blocks whose rows move alike are alike.
proof fn lemma_moves_alike<T, S>(a: Block<S>, b: Block<S>, count: nat)
    requires
        forall|i: int| 0 <= i < count ==> #[trigger] a.row_moves::<T>(i) == b.row_moves::<T>(i),
    ensures
        a.moves::<T>(count) == b.moves::<T>(count),
    decreases count,
{
    if count > 0 {
        lemma_moves_alike::<T, S>(a, b, (count - 1) as nat);
        assert(a.row_moves::<T>(count - 1) == b.row_moves::<T>(count - 1));
    }
}

/// A request's pages are counted from its first: `cache_concat_block` does the same on
/// the list without the pages before it, to a request whose first page is the first of
/// that list.
pub proof fn append_counts_pages_from_the_first<T: Copy, S>(
    cfg: KernelCfg<S>,
    pages: &[KVPage],
    reqs: &[KernelReq],
    ireq: usize,
    head: usize,
    mem: &mut [T],
    own_pages: &[KVPage],
    own_reqs: &[KernelReq],
    own_mem: &mut [T],
)
    requires
        call_ensures(cache_concat_block::<T, S>, (cfg, pages, reqs, ireq, head, mem), ()),
        call_ensures(
            cache_concat_block::<T, S>,
            (cfg, own_pages, own_reqs, ireq, head, own_mem),
            (),
        ),
        append_fits::<T>(
            cfg.d as int,
            cfg.bs as int,
            pages@,
            reqs@[ireq as int],
            head as int,
            old(mem)@.len() as int,
        ),
        own_pages@ == pages@.skip(reqs@[ireq as int].pages_start as int),
        own_reqs@[ireq as int] == (KernelReq { pages_start: 0, ..reqs@[ireq as int] }),
        old(own_mem)@ == old(mem)@,
    ensures
        final(own_mem)@ == final(mem)@,
{
    let a = block_of(cfg, pages@, reqs@, ireq as int, head as int);
    let b = block_of(cfg, own_pages@, own_reqs@, ireq as int, head as int);
    let len = old(mem)@.len();
    lemma_append_fits::<T, S>(cfg, pages@, reqs@, ireq as int, head as int, len);
    assert forall|i: int| 0 <= i < a.req.n implies #[trigger] a.row_moves::<T>(i) == b.row_moves::<
        T,
    >(i) by {
        assert(a.concat_row_ok::<T>(len, i));
        let j = a.place(i) / a.bs();
        vstd::arithmetic::div_mod::lemma_div_pos_is_pos(a.place(i), a.bs());
        assert(a.page(j) == b.page(j));
        assert(a.row_moves::<T>(i) =~= b.row_moves::<T>(i));
    }
    lemma_moves_alike::<T, S>(a, b, a.req.n as nat);
}

/// Two blocks of the same rows and pages.
spec fn alike<T: Scalar>(a: Block<T>, b: Block<T>) -> bool {
    &&& a.cfg == b.cfg
    &&& a.head == b.head
    &&& b.req == (KernelReq { pages_start: b.req.pages_start, ..a.req })
    &&& forall|j: int| 0 <= j < a.page_count() ==> #[trigger] a.page(j) == b.page(j)
}

proof fn lemma_states_alike<T: Scalar>(
    a: Block<T>,
    b: Block<T>,
    mem: Seq<T>,
    masks: Seq<bool>,
    iq: int,
    j: nat,
)
    requires
        alike(a, b),
        j <= a.page_count(),
    ensures
        a.state(mem, masks, iq, j) == b.state(mem, masks, iq, j),
    decreases j,
{
    if j > 0 {
        lemma_states_alike(a, b, mem, masks, iq, (j - 1) as nat);
        assert(a.page(j - 1) == b.page(j - 1));
        assert(a.keys(mem, j - 1) =~= b.keys(mem, j - 1));
        assert(a.vals(mem, j - 1) =~= b.vals(mem, j - 1));
    }
}

proof fn lemma_stored_alike<T: Scalar>(
    a: Block<T>,
    b: Block<T>,
    mem: Seq<T>,
    masks: Seq<bool>,
    first: int,
    count: nat,
)
    requires
        alike(a, b),
        a.page_count() >= 0,
    ensures
        a.stored(mem, mem, masks, first, count) == b.stored(mem, mem, masks, first, count),
    decreases count,
{
    if count > 0 {
        lemma_stored_alike(a, b, mem, masks, first, (count - 1) as nat);
        lemma_states_alike(a, b, mem, masks, first + count - 1, a.page_count() as nat);
    }
}

proof fn lemma_tiled_alike<T: Scalar>(
    a: Block<T>,
    b: Block<T>,
    mem: Seq<T>,
    masks: Seq<bool>,
    bn: int,
    tiles: nat,
)
    requires
        alike(a, b),
        a.page_count() >= 0,
    ensures
        a.tiled(mem, masks, bn, tiles) == b.tiled(mem, masks, bn, tiles),
    decreases tiles,
{
    if tiles > 0 {
        let first = (tiles - 1) * bn;
        lemma_tiled_alike(a, b, mem, masks, bn, (tiles - 1) as nat);
        let m = a.tiled(mem, masks, bn, (tiles - 1) as nat);
        lemma_stored_alike(a, b, m, masks, first, a.tile_rows(first, bn) as nat);
    }
}

/// A request's pages are counted from its first: `flash_attn_block` does the same on
/// the list without the pages before it, to a request whose first page is the first of
/// that list.
pub proof fn attention_counts_pages_from_the_first<T: Scalar>(
    cfg: KernelCfg<T>,
    pages: &[KVPage],
    reqs: &[KernelReq],
    ireq: usize,
    head: usize,
    bn: usize,
    shared: &mut [T],
    masks: &[bool],
    mem: &mut [T],
    own_pages: &[KVPage],
    own_reqs: &[KernelReq],
    own_shared: &mut [T],
    own_mem: &mut [T],
)
    requires
        call_ensures(
            flash_attn_block::<T>,
            (cfg, pages, reqs, ireq, head, bn, shared, masks, mem),
            (),
        ),
        call_ensures(
            flash_attn_block::<T>,
            (cfg, own_pages, own_reqs, ireq, head, bn, own_shared, masks, own_mem),
            (),
        ),
        attention_fits::<T>(
            cfg.g as int,
            cfg.d as int,
            cfg.bs as int,
            pages@,
            reqs@[ireq as int],
            head as int,
            masks@.len() as int,
            old(mem)@.len() as int,
        ),
        own_pages@ == pages@.skip(reqs@[ireq as int].pages_start as int),
        own_reqs@[ireq as int] == (KernelReq { pages_start: 0, ..reqs@[ireq as int] }),
        old(own_mem)@ == old(mem)@,
    ensures
        final(own_mem)@ == final(mem)@,
{
    let a = block_of(cfg, pages@, reqs@, ireq as int, head as int);
    let b = block_of(cfg, own_pages@, own_reqs@, ireq as int, head as int);
    lemma_attention_fits(
        cfg,
        pages@,
        reqs@,
        ireq as int,
        head as int,
        masks@.len(),
        old(mem)@.len(),
    );
    crate::ceil::lemma_ceil_div(a.req.s_ceil as int, a.bs());
    assert forall|j: int| 0 <= j < a.page_count() implies #[trigger] a.page(j) == b.page(j) by {}
    lemma_tiled_alike(
        a,
        b,
        old(mem)@,
        masks@,
        bn as int,
        ceil_div(a.req.n as int, bn as int) as nat,
    );
}

/// A tensor with its first two axes exchanged has its strides exchanged.
pub proof fn exchanged_axes_exchange_strides(
    t: &TensorView,
    r: Strides2D,
    u: &TensorView,
    s: Strides2D,
)
    requires
        call_ensures(TensorView::strides2d, (t,), r),
        call_ensures(TensorView::strides2d, (u,), s),
        t.strides@.len() == 3,
        u.strides@ == seq![t.strides@[1], t.strides@[0], t.strides@[2]],
    ensures
        s.head == r.seq,
        s.seq == r.head,
{
}

/// What a call of `kernel_source` adds to the kernels' code does not depend on the
/// code.
pub proof fn entry_points_do_not_depend_on_the_code(
    code: &str,
    source: String,
    other: &str,
    other_source: String,
    t_compute: &str,
    t_data: &str,
)
    requires
        call_ensures(kernel_source, (code, t_compute, t_data), source),
        call_ensures(kernel_source, (other, t_compute, t_data), other_source),
    ensures
        source@.take(code@.len() as int) == code@,
        other_source@.take(other@.len() as int) == other@,
        source@.skip(code@.len() as int) == other_source@.skip(other@.len() as int),
{
    source_has_both_entry_points(code, t_compute, t_data, source);
    source_has_both_entry_points(other, t_compute, t_data, other_source);
    let (c, o) = (code@.len() as int, other@.len() as int);
    let n = source@.len() - c;
    assert(other_source@.len() - o == n);
    let concat = "\n\nextern \"C\" __global__ void cache_concat(\n    KernelCfg cfg,\n    KVPage<"@
        + t_data@ + "> const *cache_pages,\n    KernelReq<"@ + t_data@
        + "> const *reqs) {\n    cache_concat_block(cfg, cache_pages, reqs);\n}"@;
    let a = concat.len() as int;
    assert(source@.skip(c) =~= source@.subrange(c, c + a) + source@.subrange(c + a, c + n));
    assert(other_source@.skip(o) =~= other_source@.subrange(o, o + a) + other_source@.subrange(
        o + a,
        o + n,
    ));
}

} // verus!
