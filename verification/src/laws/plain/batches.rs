//! Whole batches: `compute_cpu` and `try_compute_cpu`, and whether they can be called.
use crate::attention::batch::{blocks_spec, Attention, Batch, TensorView};
use crate::attention::check::{attn_check, concat_check, row_check};
use crate::attention::driver::lemma_block_id;
use crate::attention::{FlashAttnCfg, KVPage, KernelCfg, KernelReq, Strides2D};
use crate::ceil::{ceil_div, lemma_ceil_div};
use crate::laws::batch::heads_share_evenly;
use crate::laws::plain::append::{append_fits, copied_in_turn, lemma_append_fits, lemma_runs};
use crate::laws::plain::attend::{
    attention_fits, lemma_attention_fits, lemma_tiles, rows_of_tiles, written_in_turn,
};
use crate::laws::plain::tensors::{lemma_page_fits, lemma_request_fits, page_fits, request_fits};
use crate::laws::plain::{lemma_row, reachable};
use crate::memory::apply;
use crate::scalar::{functional, Scalar};
use vstd::prelude::*;

verus! {

/// A call of `row_check` says whether a row can be reached and lies in the memory.
pub proof fn row_check_finds_rows<T>(
    mem: &[T],
    base: usize,
    strides: &Strides2D,
    head: usize,
    row: usize,
    d: usize,
    r: bool,
)
    ensures
        call_requires(row_check::<T>, (mem, base, strides, head, row, d)),
        call_ensures(row_check::<T>, (mem, base, strides, head, row, d), r) ==> r == reachable::<T>(
            mem@.len() as int,
            base as int,
            strides.head as int,
            strides.seq as int,
            head as int,
            row as int,
            d as int,
        ),
{
    lemma_row::<T>(mem@.len(), base, *strides, head as int, row as int, d as nat);
}

/// A call of `concat_check` says whether the new rows of a request and their places lie
/// in the memory.
pub proof fn concat_check_finds_rows<T, S>(
    cfg: &KernelCfg<S>,
    pages: &[KVPage],
    req: &KernelReq,
    head: usize,
    mem: &[T],
    r: bool,
)
    ensures
        call_requires(concat_check::<T, S>, (cfg, pages, req, head, mem)),
        call_ensures(concat_check::<T, S>, (cfg, pages, req, head, mem), r) ==> r == append_fits::<
            T,
        >(cfg.d as int, cfg.bs as int, pages@, *req, head as int, mem@.len() as int),
{
    lemma_append_fits::<T, S>(*cfg, pages@, seq![*req], 0, head as int, mem@.len());
}

/// A call of `attn_check` says whether all that the attention of a request needs lies
/// in the memories.
pub proof fn attn_check_finds_rows<T: Scalar>(
    cfg: &KernelCfg<T>,
    pages: &[KVPage],
    req: &KernelReq,
    head: usize,
    masks: &[bool],
    mem: &[T],
    r: bool,
)
    ensures
        call_requires(attn_check::<T>, (cfg, pages, req, head, masks, mem)),
        call_ensures(attn_check::<T>, (cfg, pages, req, head, masks, mem), r) ==> r
            == attention_fits::<T>(
            cfg.g as int,
            cfg.d as int,
            cfg.bs as int,
            pages@,
            *req,
            head as int,
            masks@.len() as int,
            mem@.len() as int,
        ),
{
    lemma_attention_fits::<T>(
        *cfg,
        pages@,
        seq![*req],
        0,
        head as int,
        masks@.len(),
        mem@.len(),
    );
}

/// A call of `page_check` says whether a page can start at a cache row, one of `check`
/// whether a request can be prepared.
pub proof fn requests_are_checked(
    cache: &TensorView,
    row: usize,
    req: &Attention,
    tile: usize,
    r: bool,
)
    ensures
        call_requires(TensorView::page_check, (cache, row)),
        call_ensures(TensorView::page_check, (cache, row), r) ==> r == page_fits(
            *cache,
            row as int,
        ),
        call_requires(Attention::check, (req, tile)),
        call_ensures(Attention::check, (req, tile), r) ==> r == request_fits(*req, tile as int),
{
    lemma_page_fits(*cache, row as int);
    lemma_request_fits(*req, tile as int);
}

/// Requests that all fit.
pub open spec fn all_fit(cfg: FlashAttnCfg, reqs: Seq<Attention>) -> bool {
    forall|i: int| 0 <= i < reqs.len() ==> request_fits(#[trigger] reqs[i], cfg.tile_ctx as int)
}

/// All that a batch needs: heads that share out evenly, requests that fit, rows and
/// masks that lie in the memory for every request and head, and a workspace that can
/// be counted. `batch` is what `prepare` makes of the requests.
pub open spec fn batch_fits<T>(
    cfg: FlashAttnCfg,
    reqs: Seq<Attention>,
    batch: Batch,
    len: int,
) -> bool {
    &&& cfg.kvh > 0
    &&& cfg.h as int % cfg.kvh as int == 0
    &&& all_fit(cfg, reqs)
    &&& forall|i: int, head: int|
        0 <= i < reqs.len() && 0 <= head < cfg.kvh ==> #[trigger] append_fits::<T>(
            cfg.d as int,
            cfg.tile_ctx as int,
            batch.pages@,
            batch.reqs@[i],
            head,
            len,
        )
    &&& forall|i: int, head: int|
        0 <= i < reqs.len() && 0 <= head < cfg.h ==> #[trigger] attention_fits::<T>(
            cfg.h as int / cfg.kvh as int,
            cfg.d as int,
            cfg.tile_ctx as int,
            batch.pages@,
            batch.reqs@[i],
            head,
            batch.masks@.len() as int,
            len,
        )
    &&& reqs.len() > 0 && cfg.h > 0 ==> {
        &&& cfg.tile_seq > 0
        &&& 2 * (cfg.tile_seq * cfg.d) + 2 * (cfg.tile_ctx * cfg.d) + cfg.tile_seq * cfg.tile_ctx
            <= usize::MAX
    }
}

/// A batch can be computed if all that it needs is there.
proof fn lemma_batch_fits<T: Scalar>(
    cfg: &FlashAttnCfg,
    scale: T,
    reqs: &[Attention],
    batch: Batch,
    len: nat,
)
    requires
        all_fit(*cfg, reqs@) ==> call_ensures(FlashAttnCfg::prepare, (cfg, reqs), batch),
    ensures
        cfg.computable(scale, reqs@, len) <==> batch_fits::<T>(*cfg, reqs@, batch, len as int),
{
    let tile = cfg.tile_ctx as int;
    let view = cfg.batch_view(scale, reqs@);
    let l = len as int;
    let k = batch.masks@.len() as int;
    assert forall|i: int| 0 <= i < reqs@.len() implies #[trigger] reqs@[i].ok(tile)
        == request_fits(reqs@[i], tile) by {
        lemma_request_fits(reqs@[i], tile);
    }
    let count: usize = reqs.len();
    assert(count == reqs@.len());
    if cfg.kvh > 0 && cfg.h as int % cfg.kvh as int == 0 && all_fit(*cfg, reqs@) {
        assert(view.pages == batch.pages@);
        assert(view.masks == batch.masks@);
        assert(view.reqs == batch.reqs@);
        assert forall|id: (usize, usize)| id.0 < reqs@.len() implies (#[trigger] view.block(
            id,
        )).concat_ok::<T>(len) == append_fits::<T>(
            cfg.d as int,
            tile,
            batch.pages@,
            batch.reqs@[id.0 as int],
            id.1 as int,
            l,
        ) by {
            lemma_append_fits::<T, T>(
                view.cfg,
                view.pages,
                view.reqs,
                id.0 as int,
                id.1 as int,
                len,
            );
        }
        assert forall|id: (usize, usize)| id.0 < reqs@.len() implies (#[trigger] view.block(
            id,
        )).attn_ok(len, view.masks.len()) == attention_fits::<T>(
            cfg.h as int / cfg.kvh as int,
            cfg.d as int,
            tile,
            batch.pages@,
            batch.reqs@[id.0 as int],
            id.1 as int,
            k,
            l,
        ) by {
            lemma_attention_fits::<T>(
                view.cfg,
                view.pages,
                view.reqs,
                id.0 as int,
                id.1 as int,
                view.masks.len(),
                len,
            );
        }
        if cfg.computable(scale, reqs@, len) {
            assert forall|i: int, head: int|
                0 <= i < reqs@.len() && 0 <= head < cfg.kvh implies #[trigger] append_fits::<T>(
                cfg.d as int,
                tile,
                batch.pages@,
                batch.reqs@[i],
                head,
                l,
            ) by {
                assert(view.block((i as usize, head as usize)).concat_ok::<T>(len));
            }
            assert forall|i: int, head: int|
                0 <= i < reqs@.len() && 0 <= head < cfg.h implies #[trigger] attention_fits::<T>(
                cfg.h as int / cfg.kvh as int,
                cfg.d as int,
                tile,
                batch.pages@,
                batch.reqs@[i],
                head,
                k,
                l,
            ) by {
                assert(view.block((i as usize, head as usize)).attn_ok(len, view.masks.len()));
            }
        }
        if batch_fits::<T>(*cfg, reqs@, batch, l) {
            assert forall|id: (usize, usize)|
                id.0 < reqs@.len() && id.1 < cfg.kvh implies (#[trigger] view.block(
                id,
            )).concat_ok::<T>(len) by {
                assert(append_fits::<T>(
                    cfg.d as int,
                    tile,
                    batch.pages@,
                    batch.reqs@[id.0 as int],
                    id.1 as int,
                    l,
                ));
            }
            assert forall|id: (usize, usize)|
                id.0 < reqs@.len() && id.1 < cfg.h implies (#[trigger] view.block(id)).attn_ok(
                len,
                view.masks.len(),
            ) by {
                assert(attention_fits::<T>(
                    cfg.h as int / cfg.kvh as int,
                    cfg.d as int,
                    tile,
                    batch.pages@,
                    batch.reqs@[id.0 as int],
                    id.1 as int,
                    k,
                    l,
                ));
            }
        }
    } else if !all_fit(*cfg, reqs@) {
        let i = choose|i: int|
            0 <= i < reqs@.len() && !request_fits(#[trigger] reqs@[i], cfg.tile_ctx as int);
        assert(!reqs@[i].ok(tile));
    }
}

/// A call of `check` says whether a batch can be computed, and `compute_cpu` can be
/// called whenever it can.
pub proof fn batches_are_checked<T: Scalar>(
    cfg: &FlashAttnCfg,
    scale: T,
    reqs: &[Attention],
    batch: Batch,
    mem: &[T],
    changed: &mut [T],
    r: bool,
)
    requires
        all_fit(*cfg, reqs@) ==> call_ensures(FlashAttnCfg::prepare, (cfg, reqs), batch),
    ensures
        call_requires(FlashAttnCfg::check::<T>, (cfg, scale, reqs, mem)),
        call_ensures(FlashAttnCfg::check::<T>, (cfg, scale, reqs, mem), r) ==> r == batch_fits::<T>(
            *cfg,
            reqs@,
            batch,
            mem@.len() as int,
        ),
        functional::<T>() && batch_fits::<T>(*cfg, reqs@, batch, old(changed)@.len() as int)
            ==> call_requires(FlashAttnCfg::compute_cpu::<T>, (cfg, scale, reqs, changed)),
        functional::<T>() ==> call_requires(
            FlashAttnCfg::try_compute_cpu::<T>,
            (cfg, scale, reqs, changed),
        ),
{
    lemma_batch_fits(cfg, scale, reqs, batch, mem@.len());
    lemma_batch_fits(cfg, scale, reqs, batch, old(changed)@.len());
}

/// `appended(k)` is the memory once the first `k` blocks have taken their new rows into
/// the cache, and `attended(k)` once, after that, the first `k` blocks have computed
/// their attention: blocks in the order of requests and, within a request, of heads.
pub open spec fn computed_in_turn<T: Scalar>(
    cfg: FlashAttnCfg,
    kernel: KernelCfg<T>,
    count: int,
    batch: Batch,
    mem: Seq<T>,
    appended: spec_fn(int) -> Seq<T>,
    copy: spec_fn(int) -> spec_fn(int, int) -> Seq<T>,
    attended: spec_fn(int) -> Seq<T>,
    write: spec_fn(int) -> spec_fn(int) -> Seq<T>,
) -> bool {
    &&& appended(0) == mem
    &&& forall|k: int|
        0 <= k < count * cfg.kvh ==> {
            let i = k / (cfg.kvh as int);
            let head = k % (cfg.kvh as int);
            let req = batch.reqs@[i];
            &&& copied_in_turn(
                cfg.d as int,
                cfg.tile_ctx as int,
                batch.pages@,
                req,
                head,
                #[trigger] appended(k),
                copy(k),
            )
            &&& appended(k + 1) == copy(k)(req.n as int, 0)
        }
    &&& attended(0) == appended(count * cfg.kvh)
    &&& forall|k: int|
        0 <= k < count * cfg.h ==> {
            let i = k / (cfg.h as int);
            let head = k % (cfg.h as int);
            &&& written_in_turn(
                kernel,
                batch.pages@,
                batch.reqs@,
                i,
                head,
                cfg.tile_seq as int,
                batch.masks@,
                #[trigger] attended(k),
                write(k),
            )
            &&& attended(k + 1) == write(k)(batch.reqs@[i].n as int)
        }
}

/// What the kernels read of a configuration, with a scale.
pub open spec fn kernel_of<T>(cfg: FlashAttnCfg, scale: T) -> KernelCfg<T> {
    KernelCfg {
        g: (cfg.h as int / cfg.kvh as int) as usize,
        d: cfg.d,
        bs: cfg.tile_ctx,
        scale,
    }
}

proof fn lemma_turns<T: Scalar>(
    cfg: &FlashAttnCfg,
    scale: T,
    reqs: &[Attention],
    batch: Batch,
    mem: Seq<T>,
    appended: spec_fn(int) -> Seq<T>,
    copy: spec_fn(int) -> spec_fn(int, int) -> Seq<T>,
    attended: spec_fn(int) -> Seq<T>,
    write: spec_fn(int) -> spec_fn(int) -> Seq<T>,
)
    requires
        call_ensures(FlashAttnCfg::prepare, (cfg, reqs), batch),
        batch_fits::<T>(*cfg, reqs@, batch, mem.len() as int),
        computed_in_turn(
            *cfg,
            kernel_of(*cfg, scale),
            reqs@.len() as int,
            batch,
            mem,
            appended,
            copy,
            attended,
            write,
        ),
    ensures
        cfg.computed(scale, reqs@, mem) == attended(reqs@.len() * cfg.h),
{
    let view = cfg.batch_view(scale, reqs@);
    let kernel = kernel_of(*cfg, scale);
    let len: usize = reqs.len();
    let count = reqs@.len() as int;
    assert(count == len);
    let kv_ids = blocks_spec(count, cfg.kvh as int);
    let ids = blocks_spec(count, cfg.h as int);
    vstd::arithmetic::div_mod::lemma_div_pos_is_pos(cfg.h as int, cfg.kvh as int);
    vstd::arithmetic::div_mod::lemma_div_is_ordered_by_denominator(
        cfg.h as int,
        1,
        cfg.kvh as int,
    );
    assert(view.cfg == kernel);
    assert(view.pages == batch.pages@);
    assert(view.masks == batch.masks@);
    assert(view.reqs == batch.reqs@);
    assert(count * cfg.kvh >= 0 && count * cfg.h >= 0) by (nonlinear_arith)
        requires
            count >= 0,
    ;
    let n = count * cfg.kvh;
    let m = count * cfg.h;
    assert forall|k: int| 0 <= k < n implies #[trigger] appended(k + 1) == apply(
        appended(k),
        view.block(kv_ids[k]).concat_moves::<T>(),
    ) by {
        lemma_block_id(count, cfg.kvh as int, k);
        let i = k / (cfg.kvh as int);
        let head = k % (cfg.kvh as int);
        let req = batch.reqs@[i];
        let a = appended(k);
        assert(append_fits::<T>(
            cfg.d as int,
            cfg.tile_ctx as int,
            batch.pages@,
            req,
            head,
            mem.len() as int,
        ));
        assert(request_fits(reqs@[i], cfg.tile_ctx as int));
        lemma_runs(kernel, view.pages, view.reqs, i, head, a, copy(k), req.n as nat);
    }
    lemma_fold(view.concat_step::<T>(), kv_ids, mem, appended, n as nat);
    assert(kv_ids.take(n) =~= kv_ids);
    assert forall|k: int| 0 <= k < m implies #[trigger] attended(k + 1) == view.block(
        ids[k],
    ).attended(attended(k), view.masks, cfg.tile_seq as int) by {
        lemma_block_id(count, cfg.h as int, k);
        let i = k / (cfg.h as int);
        let head = k % (cfg.h as int);
        let req = batch.reqs@[i];
        let a = attended(k);
        heads_share_evenly(cfg.h as int, cfg.kvh as int, head);
        assert(request_fits(reqs@[i], cfg.tile_ctx as int));
        let bn = cfg.tile_seq as int;
        let tiles = ceil_div(req.n as int, bn);
        lemma_ceil_div(req.n as int, bn);
        lemma_tiles(
            kernel,
            view.pages,
            view.reqs,
            i,
            head,
            bn,
            view.masks,
            a,
            write(k),
            tiles as nat,
        );
        assert(rows_of_tiles(req.n as int, bn, tiles) == req.n);
    }
    lemma_fold(view.attention_step(cfg.tile_seq as int), ids, appended(n), attended, m as nat);
    assert(ids.take(m) =~= ids);
}

/// A fold is where its steps end.
proof fn lemma_fold<M, A>(
    f: spec_fn(M, A) -> M,
    ids: Seq<A>,
    start: M,
    run: spec_fn(int) -> M,
    n: nat,
)
    requires
        n <= ids.len(),
        run(0) == start,
        forall|k: int| 0 <= k < ids.len() ==> #[trigger] run(k + 1) == f(run(k), ids[k]),
    ensures
        ids.take(n as int).fold_left(start, f) == run(n as int),
    decreases n,
{
    if n > 0 {
        lemma_fold(f, ids, start, run, (n - 1) as nat);
        assert(ids.take(n as int).drop_last() =~= ids.take(n - 1));
        assert(ids.take(n as int).last() == ids[n - 1]);
        let k = n - 1;
        assert(run(k + 1) == f(run(k), ids[k]));
    }
}

/// A call of `compute_cpu` first takes the new rows of every request and every key and
/// value head into the cache, then computes the attention of every request and every
/// query head, as `cache_concat_block` and `flash_attn_block` do block by block.
pub proof fn batch_is_computed_in_turn<T: Scalar>(
    cfg: &FlashAttnCfg,
    scale: T,
    reqs: &[Attention],
    mem: &mut [T],
    batch: Batch,
    appended: spec_fn(int) -> Seq<T>,
    copy: spec_fn(int) -> spec_fn(int, int) -> Seq<T>,
    attended: spec_fn(int) -> Seq<T>,
    write: spec_fn(int) -> spec_fn(int) -> Seq<T>,
)
    requires
        call_ensures(FlashAttnCfg::compute_cpu::<T>, (cfg, scale, reqs, mem), ()),
        call_ensures(FlashAttnCfg::prepare, (cfg, reqs), batch),
        batch_fits::<T>(*cfg, reqs@, batch, old(mem)@.len() as int),
        computed_in_turn(
            *cfg,
            kernel_of(*cfg, scale),
            reqs@.len() as int,
            batch,
            old(mem)@,
            appended,
            copy,
            attended,
            write,
        ),
    ensures
        final(mem)@ == attended(reqs@.len() * cfg.h),
{
    lemma_turns(cfg, scale, reqs, batch, old(mem)@, appended, copy, attended, write);
}

/// A call of `try_compute_cpu` computes a batch exactly if it can be computed, as
/// `compute_cpu` does, and otherwise leaves the memory as it was.
pub proof fn batch_is_computed_if_it_fits<T: Scalar>(
    cfg: &FlashAttnCfg,
    scale: T,
    reqs: &[Attention],
    mem: &mut [T],
    done: bool,
    batch: Batch,
    appended: spec_fn(int) -> Seq<T>,
    copy: spec_fn(int) -> spec_fn(int, int) -> Seq<T>,
    attended: spec_fn(int) -> Seq<T>,
    write: spec_fn(int) -> spec_fn(int) -> Seq<T>,
)
    requires
        call_ensures(FlashAttnCfg::try_compute_cpu::<T>, (cfg, scale, reqs, mem), done),
        all_fit(*cfg, reqs@) ==> call_ensures(FlashAttnCfg::prepare, (cfg, reqs), batch),
        computed_in_turn(
            *cfg,
            kernel_of(*cfg, scale),
            reqs@.len() as int,
            batch,
            old(mem)@,
            appended,
            copy,
            attended,
            write,
        ),
    ensures
        done == batch_fits::<T>(*cfg, reqs@, batch, old(mem)@.len() as int),
        done ==> final(mem)@ == attended(reqs@.len() * cfg.h),
        !done ==> final(mem)@ == old(mem)@,
{
    lemma_batch_fits(cfg, scale, reqs, batch, old(mem)@.len());
    if done {
        lemma_turns(cfg, scale, reqs, batch, old(mem)@, appended, copy, attended, write);
    }
}

} // verus!
