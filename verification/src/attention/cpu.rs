//! The kernels, one block at a time.
use crate::attention::block::{work_len, work_of, Block};
use crate::attention::tile::{run_tile, tile_rows_of};
use crate::attention::{KVPage, KernelCfg, KernelReq};
use crate::ceil::{ceil_div, div_ceil, lemma_ceil_div};
use crate::memory::{apply, locate};
use crate::scalar::{functional, Scalar};
use vstd::prelude::*;

verus! {

/// The block of request `ireq` and head `head`.
pub open spec fn block_of<S>(
    cfg: KernelCfg<S>,
    pages: Seq<KVPage>,
    reqs: Seq<KernelReq>,
    ireq: int,
    head: int,
) -> Block<S> {
    Block { cfg, pages, req: reqs[ireq], head }
}

/// Takes the new keys and values of request `ireq` and head `head` into the
/// cache. Row `i` of the `n` new rows goes to place `s - n + i` of the sequence,
/// which lies in page `(s - n + i) / bs` as its row `(s - n + i) % bs`.
pub fn cache_concat_block<T: Copy, S>(
    cfg: KernelCfg<S>,
    cache_pages: &[KVPage],
    reqs: &[KernelReq],
    ireq: usize,
    head: usize,
    mem: &mut [T],
)
    requires
        ireq < reqs@.len(),
        block_of(cfg, cache_pages@, reqs@, ireq as int, head as int).concat_ok::<T>(
            old(mem)@.len(),
        ),
    ensures
        final(mem)@.len() == old(mem)@.len(),
        final(mem)@ == apply(
            old(mem)@,
            block_of(cfg, cache_pages@, reqs@, ireq as int, head as int).concat_moves::<T>(),
        ),
{
    let ghost b = block_of(cfg, cache_pages@, reqs@, ireq as int, head as int);
    let d: usize = cfg.d;
    let bs: usize = cfg.bs;
    let req: KernelReq = reqs[ireq];
    let pos: usize = req.s - req.n;
    let len: usize = mem.len();
    let pages_len: usize = cache_pages.len();
    for i in 0..req.n
        invariant
            b == block_of(cfg, cache_pages@, reqs@, ireq as int, head as int),
            req == b.req,
            d == b.cfg.d,
            bs == b.cfg.bs,
            len == mem@.len(),
            len == old(mem)@.len(),
            pages_len == cache_pages@.len(),
            pos == req.s - req.n,
            b.concat_ok::<T>(len as nat),
            mem@ == apply(old(mem)@, b.moves::<T>(i as nat)),
    {
        assert(b.concat_row_ok::<T>(len as nat, i as int));
        let p: usize = pos + i;
        let page: KVPage = cache_pages[req.pages_start + p / bs];
        let k_offset: isize = req.k_strides.offset(head, i);
        let v_offset: isize = req.v_strides.offset(head, i);
        let c_offset: isize = req.kv_strides.offset(head, p % bs);
        let ks: usize = locate::<T>(mem, req.k, k_offset, d);
        let vs: usize = locate::<T>(mem, req.v, v_offset, d);
        let kd: usize = locate::<T>(mem, page.k, c_offset, d);
        let vd: usize = locate::<T>(mem, page.v, c_offset, d);
        let ghost before = b.moves::<T>(i as nat);
        let ghost row = b.row_moves::<T>(i as int);
        assert(before + row.take(0) =~= before);
        for it in 0..d
            invariant
                len == mem@.len(),
                ks + d <= len,
                vs + d <= len,
                kd + d <= len,
                vd + d <= len,
                row.len() == 2 * d,
                forall|t: int|
                    0 <= t < 2 * d ==> #[trigger] row[t] == (if t % 2 == 0 {
                        (kd + t / 2, ks + t / 2)
                    } else {
                        (vd + t / 2, vs + t / 2)
                    }),
                mem@ == apply(old(mem)@, before + row.take(2 * it)),
        {
            let ghost m0 = before + row.take(2 * it);
            let ghost m1 = before + row.take(2 * it + 1);
            let ghost m2 = before + row.take(2 * it + 2);
            let x: T = mem[ks + it];
            mem[kd + it] = x;
            assert(mem@ == apply(old(mem)@, m1)) by {
                assert(m1.drop_last() =~= m0);
                assert(m1.last() == row[2 * it]);
            }
            let y: T = mem[vs + it];
            mem[vd + it] = y;
            assert(mem@ == apply(old(mem)@, m2)) by {
                assert(m2.drop_last() =~= m1);
                assert(m2.last() == row[2 * it + 1]);
            }
            assert(m2 =~= before + row.take(2 * (it + 1)));
        }
        assert(before + row.take(2 * d) =~= before + row);
    }
}

/// Computes the attention of request `ireq` and head `head`, in tiles of `bn`
/// query rows. `shared` is the workspace of the block; `masks` says of each
/// query row and each row of the padded sequence whether the one looks at the
/// other.
pub fn flash_attn_block<T: Scalar>(
    cfg: KernelCfg<T>,
    cache_pages: &[KVPage],
    reqs: &[KernelReq],
    ireq: usize,
    head: usize,
    bn: usize,
    shared: &mut [T],
    masks: &[bool],
    mem: &mut [T],
)
    requires
        functional::<T>(),
        ireq < reqs@.len(),
        bn > 0,
        old(shared)@.len() == work_len(bn as int, cfg.bs as int, cfg.d as int),
        block_of(cfg, cache_pages@, reqs@, ireq as int, head as int).attn_ok(
            old(mem)@.len(),
            masks@.len(),
        ),
    ensures
        final(mem)@.len() == old(mem)@.len(),
        final(mem)@ == block_of(cfg, cache_pages@, reqs@, ireq as int, head as int).attended(
            old(mem)@,
            masks@,
            bn as int,
        ),
        final(shared)@.len() == old(shared)@.len(),
        work_of(final(shared)@, bn as nat, cfg.bs as nat, cfg.d as nat) == block_of(
            cfg,
            cache_pages@,
            reqs@,
            ireq as int,
            head as int,
        ).worked(
            work_of(old(shared)@, bn as nat, cfg.bs as nat, cfg.d as nat),
            old(mem)@,
            masks@,
            bn as int,
        ),
{
    let ghost b = block_of(cfg, cache_pages@, reqs@, ireq as int, head as int);
    let d: usize = cfg.d;
    let bs: usize = cfg.bs;
    let req: KernelReq = reqs[ireq];
    let shared_len: usize = shared.len();
    proof {
        assert(bn * d >= 0 && bs * d >= 0 && bn * bs >= 0) by (nonlinear_arith);
    }
    let ghost shared0 = shared@;
    let ghost mem0 = mem@;
    let (qi, rest) = shared.split_at_mut(bn * d);
    let (oi, rest) = rest.split_at_mut(bn * d);
    let (kj, rest) = rest.split_at_mut(bs * d);
    let (vj, x) = rest.split_at_mut(bs * d);
    let ghost w0 = work_of(shared0, bn as nat, bs as nat, d as nat);
    let tiles: usize = div_ceil(req.n, bn);
    proof {
        let parts = tile_rows_of(qi@, oi@, kj@, vj@, x@, bn as nat, bs as nat, d as nat);
        assert(qi@ =~= shared0.subrange(0, bn * d));
        assert(oi@ =~= shared0.subrange(bn * d, bn * d + bn * d));
        assert(kj@ =~= shared0.subrange(bn * d + bn * d, bn * d + bn * d + bs * d));
        assert(vj@ =~= shared0.subrange(
            bn * d + bn * d + bs * d,
            bn * d + bn * d + bs * d + bs * d,
        ));
        assert(x@ =~= shared0.subrange(
            bn * d + bn * d + bs * d + bs * d,
            shared0.len() as int,
        ));
        assert(parts == w0);
    }
    let mut iqb: usize = 0;
    while iqb < tiles
        invariant
            functional::<T>(),
            b == block_of(cfg, cache_pages@, reqs@, ireq as int, head as int),
            b.cfg == cfg,
            req == b.req,
            d == cfg.d,
            bs == cfg.bs,
            bn > 0,
            iqb <= tiles,
            tiles == ceil_div(req.n as int, bn as int),
            mem@.len() == mem0.len(),
            b.attn_ok(mem@.len(), masks@.len()),
            qi@.len() == bn * d,
            oi@.len() == bn * d,
            kj@.len() == bs * d,
            vj@.len() == bs * d,
            x@.len() == bn * bs,
            mem@ == b.tiled(mem0, masks@, bn as int, iqb as nat),
            tile_rows_of(qi@, oi@, kj@, vj@, x@, bn as nat, bs as nat, d as nat) == b.tiled_work(
                w0,
                mem0,
                masks@,
                bn as int,
                iqb as nat,
            ),
        decreases tiles - iqb,
    {
        proof {
            lemma_ceil_div(req.n as int, bn as int);
            assert(iqb * bn < req.n);
            assert(iqb * bn >= 0) by (nonlinear_arith);
        }
        run_tile(
            &cfg,
            cache_pages,
            &req,
            head,
            bn,
            iqb * bn,
            masks,
            qi,
            oi,
            kj,
            vj,
            x,
            mem,
            Ghost(b),
        );
        iqb = iqb + 1;
    }
    proof {
        let all = qi@ + (oi@ + (kj@ + (vj@ + x@)));
        assert(all.subrange(0, bn * d) =~= qi@);
        assert(all.subrange(bn * d, bn * d + bn * d) =~= oi@);
        assert(all.subrange(bn * d + bn * d, bn * d + bn * d + bs * d) =~= kj@);
        assert(all.subrange(bn * d + bn * d + bs * d, bn * d + bn * d + bs * d + bs * d) =~= vj@);
        assert(all.subrange(bn * d + bn * d + bs * d + bs * d, all.len() as int) =~= x@);
        assert(work_of(all, bn as nat, bs as nat, d as nat) == tile_rows_of(
            qi@,
            oi@,
            kj@,
            vj@,
            x@,
            bn as nat,
            bs as nat,
            d as nat,
        ));
    }
}

} // verus!
