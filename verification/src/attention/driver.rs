//! A whole batch: every block of every request.
use crate::attention::batch::{
    blocks, blocks_spec, kernel_reqs_spec, masks_spec, page_table_spec, Attention, Batch,
};
use crate::attention::block::{work_len, Block};
use crate::attention::cpu::{block_of, cache_concat_block, flash_attn_block};
use crate::attention::{FlashAttnCfg, KVPage, KernelCfg, KernelReq};
use crate::memory::apply;
use crate::scalar::{functional, Scalar};
use vstd::prelude::*;

verus! {

/// A batch as the kernels see it.
pub struct BatchView<S> {
    pub cfg: KernelCfg<S>,
    pub pages: Seq<KVPage>,
    pub masks: Seq<bool>,
    pub reqs: Seq<KernelReq>,
}

impl<S> BatchView<S> {
    /// The block `id` of the batch: a request and a head.
    pub open spec fn block(self, id: (usize, usize)) -> Block<S> {
        block_of(self.cfg, self.pages, self.reqs, id.0 as int, id.1 as int)
    }

    /// One block that takes its rows into the cache.
    pub open spec fn concat_step<T>(self) -> spec_fn(Seq<T>, (usize, usize)) -> Seq<T> {
        |m: Seq<T>, id: (usize, usize)| apply(m, self.block(id).concat_moves::<T>())
    }

    /// The memory after the blocks `ids` have taken their new keys and values
    /// into the cache, one block after the other.
    pub open spec fn concatenated<T>(self, mem: Seq<T>, ids: Seq<(usize, usize)>) -> Seq<T> {
        ids.fold_left(mem, self.concat_step::<T>())
    }
}

impl<T: Scalar> BatchView<T> {
    /// One block of the attention.
    pub open spec fn attention_step(self, bn: int) -> spec_fn(Seq<T>, (usize, usize)) -> Seq<T> {
        |m: Seq<T>, id: (usize, usize)| self.block(id).attended(m, self.masks, bn)
    }

    /// The memory after the attention of the blocks `ids`, one block after the
    /// other, in tiles of `bn` query rows.
    pub open spec fn attended(self, mem: Seq<T>, bn: int, ids: Seq<(usize, usize)>) -> Seq<T> {
        ids.fold_left(mem, self.attention_step(bn))
    }
}

impl FlashAttnCfg {
    /// What the kernels see of the requests `reqs`, with the factor `scale`.
    pub open spec fn batch_view<S>(self, scale: S, reqs: Seq<Attention>) -> BatchView<S> {
        BatchView {
            cfg: KernelCfg { g: self.h / self.kvh, d: self.d, bs: self.tile_ctx, scale },
            pages: page_table_spec(reqs, self.tile_ctx as int, reqs.len()),
            masks: masks_spec(reqs, self.tile_ctx as int, reqs.len()),
            reqs: kernel_reqs_spec(reqs, self.tile_ctx as int),
        }
    }

    /// The memory once all new keys and values are in the cache.
    pub open spec fn filled<T>(self, scale: T, reqs: Seq<Attention>, mem: Seq<T>) -> Seq<T> {
        self.batch_view(scale, reqs).concatenated(
            mem,
            blocks_spec(reqs.len() as int, self.kvh as int),
        )
    }

    /// The memory after the batch.
    pub open spec fn computed<T: Scalar>(
        self,
        scale: T,
        reqs: Seq<Attention>,
        mem: Seq<T>,
    ) -> Seq<T> {
        self.batch_view(scale, reqs).attended(
            self.filled(scale, reqs, mem),
            self.tile_seq as int,
            blocks_spec(reqs.len() as int, self.h as int),
        )
    }

    /// The requests `reqs` can be computed in a memory of `len` elements.
    pub open spec fn computable<T: Scalar>(
        self,
        scale: T,
        reqs: Seq<Attention>,
        len: nat,
    ) -> bool {
        let view = self.batch_view(scale, reqs);
        &&& self.kvh > 0
        &&& self.h % self.kvh == 0
        &&& forall|i: int| 0 <= i < reqs.len() ==> #[trigger] reqs[i].ok(self.tile_ctx as int)
        &&& forall|id: (usize, usize)|
            id.0 < reqs.len() && id.1 < self.kvh ==> (#[trigger] view.block(id)).concat_ok::<T>(len)
        &&& forall|id: (usize, usize)|
            id.0 < reqs.len() && id.1 < self.h ==> (#[trigger] view.block(id)).attn_ok(
                len,
                view.masks.len(),
            )
        &&& reqs.len() > 0 && self.h > 0 ==> {
            &&& self.tile_seq > 0
            &&& work_len(self.tile_seq as int, self.tile_ctx as int, self.d as int) <= usize::MAX
        }
    }

    /// Takes the new keys and values of all requests into their caches, then
    /// computes the attention of every request and head.
    pub fn compute_cpu<T: Scalar>(&self, scale: T, reqs: &[Attention], mem: &mut [T])
        requires
            functional::<T>(),
            self.computable(scale, reqs@, old(mem)@.len()),
        ensures
            final(mem)@.len() == old(mem)@.len(),
            final(mem)@ == self.computed(scale, reqs@, old(mem)@),
    {
        let ghost view = self.batch_view(scale, reqs@);
        let scale_of = |_d: usize| -> (r: T)
            ensures
                r == scale,
            {
                scale
            };
        let cfg: KernelCfg<T> = self.to_kernel_cfg(scale_of);
        let batch: Batch = self.prepare(reqs);
        let len: usize = mem.len();
        let count: usize = batch.reqs.len();
        let kv_blocks: Vec<(usize, usize)> = blocks(count, self.kvh);
        let q_blocks: Vec<(usize, usize)> = blocks(count, self.h);
        let ghost kv_ids = kv_blocks@;
        let ghost q_ids = q_blocks@;
        assert(kv_ids.take(0).len() == 0);
        for i in 0..kv_blocks.len()
            invariant
                view == self.batch_view(scale, reqs@),
                view.cfg == cfg,
                view.pages == batch.pages@,
                view.reqs == batch.reqs@,
                view.reqs.len() == reqs@.len(),
                count == reqs@.len(),
                kv_ids == kv_blocks@,
                kv_ids == blocks_spec(count as int, self.kvh as int),
                len == mem@.len(),
                self.computable(scale, reqs@, len as nat),
                mem@ == view.concatenated(old(mem)@, kv_ids.take(i as int)),
        {
            let id: (usize, usize) = kv_blocks[i];
            proof {
                lemma_block_id(count as int, self.kvh as int, i as int);
                assert(kv_ids.take(i + 1).drop_last() =~= kv_ids.take(i as int));
                assert(view.block(id).concat_ok::<T>(len as nat));
            }
            cache_concat_block(
                cfg,
                batch.pages.as_slice(),
                batch.reqs.as_slice(),
                id.0,
                id.1,
                mem,
            );
        }
        assert(kv_ids.take(kv_ids.len() as int) =~= kv_ids);
        assert(q_ids.take(0).len() == 0);
        let ghost mem1 = mem@;
        for i in 0..q_blocks.len()
            invariant
                functional::<T>(),
                view == self.batch_view(scale, reqs@),
                view.cfg == cfg,
                view.pages == batch.pages@,
                view.masks == batch.masks@,
                view.reqs == batch.reqs@,
                view.reqs.len() == reqs@.len(),
                count == reqs@.len(),
                self.computable(scale, reqs@, len as nat),
                q_ids == q_blocks@,
                q_ids == blocks_spec(count as int, self.h as int),
                len == mem@.len(),
                mem@ == view.attended(mem1, self.tile_seq as int, q_ids.take(i as int)),
        {
            let id: (usize, usize) = q_blocks[i];
            proof {
                lemma_block_id(count as int, self.h as int, i as int);
                assert(q_ids.take(i + 1).drop_last() =~= q_ids.take(i as int));
                assert(view.block(id).attn_ok(len as nat, view.masks.len()));
            }
            let mut shared: Vec<T> = crate::attention::tile::filled(
                T::zero(),
                self.shared_elements(),
            );
            flash_attn_block(
                cfg,
                batch.pages.as_slice(),
                batch.reqs.as_slice(),
                id.0,
                id.1,
                self.tile_seq,
                shared.as_mut_slice(),
                batch.masks.as_slice(),
                mem,
            );
        }
        assert(q_ids.take(q_ids.len() as int) =~= q_ids);
    }
}

/// Block `i` of the list is a request and a head of the batch.
pub proof fn lemma_block_id(count: int, heads: int, i: int)
    requires
        0 <= count <= usize::MAX,
        0 <= heads <= usize::MAX,
        0 <= i < count * heads,
    ensures
        blocks_spec(count, heads)[i].0 == i / heads,
        blocks_spec(count, heads)[i].1 == i % heads,
        0 <= i / heads < count,
        0 <= i % heads < heads,
{
    assert(heads > 0) by (nonlinear_arith)
        requires
            0 < count * heads,
            count >= 0,
            heads >= 0,
    ;
    vstd::arithmetic::div_mod::lemma_fundamental_div_mod(i, heads);
    let q = i / heads;
    assert(0 <= q < count) by (nonlinear_arith)
        requires
            0 <= i < count * heads,
            i == heads * q + i % heads,
            0 <= i % heads < heads,
            heads > 0,
    ;
}

} // verus!
