//! A whole batch: what the driver computes for each query row.
use crate::attention::batch::{blocks_spec, masks_spec, Attention};
use crate::attention::block::Block;
use crate::attention::driver::BatchView;
use crate::attention::FlashAttnCfg;
use crate::laws::attention::attention_independent;
use crate::laws::batch::{blocks_are_all_pairs, heads_share_evenly, pages_hold_sequence};
use crate::laws::concat::{disjoint, unwritten_stays, within, written};
use crate::laws::exact::{all_fin, exact, rows_fin, softmax_attention};
use crate::laws::order::lemma_to_the_end;
use crate::memory::{apply, lemma_apply_len, read};
use crate::scalar::Scalar;
use vstd::prelude::*;

verus! {

/// What is left of a list without its item `k` is part of the list, and does not
/// hold that item if nothing is in the list twice.
proof fn lemma_others<A>(ids: Seq<A>, k: int)
    requires
        0 <= k < ids.len(),
        ids.no_duplicates(),
    ensures
        forall|x: A| ids.remove(k).contains(x) ==> ids.contains(x) && x != ids[k],
{
    let others = ids.remove(k);
    assert forall|x: A| others.contains(x) implies ids.contains(x) && x != ids[k] by {
        let i = choose|i: int| 0 <= i < others.len() && others[i] == x;
        if i < k {
            assert(ids[i] == x);
        } else {
            assert(ids[i + 1] == x);
        }
    }
}

impl<S> BatchView<S> {
    /// What no block writes stays as it was while rows are taken into the cache.
    pub proof fn lemma_concat_frame<T>(self, mem: Seq<T>, ids: Seq<(usize, usize)>, p: int)
        requires
            self.concat_ok::<T>(mem.len(), ids),
            0 <= p < mem.len(),
            forall|x: (usize, usize)|
                ids.contains(x) ==> !written((#[trigger] self.block(x)).concat_moves::<T>(), p),
        ensures
            self.concatenated(mem, ids)[p] == mem[p],
            self.concatenated(mem, ids).len() == mem.len(),
        decreases ids.len(),
    {
        if ids.len() > 0 {
            let rest = ids.drop_last();
            assert forall|x: (usize, usize)| rest.contains(x) implies ids.contains(x) by {
                let i = choose|i: int| 0 <= i < rest.len() && rest[i] == x;
                assert(ids[i] == x);
            }
            self.lemma_concat_frame(mem, rest, p);
            let last = ids.last();
            assert(ids.contains(last));
            let moves = self.block(last).concat_moves::<T>();
            self.block(last).lemma_moves_within::<T>(mem.len());
            lemma_apply_len(self.concatenated(mem, rest), moves);
            unwritten_stays(self.concatenated(mem, rest), moves, p);
        }
    }
}

impl<T: Scalar> BatchView<T> {
    /// What no block writes stays as it was during attention.
    pub proof fn lemma_attention_frame(
        self,
        mem: Seq<T>,
        bn: int,
        ids: Seq<(usize, usize)>,
        p: int,
    )
        requires
            bn > 0,
            self.attention_ok(mem.len(), ids),
            0 <= p < mem.len(),
            forall|x: (usize, usize)| ids.contains(x) ==> !(#[trigger] self.block(x)).writes(p),
        ensures
            self.attended(mem, bn, ids)[p] == mem[p],
        decreases ids.len(),
    {
        if ids.len() > 0 {
            let rest = ids.drop_last();
            assert forall|x: (usize, usize)| rest.contains(x) implies ids.contains(x) by {
                let i = choose|i: int| 0 <= i < rest.len() && rest[i] == x;
                assert(ids[i] == x);
            }
            self.lemma_attention_frame(mem, bn, rest, p);
            self.lemma_attention_len(mem, bn, rest);
            let last = ids.last();
            assert(ids.contains(last));
            self.block(last).attention_leaves_rest(
                self.attended(mem, bn, rest),
                self.masks,
                bn,
                p,
            );
        }
    }

    /// Attention leaves the length of the memory as it is.
    pub proof fn lemma_attention_len(self, mem: Seq<T>, bn: int, ids: Seq<(usize, usize)>)
        ensures
            self.attended(mem, bn, ids).len() == mem.len(),
        decreases ids.len(),
    {
        if ids.len() > 0 {
            self.lemma_attention_len(mem, bn, ids.drop_last());
            self.block(ids.last()).lemma_attended_len(
                self.attended(mem, bn, ids.drop_last()),
                self.masks,
                bn,
            );
        }
    }

    /// After the attention of all blocks, each output row holds the attention of
    /// its row on the memory as it was before, where no block writes what any
    /// block reads and no two output rows overlap.
    pub proof fn each_row_gets_its_attention(
        self,
        mem: Seq<T>,
        bn: int,
        ids: Seq<(usize, usize)>,
        id: (usize, usize),
        iq: int,
    )
        requires
            bn > 0,
            ids.no_duplicates(),
            ids.contains(id),
            self.attention_ok(mem.len(), ids),
            self.attention_apart(ids),
            forall|p: int| self.block(id).reads(p) ==> !self.block(id).writes(p),
            0 <= iq < self.block(id).req.n,
            forall|r: int|
                iq < r < self.block(id).req.n ==> disjoint(
                    self.block(id).o_at(iq),
                    #[trigger] self.block(id).o_at(r),
                    self.block(id).d(),
                ),
        ensures
            read(self.attended(mem, bn, ids), self.block(id).o_at(iq), self.block(id).d())
                == self.block(id).row(mem, self.masks, iq),
    {
        let b = self.block(id);
        let k = choose|k: int| 0 <= k < ids.len() && ids[k] == id;
        let others = ids.remove(k);
        lemma_others(ids, k);
        self.lemma_attention_commutes(mem.len(), bn, ids);
        lemma_to_the_end(
            self.attention_step(bn),
            |m: Seq<T>| m.len() == mem.len(),
            mem,
            ids,
            k,
        );
        let before = self.attended(mem, bn, others);
        self.lemma_attention_len(mem, bn, others);
        assert(self.attended(mem, bn, ids) == b.attended(before, self.masks, bn));
        b.lemma_reads_within(mem.len(), self.masks.len());
        assert forall|p: int| b.reads(p) implies before[p] == mem[p] by {
            assert forall|x: (usize, usize)| others.contains(x) implies !(
            #[trigger] self.block(x)).writes(p) by {
                assert(attention_independent(self.block(x), self.block(id)));
            }
            self.lemma_attention_frame(mem, bn, others, p);
        }
        b.output_rows_are_attention(before, self.masks, bn, iq);
        b.row_is_local(before, mem, self.masks, iq);
    }

    /// After all blocks have taken their rows into the cache, place `p` of the
    /// sequence of block `id` holds what it held before, or the new row that
    /// belongs there, where the rows are apart and no other block writes them.
    pub proof fn each_place_gets_its_row(
        self,
        mem: Seq<T>,
        ids: Seq<(usize, usize)>,
        id: (usize, usize),
        p: int,
    )
        requires
            ids.no_duplicates(),
            ids.contains(id),
            self.concat_ok::<T>(mem.len(), ids),
            self.concat_independent::<T>(ids),
            self.block(id).apart::<T>(),
            0 <= p < self.block(id).req.s,
            self.block(id).bs() > 0,
            self.block(id).cache_row_ok::<T>(
                mem.len(),
                id.1 as int,
                p / self.block(id).bs(),
                p % self.block(id).bs(),
            ),
            self.others_keep_off(ids, id),
        ensures
            read(
                self.concatenated(mem, ids),
                self.block(id).k_row::<T>(p),
                self.block(id).d(),
            ) == grown_key(self.block(id), mem, p),
            read(
                self.concatenated(mem, ids),
                self.block(id).v_row::<T>(p),
                self.block(id).d(),
            ) == grown_val(self.block(id), mem, p),
    {
        let c = self.block(id);
        let d = c.d();
        let k = choose|k: int| 0 <= k < ids.len() && ids[k] == id;
        let others = ids.remove(k);
        lemma_others(ids, k);
        self.lemma_concat_commutes::<T>(mem.len(), ids);
        lemma_to_the_end(
            self.concat_step::<T>(),
            |m: Seq<T>| m.len() == mem.len(),
            mem,
            ids,
            k,
        );
        let before = self.concatenated(mem, others);
        assert(self.concatenated(mem, ids) == apply(before, c.concat_moves::<T>()));
        let page = c.page(p / c.bs());
        let off = c.req.kv_strides.at(c.head, p % c.bs());
        let size = vstd::layout::size_of::<T>() as int;
        vstd::arithmetic::div_mod::lemma_div_pos_is_pos(page.k + off, size);
        vstd::arithmetic::div_mod::lemma_div_pos_is_pos(page.v + off, size);
        assert(before.len() == mem.len()) by {
            self.lemma_concat_len(mem, others);
        }
        c.cache_grows(before, p);
        if p < c.place(0) {
            assert forall|e: int| 0 <= e < d implies #[trigger] read(before, c.k_row::<T>(p), d)[e]
                == read(mem, c.k_row::<T>(p), d)[e] by {
                self.lemma_off(mem, ids, others, id, p, c.k_row::<T>(p) + e);
            }
            assert forall|e: int| 0 <= e < d implies #[trigger] read(before, c.v_row::<T>(p), d)[e]
                == read(mem, c.v_row::<T>(p), d)[e] by {
                self.lemma_off(mem, ids, others, id, p, c.v_row::<T>(p) + e);
            }
            assert(read(before, c.k_row::<T>(p), d) =~= read(mem, c.k_row::<T>(p), d));
            assert(read(before, c.v_row::<T>(p), d) =~= read(mem, c.v_row::<T>(p), d));
        } else {
            let i = p - c.place(0);
            assert(c.concat_row_ok::<T>(mem.len(), i));
            c.lemma_moves::<T>(c.req.n as nat);
            c.lemma_moves_within::<T>(mem.len());
            crate::attention::online::lemma_row_fits(i, c.req.n as int, d as int);
            let moves = c.concat_moves::<T>();
            assert forall|e: int| 0 <= e < d implies #[trigger] read(before, c.k_src::<T>(i), d)[e]
                == read(mem, c.k_src::<T>(i), d)[e] by {
                let a = 2 * (i * d) + 2 * e;
                assert(c.row_moves::<T>(i)[2 * e] == moves[a]);
                self.lemma_source(mem, ids, others, id, a);
            }
            assert forall|e: int| 0 <= e < d implies #[trigger] read(before, c.v_src::<T>(i), d)[e]
                == read(mem, c.v_src::<T>(i), d)[e] by {
                let a = 2 * (i * d) + 2 * e + 1;
                assert(c.row_moves::<T>(i)[2 * e + 1] == moves[a]);
                self.lemma_source(mem, ids, others, id, a);
            }
            assert(read(before, c.k_src::<T>(i), d) =~= read(mem, c.k_src::<T>(i), d));
            assert(read(before, c.v_src::<T>(i), d) =~= read(mem, c.v_src::<T>(i), d));
        }
    }

    /// No other block writes into the places of block `id`'s sequence.
    pub open spec fn others_keep_off(self, ids: Seq<(usize, usize)>, id: (usize, usize)) -> bool {
        forall|x: (usize, usize), p: int, t: int|
            ids.contains(x) && x != id && #[trigger] in_place(self.block(id), p, t) ==> !written(
                (#[trigger] self.block(x)).concat_moves::<T>(),
                t,
            )
    }

    /// Taking rows into the cache leaves the length of the memory as it is.
    pub proof fn lemma_concat_len(self, mem: Seq<T>, ids: Seq<(usize, usize)>)
        requires
            self.concat_ok::<T>(mem.len(), ids),
        ensures
            self.concatenated(mem, ids).len() == mem.len(),
        decreases ids.len(),
    {
        if ids.len() > 0 {
            let rest = ids.drop_last();
            assert forall|x: (usize, usize)| rest.contains(x) implies ids.contains(x) by {
                let i = choose|i: int| 0 <= i < rest.len() && rest[i] == x;
                assert(ids[i] == x);
            }
            self.lemma_concat_len(mem, rest);
            let last = ids.last();
            assert(ids.contains(last));
            self.block(last).lemma_moves_within::<T>(mem.len());
            lemma_apply_len(self.concatenated(mem, rest), self.block(last).concat_moves::<T>());
        }
    }

    proof fn lemma_off(
        self,
        mem: Seq<T>,
        ids: Seq<(usize, usize)>,
        others: Seq<(usize, usize)>,
        id: (usize, usize),
        p: int,
        t: int,
    )
        requires
            self.concat_ok::<T>(mem.len(), ids),
            self.others_keep_off(ids, id),
            forall|x: (usize, usize)| others.contains(x) ==> ids.contains(x) && x != id,
            in_place(self.block(id), p, t),
            0 <= t < mem.len(),
        ensures
            self.concatenated(mem, others)[t] == mem[t],
    {
        assert forall|x: (usize, usize)| others.contains(x) implies !written(
            (#[trigger] self.block(x)).concat_moves::<T>(),
            t,
        ) by {
            assert(in_place(self.block(id), p, t));
        }
        self.lemma_concat_frame(mem, others, t);
    }

    proof fn lemma_source(
        self,
        mem: Seq<T>,
        ids: Seq<(usize, usize)>,
        others: Seq<(usize, usize)>,
        id: (usize, usize),
        a: int,
    )
        requires
            self.concat_ok::<T>(mem.len(), ids),
            self.concat_independent::<T>(ids),
            ids.contains(id),
            forall|x: (usize, usize)| others.contains(x) ==> ids.contains(x) && x != id,
            0 <= a < self.block(id).concat_moves::<T>().len(),
            within(self.block(id).concat_moves::<T>(), mem.len()),
        ensures
            self.concatenated(mem, others)[self.block(id).concat_moves::<T>()[a].1]
                == mem[self.block(id).concat_moves::<T>()[a].1],
    {
        let moves = self.block(id).concat_moves::<T>();
        let t = moves[a].1;
        assert(crate::laws::parallel::copied(moves, t));
        assert forall|x: (usize, usize)| others.contains(x) implies !written(
            (#[trigger] self.block(x)).concat_moves::<T>(),
            t,
        ) by {
            assert(crate::laws::parallel::independent(
                self.block(x).concat_moves::<T>(),
                self.block(id).concat_moves::<T>(),
            ));
        }
        self.lemma_concat_frame(mem, others, t);
    }
}

/// Position `t` lies in the key or the value at place `p` of the block's sequence.
pub open spec fn in_place<T: Scalar>(b: Block<T>, p: int, t: int) -> bool {
    &&& 0 <= p < b.req.s
    &&& b.k_row::<T>(p) <= t < b.k_row::<T>(p) + b.d() || b.v_row::<T>(p) <= t < b.v_row::<T>(p)
        + b.d()
}

/// The key at place `p` of a sequence that grows by its new rows.
pub open spec fn grown_key<T, S>(b: Block<S>, mem: Seq<T>, p: int) -> Seq<T> {
    if p < b.place(0) {
        read(mem, b.k_row::<T>(p), b.d())
    } else {
        read(mem, b.k_src::<T>(p - b.place(0)), b.d())
    }
}

/// The value at place `p` of a sequence that grows by its new rows.
pub open spec fn grown_val<T, S>(b: Block<S>, mem: Seq<T>, p: int) -> Seq<T> {
    if p < b.place(0) {
        read(mem, b.v_row::<T>(p), b.d())
    } else {
        read(mem, b.v_src::<T>(p - b.place(0)), b.d())
    }
}

impl FlashAttnCfg {
    /// The block that takes the rows that query block `id` looks at into the cache.
    pub open spec fn kv_block(self, id: (usize, usize)) -> (usize, usize) {
        (id.0, (id.1 / (self.h / self.kvh)) as usize)
    }

    /// The tensors of the batch keep out of each other's way, as far as query
    /// row `iq` of block `id` is concerned: the blocks are independent, the
    /// sequence's places are apart and belong to it alone, and nothing is
    /// written over what is still to be read. One request whose tensors do not
    /// overlap is in order: see `apart_is_in_order`.
    pub open spec fn in_order<T: Scalar>(
        self,
        scale: T,
        reqs: Seq<Attention>,
        len: nat,
        id: (usize, usize),
        iq: int,
    ) -> bool {
        let view = self.batch_view(scale, reqs);
        let kv_ids = blocks_spec(reqs.len() as int, self.kvh as int);
        let ids = blocks_spec(reqs.len() as int, self.h as int);
        let b = view.block(id);
        &&& view.concat_ok::<T>(len, kv_ids)
        &&& view.concat_independent::<T>(kv_ids)
        &&& view.others_keep_off(kv_ids, self.kv_block(id))
        &&& view.block(self.kv_block(id)).apart::<T>()
        &&& view.attention_ok(len, ids)
        &&& view.attention_apart(ids)
        &&& forall|p: int| b.reads(p) ==> !b.writes(p)
        &&& forall|r: int|
            iq < r < b.req.n ==> disjoint(b.o_at(iq), #[trigger] b.o_at(r), b.d())
        &&& forall|x: (usize, usize), p: int|
            kv_ids.contains(x) && #[trigger] b.reads_query(iq, p) ==> !written(
                (#[trigger] view.block(x)).concat_moves::<T>(),
                p,
            )
    }

    /// What a batch whose tensors keep out of each other's way leaves in an output
    /// row, in any arithmetic: what the pages make of the query row as it was
    /// before, at whose places there are, up to the length of the sequence, the
    /// cache rows filled before and the new rows.
    pub proof fn each_row_sees_the_grown_cache<T: Scalar>(
        self,
        scale: T,
        reqs: Seq<Attention>,
        mem: Seq<T>,
        id: (usize, usize),
        iq: int,
    )
        requires
            self.kvh > 0,
            self.h % self.kvh == 0,
            self.tile_seq > 0,
            reqs.len() <= usize::MAX,
            id.0 < reqs.len(),
            id.1 < self.h,
            reqs[id.0 as int].ok(self.tile_ctx as int),
            masks_spec(reqs, self.tile_ctx as int, reqs.len()).len() <= usize::MAX,
            0 <= iq < reqs[id.0 as int].n(),
            self.in_order(scale, reqs, mem.len(), id, iq),
        ensures
            read(
                self.computed(scale, reqs, mem),
                self.batch_view(scale, reqs).block(id).o_at(iq),
                self.d as nat,
            ) == self.batch_view(scale, reqs).block(id).row(
                self.filled(scale, reqs, mem),
                self.batch_view(scale, reqs).masks,
                iq,
            ),
            self.batch_view(scale, reqs).block(id).query(self.filled(scale, reqs, mem), iq)
                == self.batch_view(scale, reqs).block(id).query(mem, iq),
            forall|p: int|
                0 <= p < reqs[id.0 as int].s() ==> #[trigger] self.batch_view(scale, reqs).block(
                    id,
                ).all_keys(self.filled(scale, reqs, mem))[p] == grown_key(
                    self.batch_view(scale, reqs).block(self.kv_block(id)),
                    mem,
                    p,
                ),
            forall|p: int|
                0 <= p < reqs[id.0 as int].s() ==> #[trigger] self.batch_view(scale, reqs).block(
                    id,
                ).all_vals(self.filled(scale, reqs, mem))[p] == grown_val(
                    self.batch_view(scale, reqs).block(self.kv_block(id)),
                    mem,
                    p,
                ),
    {
        let tile = self.tile_ctx as int;
        let req = reqs[id.0 as int];
        let view = self.batch_view(scale, reqs);
        let count = reqs.len() as int;
        let kv_ids = blocks_spec(count, self.kvh as int);
        let ids = blocks_spec(count, self.h as int);
        let kid = self.kv_block(id);
        let b = view.block(id);
        let c = view.block(kid);
        let mem1 = self.filled(scale, reqs, mem);
        heads_share_evenly(self.h as int, self.kvh as int, id.1 as int);
        assert(kid.1 == b.kv_head());
        blocks_are_all_pairs(count, self.h as int, id.0, id.1);
        blocks_are_all_pairs(count, self.kvh as int, kid.0, kid.1);
        view.lemma_concat_len(mem, kv_ids);
        assert(b.req.n == req.n());
        assert(b.req.s == req.s());
        view.each_row_gets_its_attention(mem1, self.tile_seq as int, ids, id, iq);
        // the query row is still there
        b.lemma_reads_within(mem.len(), view.masks.len());
        assert forall|t: int| 0 <= t < b.d() implies #[trigger] b.query(mem1, iq)[t] == b.query(
            mem,
            iq,
        )[t] by {
            let p = b.q_at(iq) + t;
            assert(b.reads_query(iq, p));
            assert(b.reads(p));
            view.lemma_concat_frame(mem, kv_ids, p);
        }
        assert(b.query(mem1, iq) =~= b.query(mem, iq));
        // the places of the sequence hold what they should
        pages_hold_sequence(req, tile);
        self.block_mask_is_causal(scale, reqs, id, iq);
        assert forall|p: int| 0 <= p < req.s() implies #[trigger] b.all_keys(mem1)[p] == grown_key(
            c,
            mem,
            p,
        ) && b.all_vals(mem1)[p] == grown_val(c, mem, p) by {
            let j = p / tile;
            let i = p % tile;
            vstd::arithmetic::div_mod::lemma_fundamental_div_mod(p, tile);
            assert(0 <= j < b.page_count()) by (nonlinear_arith)
                requires
                    tile > 0,
                    p == tile * j + i,
                    0 <= i < tile,
                    0 <= p < b.page_count() * tile,
            ;
            assert(b.cache_row_ok::<T>(mem.len(), b.kv_head(), j, i));
            assert(c.cache_row_ok::<T>(mem.len(), kid.1 as int, j, i));
            view.each_place_gets_its_row(mem, kv_ids, kid, p);
            assert(b.k_at::<T>(b.kv_head(), j, i) == c.k_row::<T>(p));
            assert(b.v_at::<T>(b.kv_head(), j, i) == c.v_row::<T>(p));
        }
        assert forall|p: int| 0 <= p < req.s() implies #[trigger] b.all_vals(mem1)[p] == grown_val(
            c,
            mem,
            p,
        ) by {
            assert(b.all_keys(mem1)[p] == grown_key(c, mem, p));
        }
    }

    /// In exact arithmetic, a batch whose tensors keep out of each other's way
    /// leaves in each output row the causal attention of that row: the softmax
    /// attention over the cache rows filled before and the new rows up to its
    /// own.
    ///
    /// The cache rows of a request are those in its pages as it counts them, from
    /// the head of the list: for the first request these are its own cache, for a
    /// later one they lie in the cache of the first. Requests that take new rows
    /// to the same places there get into each other's way.
    pub proof fn compute_is_causal_attention<T: Scalar>(
        self,
        fin: spec_fn(T) -> bool,
        scale: T,
        reqs: Seq<Attention>,
        mem: Seq<T>,
        id: (usize, usize),
        iq: int,
    )
        requires
            exact(fin),
            fin(scale),
            self.kvh > 0,
            self.h % self.kvh == 0,
            self.tile_seq > 0,
            reqs.len() <= usize::MAX,
            id.0 < reqs.len(),
            id.1 < self.h,
            reqs[id.0 as int].ok(self.tile_ctx as int),
            masks_spec(reqs, self.tile_ctx as int, reqs.len()).len() <= usize::MAX,
            0 <= iq < reqs[id.0 as int].n(),
            self.in_order(scale, reqs, mem.len(), id, iq),
            all_fin(fin, self.batch_view(scale, reqs).block(id).query(mem, iq)),
            rows_fin(
                fin,
                Seq::new(
                    (reqs[id.0 as int].pos + iq + 1) as nat,
                    |p: int|
                        grown_key(
                            self.batch_view(scale, reqs).block(self.kv_block(id)),
                            mem,
                            p,
                        ),
                ),
                self.d as nat,
            ),
            rows_fin(
                fin,
                self.batch_view(scale, reqs).block(id).all_vals(self.filled(scale, reqs, mem)),
                self.d as nat,
            ),
        ensures
            read(
                self.computed(scale, reqs, mem),
                self.batch_view(scale, reqs).block(id).o_at(iq),
                self.d as nat,
            ) == softmax_attention(
                scale,
                self.batch_view(scale, reqs).block(id).query(mem, iq),
                Seq::new(
                    (reqs[id.0 as int].pos + iq + 1) as nat,
                    |p: int|
                        grown_key(
                            self.batch_view(scale, reqs).block(self.kv_block(id)),
                            mem,
                            p,
                        ),
                ),
                Seq::new(
                    (reqs[id.0 as int].pos + iq + 1) as nat,
                    |p: int|
                        grown_val(
                            self.batch_view(scale, reqs).block(self.kv_block(id)),
                            mem,
                            p,
                        ),
                ),
                Seq::new((reqs[id.0 as int].pos + iq + 1) as nat, |p: int| true),
            ),
    {
        let req = reqs[id.0 as int];
        let b = self.batch_view(scale, reqs).block(id);
        let c = self.batch_view(scale, reqs).block(self.kv_block(id));
        let seen = req.pos + iq + 1;
        let mem1 = self.filled(scale, reqs, mem);
        self.each_row_sees_the_grown_cache(scale, reqs, mem, id, iq);
        pages_hold_sequence(req, self.tile_ctx as int);
        self.block_mask_is_causal(scale, reqs, id, iq);
        assert(b.all_keys(mem1).take(seen) =~= Seq::new(
            seen as nat,
            |p: int| grown_key(c, mem, p),
        ));
        assert(b.all_vals(mem1).take(seen) =~= Seq::new(
            seen as nat,
            |p: int| grown_val(c, mem, p),
        ));
        self.batch_is_causal_attention(fin, scale, reqs, id, mem1, iq);
    }

    /// Later rows have no influence on earlier ones: in exact arithmetic, two runs
    /// on the same requests give the same output rows below `t` of block `id`, if
    /// their memories agree on the query rows below `t` and on what the sequence
    /// holds up to there, filled before or new. What they hold beyond only has to
    /// be finite.
    pub proof fn later_rows_do_not_matter<T: Scalar>(
        self,
        fin: spec_fn(T) -> bool,
        scale: T,
        reqs: Seq<Attention>,
        a: Seq<T>,
        b: Seq<T>,
        id: (usize, usize),
        t: int,
        iq: int,
    )
        requires
            exact(fin),
            fin(scale),
            self.kvh > 0,
            self.h % self.kvh == 0,
            self.tile_seq > 0,
            reqs.len() <= usize::MAX,
            id.0 < reqs.len(),
            id.1 < self.h,
            reqs[id.0 as int].ok(self.tile_ctx as int),
            masks_spec(reqs, self.tile_ctx as int, reqs.len()).len() <= usize::MAX,
            0 <= iq < t <= reqs[id.0 as int].n(),
            a.len() == b.len(),
            self.in_order(scale, reqs, a.len(), id, iq),
            forall|i: int|
                0 <= i < t ==> #[trigger] self.batch_view(scale, reqs).block(id).query(a, i)
                    == self.batch_view(scale, reqs).block(id).query(b, i),
            forall|p: int|
                0 <= p < reqs[id.0 as int].pos + t ==> #[trigger] grown_key(
                    self.batch_view(scale, reqs).block(self.kv_block(id)),
                    a,
                    p,
                ) == grown_key(self.batch_view(scale, reqs).block(self.kv_block(id)), b, p),
            forall|p: int|
                0 <= p < reqs[id.0 as int].pos + t ==> #[trigger] grown_val(
                    self.batch_view(scale, reqs).block(self.kv_block(id)),
                    a,
                    p,
                ) == grown_val(self.batch_view(scale, reqs).block(self.kv_block(id)), b, p),
            all_fin(fin, self.batch_view(scale, reqs).block(id).query(a, iq)),
            rows_fin(
                fin,
                Seq::new(
                    (reqs[id.0 as int].pos + iq + 1) as nat,
                    |p: int|
                        grown_key(
                            self.batch_view(scale, reqs).block(self.kv_block(id)),
                            a,
                            p,
                        ),
                ),
                self.d as nat,
            ),
            rows_fin(
                fin,
                self.batch_view(scale, reqs).block(id).all_vals(self.filled(scale, reqs, a)),
                self.d as nat,
            ),
            rows_fin(
                fin,
                self.batch_view(scale, reqs).block(id).all_vals(self.filled(scale, reqs, b)),
                self.d as nat,
            ),
        ensures
            read(
                self.computed(scale, reqs, a),
                self.batch_view(scale, reqs).block(id).o_at(iq),
                self.d as nat,
            ) == read(
                self.computed(scale, reqs, b),
                self.batch_view(scale, reqs).block(id).o_at(iq),
                self.d as nat,
            ),
    {
        let c = self.batch_view(scale, reqs).block(self.kv_block(id));
        let seen = (reqs[id.0 as int].pos + iq + 1) as nat;
        assert(Seq::new(seen, |p: int| grown_key(c, a, p)) =~= Seq::new(
            seen,
            |p: int| grown_key(c, b, p),
        ));
        assert(Seq::new(seen, |p: int| grown_val(c, a, p)) =~= Seq::new(
            seen,
            |p: int| grown_val(c, b, p),
        ));
        assert(self.batch_view(scale, reqs).block(id).query(a, iq) == self.batch_view(
            scale,
            reqs,
        ).block(id).query(b, iq));
        self.compute_is_causal_attention(fin, scale, reqs, a, id, iq);
        self.compute_is_causal_attention(fin, scale, reqs, b, id, iq);
    }
}

} // verus!
