//! One request whose tensors do not overlap.
use crate::attention::batch::{blocks_spec, masks_spec, page_table_spec, Attention};
use crate::attention::block::{row_at, row_ok, Block};
use crate::attention::{FlashAttnCfg, Strides2D};
use crate::laws::attention::attention_independent;
use crate::laws::batch::{blocks_are_all_pairs, heads_share_evenly, pages_hold_sequence};
use crate::laws::concat::{disjoint, written};
use crate::laws::exact::{all_fin, exact, rows_fin, softmax_attention};
use crate::laws::parallel::{copied, independent};
use crate::laws::whole::{grown_key, grown_val, in_place};
use crate::memory::read;
use crate::scalar::Scalar;
use vstd::prelude::*;

verus! {

/// A row of a request's tensors: a head, and a row of it or, in the cache, a
/// place of the sequence.
pub enum Row {
    Query(int, int),
    NewKey(int, int),
    NewVal(int, int),
    Output(int, int),
    Key(int, int),
    Val(int, int),
}

impl Row {
    /// The row is one of the output or of the cache, which are written.
    pub open spec fn owned(self) -> bool {
        self is Output || self is Key || self is Val
    }
}

impl FlashAttnCfg {
    /// The request has the row. In the cache these are the places of all its
    /// pages, the padding included.
    pub open spec fn has_row(self, req: Attention, row: Row) -> bool {
        let places = req.page_count(self.tile_ctx as int) * self.tile_ctx;
        match row {
            Row::Query(head, i) => 0 <= head < self.h && 0 <= i < req.n(),
            Row::Output(head, i) => 0 <= head < self.h && 0 <= i < req.n(),
            Row::NewKey(head, i) => 0 <= head < self.kvh && 0 <= i < req.n(),
            Row::NewVal(head, i) => 0 <= head < self.kvh && 0 <= i < req.n(),
            Row::Key(head, p) => 0 <= head < self.kvh && 0 <= p < places,
            Row::Val(head, p) => 0 <= head < self.kvh && 0 <= p < places,
        }
    }

    /// The position of the row's first element.
    pub open spec fn row_pos<T>(self, req: Attention, row: Row) -> int {
        let tile = self.tile_ctx as int;
        match row {
            Row::Query(head, i) => row_at::<T>(req.q.base, req.q.strides_spec(), head, i),
            Row::Output(head, i) => row_at::<T>(req.o.base, req.o.strides_spec(), head, i),
            Row::NewKey(head, i) => row_at::<T>(req.k.base, req.k.strides_spec(), head, i),
            Row::NewVal(head, i) => row_at::<T>(req.v.base, req.v.strides_spec(), head, i),
            Row::Key(head, p) => row_at::<T>(
                req.cache.page_spec((p / tile) * tile).k,
                req.cache.cache_strides_spec(),
                head,
                p % tile,
            ),
            Row::Val(head, p) => row_at::<T>(
                req.cache.page_spec((p / tile) * tile).v,
                req.cache.cache_strides_spec(),
                head,
                p % tile,
            ),
        }
    }

    /// Position `t` lies in the row.
    pub open spec fn in_row<T>(self, req: Attention, row: Row, t: int) -> bool {
        &&& self.has_row(req, row)
        &&& self.row_pos::<T>(req, row) <= t < self.row_pos::<T>(req, row) + self.d
    }

    /// The tensors do not overlap: no row of the output or of the cache overlaps
    /// any other row. Rows that are only read may.
    pub open spec fn tensors_apart<T>(self, req: Attention) -> bool {
        forall|x: Row, y: Row|
            #![trigger self.row_pos::<T>(req, x), self.row_pos::<T>(req, y)]
            x.owned() && x != y && self.has_row(req, x) && self.has_row(req, y) ==> disjoint(
                self.row_pos::<T>(req, x),
                self.row_pos::<T>(req, y),
                self.d as nat,
            )
    }

    /// A position lies in one row only, if in one that is written.
    pub(crate) proof fn lemma_one_row<T>(self, req: Attention, x: Row, y: Row, t: int)
        requires
            self.tensors_apart::<T>(req),
            x.owned(),
            self.in_row::<T>(req, x, t),
            self.in_row::<T>(req, y, t),
        ensures
            x == y,
    {
        if x != y {
            assert(disjoint(self.row_pos::<T>(req, x), self.row_pos::<T>(req, y), self.d as nat));
        }
    }

    /// The block of the one request of a batch, for head `head`.
    pub open spec fn one_block<S>(self, scale: S, req: Attention, head: int) -> Block<S> {
        self.batch_view(scale, seq![req]).block((0, head as usize))
    }

    /// What the blocks of a batch of one request are.
    pub(crate) proof fn lemma_one_block<S>(self, scale: S, req: Attention, head: int)
        requires
            req.ok(self.tile_ctx as int),
            0 <= head <= usize::MAX,
        ensures
            self.one_block(scale, req, head).req == req.kernel_req(self.tile_ctx as int, 0),
            self.one_block(scale, req, head).head == head,
            self.one_block(scale, req, head).cfg.d == self.d,
            self.one_block(scale, req, head).cfg.bs == self.tile_ctx,
            self.one_block(scale, req, head).cfg.g == self.h / self.kvh,
            self.one_block(scale, req, head).cfg.scale == scale,
            self.one_block(scale, req, head).req.n == req.n(),
            self.one_block(scale, req, head).req.s == req.s(),
            self.one_block(scale, req, head).req.s_ceil == req.page_count(self.tile_ctx as int)
                * self.tile_ctx,
            0 < self.tile_ctx,
            0 <= req.n() <= req.s() <= req.page_count(self.tile_ctx as int) * self.tile_ctx,
            forall|j: int|
                0 <= j < req.page_count(self.tile_ctx as int) ==> #[trigger] self.one_block(
                    scale,
                    req,
                    head,
                ).page(j) == req.cache.page_spec(j * self.tile_ctx),
    {
        let tile = self.tile_ctx as int;
        let reqs = seq![req];
        pages_hold_sequence(req, tile);
        assert(page_table_spec(reqs, tile, 0) =~= Seq::empty());
        assert(page_table_spec(reqs, tile, 1) =~= req.pages(tile));
    }

    /// Place `p` of the sequence is row `p % tile` of page `p / tile`.
    pub(crate) proof fn lemma_place<S, T>(self, scale: S, req: Attention, block: int, head: int, p: int)
        requires
            req.ok(self.tile_ctx as int),
            0 <= block <= usize::MAX,
            0 <= p < req.page_count(self.tile_ctx as int) * self.tile_ctx,
        ensures
            0 <= p / (self.tile_ctx as int) < req.page_count(self.tile_ctx as int),
            0 <= p % (self.tile_ctx as int) < self.tile_ctx,
            self.one_block(scale, req, block).k_at::<T>(
                head,
                p / (self.tile_ctx as int),
                p % (self.tile_ctx as int),
            ) == self.row_pos::<T>(req, Row::Key(head, p)),
            self.one_block(scale, req, block).v_at::<T>(
                head,
                p / (self.tile_ctx as int),
                p % (self.tile_ctx as int),
            ) == self.row_pos::<T>(req, Row::Val(head, p)),
    {
        let tile = self.tile_ctx as int;
        let count = req.page_count(tile);
        self.lemma_one_block(scale, req, block);
        vstd::arithmetic::div_mod::lemma_fundamental_div_mod(p, tile);
        let j = p / tile;
        let i = p % tile;
        assert(0 <= j < count) by (nonlinear_arith)
            requires
                tile > 0,
                p == tile * j + i,
                0 <= i < tile,
                0 <= p < count * tile,
        ;
        assert(self.one_block(scale, req, block).page(j) == req.cache.page_spec(j * tile));
    }

    /// What a block of the request writes while rows are taken into the cache.
    proof fn lemma_taken_row<S, T>(self, scale: S, req: Attention, head: int, t: int) -> (row: Row)
        requires
            req.ok(self.tile_ctx as int),
            0 <= head < self.kvh,
            written(self.one_block(scale, req, head).concat_moves::<T>(), t),
        ensures
            self.in_row::<T>(req, row, t),
            ({
                ||| row matches Row::Key(a, p) && a == head && req.pos <= p < req.s()
                ||| row matches Row::Val(a, p) && a == head && req.pos <= p < req.s()
            }),
    {
        let b = self.one_block(scale, req, head);
        self.lemma_one_block(scale, req, head);
        let moves = b.concat_moves::<T>();
        let m = choose|m: int| 0 <= m < moves.len() && (#[trigger] moves[m]).0 == t;
        let (i, e) = b.lemma_move_of::<T>(b.req.n as nat, m);
        let p = b.place(i);
        self.lemma_place::<S, T>(scale, req, head, head, p);
        if e % 2 == 0 {
            Row::Key(head, p)
        } else {
            Row::Val(head, p)
        }
    }

    /// What a block of the request reads while rows are taken into the cache.
    proof fn lemma_copied_row<S, T>(
        self,
        scale: S,
        req: Attention,
        head: int,
        t: int,
    ) -> (row: Row)
        requires
            req.ok(self.tile_ctx as int),
            0 <= head < self.kvh,
            copied(self.one_block(scale, req, head).concat_moves::<T>(), t),
        ensures
            self.in_row::<T>(req, row, t),
            !row.owned(),
    {
        let b = self.one_block(scale, req, head);
        self.lemma_one_block(scale, req, head);
        let moves = b.concat_moves::<T>();
        let m = choose|m: int| 0 <= m < moves.len() && (#[trigger] moves[m]).1 == t;
        let (i, e) = b.lemma_move_of::<T>(b.req.n as nat, m);
        if e % 2 == 0 {
            Row::NewKey(head, i)
        } else {
            Row::NewVal(head, i)
        }
    }

    /// What a block of the request writes during attention.
    proof fn lemma_output_row<T: Scalar>(
        self,
        scale: T,
        req: Attention,
        head: int,
        t: int,
    ) -> (row: Row)
        requires
            req.ok(self.tile_ctx as int),
            0 <= head < self.h,
            self.one_block(scale, req, head).writes(t),
        ensures
            self.in_row::<T>(req, row, t),
            row matches Row::Output(a, iq) && a == head,
    {
        let b = self.one_block(scale, req, head);
        self.lemma_one_block(scale, req, head);
        let iq = choose|iq: int| 0 <= iq < b.req.n && #[trigger] b.in_output(iq, t);
        assert(b.in_output(iq, t));
        Row::Output(head, iq)
    }

    /// What a block of the request reads during attention.
    proof fn lemma_read_row<T: Scalar>(
        self,
        scale: T,
        req: Attention,
        head: int,
        t: int,
    ) -> (row: Row)
        requires
            req.ok(self.tile_ctx as int),
            self.kvh > 0,
            self.h % self.kvh == 0,
            0 <= head < self.h,
            self.one_block(scale, req, head).reads(t),
        ensures
            self.in_row::<T>(req, row, t),
            !(row is Output),
    {
        let b = self.one_block(scale, req, head);
        let tile = self.tile_ctx as int;
        self.lemma_one_block(scale, req, head);
        pages_hold_sequence(req, tile);
        heads_share_evenly(self.h as int, self.kvh as int, head);
        if exists|iq: int| #[trigger] b.reads_query(iq, t) {
            let iq = choose|iq: int| #[trigger] b.reads_query(iq, t);
            Row::Query(head, iq)
        } else {
            let (j, i) = choose|j: int, i: int| #[trigger] b.reads_cache(j, i, t);
            let p = j * tile + i;
            crate::attention::online::lemma_row_fits(j, req.page_count(tile), tile);
            vstd::arithmetic::div_mod::lemma_fundamental_div_mod_converse(p, tile, j, i);
            self.lemma_place::<T, T>(scale, req, head, b.kv_head(), p);
            let k = b.k_at::<T>(b.kv_head(), j, i);
            if k <= t < k + b.d() {
                Row::Key(b.kv_head(), p)
            } else {
                Row::Val(b.kv_head(), p)
            }
        }
    }

    /// The blocks that take rows into the cache keep out of each other's way.
    proof fn lemma_concat_apart<T: Scalar>(self, scale: T, req: Attention)
        requires
            req.ok(self.tile_ctx as int),
            self.tensors_apart::<T>(req),
        ensures
            self.batch_view(scale, seq![req]).concat_independent::<T>(
                blocks_spec(1, self.kvh as int),
            ),
    {
        let view = self.batch_view(scale, seq![req]);
        let ids = blocks_spec(1, self.kvh as int);
        assert forall|x: (usize, usize), y: (usize, usize)|
            ids.contains(x) && ids.contains(y) && x != y implies independent(
            (#[trigger] view.block(x)).concat_moves::<T>(),
            (#[trigger] view.block(y)).concat_moves::<T>(),
        ) by {
            blocks_are_all_pairs(1, self.kvh as int, x.0, x.1);
            blocks_are_all_pairs(1, self.kvh as int, y.0, y.1);
            let a = view.block(x).concat_moves::<T>();
            let b = view.block(y).concat_moves::<T>();
            assert(view.block(x) == self.one_block(scale, req, x.1 as int));
            assert(view.block(y) == self.one_block(scale, req, y.1 as int));
            assert forall|t: int|
                #![trigger written(a, t)]
                #![trigger written(b, t)]
                !(written(a, t) && (written(b, t) || copied(b, t))) && !(written(b, t) && copied(
                    a,
                    t,
                )) by {
                if written(a, t) {
                    let r = self.lemma_taken_row::<T, T>(scale, req, x.1 as int, t);
                    if written(b, t) {
                        let u = self.lemma_taken_row::<T, T>(scale, req, y.1 as int, t);
                        self.lemma_one_row::<T>(req, r, u, t);
                    }
                    if copied(b, t) {
                        let u = self.lemma_copied_row::<T, T>(scale, req, y.1 as int, t);
                        self.lemma_one_row::<T>(req, r, u, t);
                    }
                }
                if written(b, t) && copied(a, t) {
                    let r = self.lemma_taken_row::<T, T>(scale, req, y.1 as int, t);
                    let u = self.lemma_copied_row::<T, T>(scale, req, x.1 as int, t);
                    self.lemma_one_row::<T>(req, r, u, t);
                }
            }
        }
    }

    /// The places of a head's sequence are apart, and no other head writes them.
    proof fn lemma_places_apart<T: Scalar>(self, scale: T, req: Attention, head: int)
        requires
            req.ok(self.tile_ctx as int),
            self.tensors_apart::<T>(req),
            0 <= head < self.kvh,
        ensures
            self.one_block(scale, req, head).apart::<T>(),
            self.batch_view(scale, seq![req]).others_keep_off(
                blocks_spec(1, self.kvh as int),
                (0, head as usize),
            ),
    {
        let view = self.batch_view(scale, seq![req]);
        let ids = blocks_spec(1, self.kvh as int);
        let b = self.one_block(scale, req, head);
        let d = b.d();
        self.lemma_one_block(scale, req, head);
        assert forall|p: int| 0 <= p < req.s() implies #[trigger] b.k_row::<T>(p) == self.row_pos::<T>(
            req,
            Row::Key(head, p),
        ) by {
            self.lemma_place::<T, T>(scale, req, head, head, p);
        }
        assert forall|p: int| 0 <= p < req.s() implies #[trigger] b.v_row::<T>(p) == self.row_pos::<T>(
            req,
            Row::Val(head, p),
        ) by {
            self.lemma_place::<T, T>(scale, req, head, head, p);
        }
        assert forall|i: int| #[trigger] b.k_src::<T>(i) == self.row_pos::<T>(
            req,
            Row::NewKey(head, i),
        ) by {}
        assert forall|i: int| #[trigger] b.v_src::<T>(i) == self.row_pos::<T>(
            req,
            Row::NewVal(head, i),
        ) by {}
        assert(b.apart::<T>());
        assert forall|x: (usize, usize), p: int, t: int|
            ids.contains(x) && x != (0usize, head as usize) && #[trigger] in_place(
                view.block((0, head as usize)),
                p,
                t,
            ) implies !written((#[trigger] view.block(x)).concat_moves::<T>(), t) by {
            blocks_are_all_pairs(1, self.kvh as int, x.0, x.1);
            assert(view.block(x) == self.one_block(scale, req, x.1 as int));
            if written(view.block(x).concat_moves::<T>(), t) {
                let r = self.lemma_taken_row::<T, T>(scale, req, x.1 as int, t);
                let k = b.k_row::<T>(p);
                let u = if k <= t < k + d {
                    Row::Key(head, p)
                } else {
                    Row::Val(head, p)
                };
                assert(b.v_row::<T>(p) == self.row_pos::<T>(req, Row::Val(head, p)));
                assert(self.in_row::<T>(req, u, t));
                self.lemma_one_row::<T>(req, r, u, t);
            }
        }
    }

    /// The attention blocks keep out of each other's way, and none writes what it
    /// reads.
    proof fn lemma_attention_apart<T: Scalar>(self, scale: T, req: Attention)
        requires
            req.ok(self.tile_ctx as int),
            self.kvh > 0,
            self.h % self.kvh == 0,
            self.tensors_apart::<T>(req),
        ensures
            self.batch_view(scale, seq![req]).attention_apart(blocks_spec(1, self.h as int)),
            forall|head: int, t: int|
                0 <= head < self.h && #[trigger] self.one_block(scale, req, head).reads(t)
                    ==> !self.one_block(scale, req, head).writes(t),
    {
        let view = self.batch_view(scale, seq![req]);
        let ids = blocks_spec(1, self.h as int);
        assert forall|x: (usize, usize), y: (usize, usize)|
            ids.contains(x) && ids.contains(y) && x != y implies attention_independent(
            #[trigger] view.block(x),
            #[trigger] view.block(y),
        ) by {
            blocks_are_all_pairs(1, self.h as int, x.0, x.1);
            blocks_are_all_pairs(1, self.h as int, y.0, y.1);
            let a = view.block(x);
            let b = view.block(y);
            assert(a == self.one_block(scale, req, x.1 as int));
            assert(b == self.one_block(scale, req, y.1 as int));
            assert forall|t: int|
                #![trigger a.writes(t)]
                #![trigger b.writes(t)]
                !(a.writes(t) && (b.writes(t) || b.reads(t))) && !(b.writes(t) && a.reads(t)) by {
                if a.writes(t) {
                    let r = self.lemma_output_row(scale, req, x.1 as int, t);
                    if b.writes(t) {
                        let u = self.lemma_output_row(scale, req, y.1 as int, t);
                        self.lemma_one_row::<T>(req, r, u, t);
                    }
                    if b.reads(t) {
                        let u = self.lemma_read_row(scale, req, y.1 as int, t);
                        self.lemma_one_row::<T>(req, r, u, t);
                    }
                }
                if b.writes(t) && a.reads(t) {
                    let r = self.lemma_output_row(scale, req, y.1 as int, t);
                    let u = self.lemma_read_row(scale, req, x.1 as int, t);
                    self.lemma_one_row::<T>(req, r, u, t);
                }
            }
        }
        assert forall|head: int, t: int|
            0 <= head < self.h && #[trigger] self.one_block(scale, req, head).reads(t)
            implies !self.one_block(scale, req, head).writes(t) by {
            if self.one_block(scale, req, head).writes(t) {
                let r = self.lemma_output_row(scale, req, head, t);
                let u = self.lemma_read_row(scale, req, head, t);
                self.lemma_one_row::<T>(req, r, u, t);
            }
        }
    }

    /// A request that can be computed and whose tensors do not overlap is computed
    /// in order: nothing gets into the way of any of its query rows.
    pub proof fn apart_is_in_order<T: Scalar>(
        self,
        scale: T,
        req: Attention,
        len: nat,
        head: int,
        iq: int,
    )
        requires
            self.computable(scale, seq![req], len),
            self.tensors_apart::<T>(req),
            0 <= head < self.h,
            0 <= iq < req.n(),
        ensures
            self.in_order(scale, seq![req], len, (0, head as usize), iq),
    {
        let reqs = seq![req];
        let view = self.batch_view(scale, reqs);
        let kv_ids = blocks_spec(1, self.kvh as int);
        let ids = blocks_spec(1, self.h as int);
        let b = self.one_block(scale, req, head);
        assert(reqs[0].ok(self.tile_ctx as int));
        assert(req.ok(self.tile_ctx as int));
        self.lemma_one_block(scale, req, head);
        heads_share_evenly(self.h as int, self.kvh as int, head);
        let kid = self.kv_block((0, head as usize));
        assert forall|x: (usize, usize)| kv_ids.contains(x) implies (#[trigger] view.block(
            x,
        )).concat_ok::<T>(len) by {
            blocks_are_all_pairs(1, self.kvh as int, x.0, x.1);
        }
        assert forall|x: (usize, usize)| ids.contains(x) implies (#[trigger] view.block(
            x,
        )).attn_ok(len, view.masks.len()) by {
            blocks_are_all_pairs(1, self.h as int, x.0, x.1);
        }
        self.lemma_concat_apart(scale, req);
        self.lemma_places_apart(scale, req, kid.1 as int);
        self.lemma_attention_apart(scale, req);
        assert forall|t: int| b.reads(t) implies !b.writes(t) by {
            assert(self.one_block(scale, req, head).reads(t));
        }
        assert forall|r: int| iq < r < b.req.n implies disjoint(
            b.o_at(iq),
            #[trigger] b.o_at(r),
            b.d(),
        ) by {
            assert(b.o_at(iq) == self.row_pos::<T>(req, Row::Output(head, iq)));
            assert(b.o_at(r) == self.row_pos::<T>(req, Row::Output(head, r)));
        }
        assert forall|x: (usize, usize), t: int|
            kv_ids.contains(x) && #[trigger] b.reads_query(iq, t) implies !written(
            (#[trigger] view.block(x)).concat_moves::<T>(),
            t,
        ) by {
            blocks_are_all_pairs(1, self.kvh as int, x.0, x.1);
            assert(view.block(x) == self.one_block(scale, req, x.1 as int));
            if written(view.block(x).concat_moves::<T>(), t) {
                let r = self.lemma_taken_row::<T, T>(scale, req, x.1 as int, t);
                assert(self.in_row::<T>(req, Row::Query(head, iq), t));
                self.lemma_one_row::<T>(req, r, Row::Query(head, iq), t);
            }
        }
    }

    /// What the row holds.
    pub open spec fn row_of<T>(self, req: Attention, row: Row, mem: Seq<T>) -> Seq<T> {
        read(mem, self.row_pos::<T>(req, row), self.d as nat)
    }

    /// The row is written when the request is computed: an output row, or the
    /// place of a new row.
    pub open spec fn row_written(self, req: Attention, row: Row) -> bool {
        match row {
            Row::Output(head, i) => true,
            Row::Key(head, p) => req.pos <= p < req.s(),
            Row::Val(head, p) => req.pos <= p < req.s(),
            _ => false,
        }
    }

    /// Position `t` lies in a row that is written.
    pub open spec fn touched<T>(self, req: Attention, t: int) -> bool {
        exists|row: Row| #[trigger] self.in_row::<T>(req, row, t) && self.row_written(req, row)
    }

    /// The key at place `p` of head `head` once the new rows are in the cache.
    pub open spec fn key_after<T>(
        self,
        req: Attention,
        mem: Seq<T>,
        head: int,
        p: int,
    ) -> Seq<T> {
        if req.pos <= p < req.s() {
            self.row_of(req, Row::NewKey(head, p - req.pos), mem)
        } else {
            self.row_of(req, Row::Key(head, p), mem)
        }
    }

    /// The value at place `p` of head `head` once the new rows are in the cache.
    pub open spec fn val_after<T>(
        self,
        req: Attention,
        mem: Seq<T>,
        head: int,
        p: int,
    ) -> Seq<T> {
        if req.pos <= p < req.s() {
            self.row_of(req, Row::NewVal(head, p - req.pos), mem)
        } else {
            self.row_of(req, Row::Val(head, p), mem)
        }
    }

    /// The rows of the queries, of the new keys and values, and of the output of a
    /// request that can be computed lie in the memory.
    pub(crate) proof fn lemma_tensor_row<T: Scalar>(
        self,
        scale: T,
        req: Attention,
        len: nat,
        row: Row,
    )
        requires
            self.computable(scale, seq![req], len),
            self.has_row(req, row),
        ensures
            match row {
                Row::Query(head, i) => row_ok::<T>(
                    len,
                    req.q.base,
                    req.q.strides_spec(),
                    head,
                    i,
                    self.d as nat,
                ),
                Row::Output(head, i) => row_ok::<T>(
                    len,
                    req.o.base,
                    req.o.strides_spec(),
                    head,
                    i,
                    self.d as nat,
                ),
                Row::NewKey(head, i) => row_ok::<T>(
                    len,
                    req.k.base,
                    req.k.strides_spec(),
                    head,
                    i,
                    self.d as nat,
                ),
                Row::NewVal(head, i) => row_ok::<T>(
                    len,
                    req.v.base,
                    req.v.strides_spec(),
                    head,
                    i,
                    self.d as nat,
                ),
                _ => true,
            },
    {
        let view = self.batch_view(scale, seq![req]);
        assert(seq![req][0].ok(self.tile_ctx as int));
        match row {
            Row::Query(head, i) | Row::Output(head, i) => {
                let b = self.one_block(scale, req, head);
                self.lemma_one_block(scale, req, head);
                assert(b.attn_ok(len, view.masks.len()));
                assert(b.query_ok(len, view.masks.len(), i));
            },
            Row::NewKey(head, i) | Row::NewVal(head, i) => {
                let b = self.one_block(scale, req, head);
                self.lemma_one_block(scale, req, head);
                assert(b.concat_ok::<T>(len));
                assert(b.concat_row_ok::<T>(len, i));
            },
            _ => {},
        }
    }

    /// What of a request that can be computed is known to lie in the memory. The
    /// places that hold no new row do if there is a query row to look at them.
    pub(crate) proof fn lemma_row_inside<T: Scalar>(
        self,
        scale: T,
        req: Attention,
        len: nat,
        row: Row,
    )
        requires
            self.computable(scale, seq![req], len),
            self.has_row(req, row),
            (row is Key || row is Val) && !self.row_written(req, row) ==> self.h > 0 && req.n() > 0,
        ensures
            0 <= self.row_pos::<T>(req, row),
            self.row_pos::<T>(req, row) + self.d <= len,
    {
        let d = self.d as nat;
        self.lemma_tensor_row(scale, req, len, row);
        match row {
            Row::Query(head, i) => {
                lemma_row_ok::<T>(len, req.q.base, req.q.strides_spec(), head, i, d);
            },
            Row::Output(head, i) => {
                lemma_row_ok::<T>(len, req.o.base, req.o.strides_spec(), head, i, d);
            },
            Row::NewKey(head, i) => {
                lemma_row_ok::<T>(len, req.k.base, req.k.strides_spec(), head, i, d);
            },
            Row::NewVal(head, i) => {
                lemma_row_ok::<T>(len, req.v.base, req.v.strides_spec(), head, i, d);
            },
            Row::Key(head, p) => {
                self.lemma_place_inside(scale, req, len, head, p);
            },
            Row::Val(head, p) => {
                self.lemma_place_inside(scale, req, len, head, p);
            },
        }
    }

    proof fn lemma_place_inside<T: Scalar>(
        self,
        scale: T,
        req: Attention,
        len: nat,
        head: int,
        p: int,
    )
        requires
            self.computable(scale, seq![req], len),
            self.has_row(req, Row::Key(head, p)),
            req.pos <= p < req.s() || (self.h > 0 && req.n() > 0),
        ensures
            0 <= self.row_pos::<T>(req, Row::Key(head, p)),
            self.row_pos::<T>(req, Row::Key(head, p)) + self.d <= len,
            0 <= self.row_pos::<T>(req, Row::Val(head, p)),
            self.row_pos::<T>(req, Row::Val(head, p)) + self.d <= len,
    {
        let tile = self.tile_ctx as int;
        let view = self.batch_view(scale, seq![req]);
        assert(seq![req][0].ok(tile));
        let j = p / tile;
        let i = p % tile;
        self.lemma_place::<T, T>(scale, req, head, head, p);
        let b = self.one_block(scale, req, head);
        self.lemma_one_block(scale, req, head);
        assert(b.page(j) == req.cache.page_spec(j * tile));
        if req.pos <= p < req.s() {
            assert(b.concat_ok::<T>(len));
            assert(b.concat_row_ok::<T>(len, p - req.pos));
            assert(b.place(p - req.pos) == p);
        } else {
            let g = self.h as int / self.kvh as int;
            let qh = head * g;
            heads_share_evenly(self.h as int, self.kvh as int, 0);
            assert(0 <= qh < self.h && qh / g == head) by {
                crate::attention::online::lemma_row_fits(head, self.kvh as int, g);
                assert(g * self.kvh == self.kvh * g) by (nonlinear_arith);
                vstd::arithmetic::div_mod::lemma_fundamental_div_mod_converse(qh, g, head, 0);
            }
            let c = self.one_block(scale, req, qh);
            self.lemma_one_block(scale, req, qh);
            pages_hold_sequence(req, tile);
            assert(c.page(j) == req.cache.page_spec(j * tile));
            assert(c.attn_ok(len, view.masks.len()));
            assert(c.cache_row_ok::<T>(len, c.kv_head(), j, i));
        }
        lemma_row_ok::<T>(
            len,
            req.cache.page_spec(j * tile).k,
            req.cache.cache_strides_spec(),
            head,
            i,
            self.d as nat,
        );
        lemma_row_ok::<T>(
            len,
            req.cache.page_spec(j * tile).v,
            req.cache.cache_strides_spec(),
            head,
            i,
            self.d as nat,
        );
    }

    /// Computing a request leaves the length of the memory as it is.
    pub(crate) proof fn lemma_lengths<T: Scalar>(self, scale: T, req: Attention, mem: Seq<T>)
        requires
            self.computable(scale, seq![req], mem.len()),
        ensures
            self.filled(scale, seq![req], mem).len() == mem.len(),
            self.computed(scale, seq![req], mem).len() == mem.len(),
    {
        let view = self.batch_view(scale, seq![req]);
        let kv_ids = blocks_spec(1, self.kvh as int);
        assert forall|x: (usize, usize)| kv_ids.contains(x) implies (#[trigger] view.block(
            x,
        )).concat_ok::<T>(mem.len()) by {
            blocks_are_all_pairs(1, self.kvh as int, x.0, x.1);
        }
        view.lemma_concat_len(mem, kv_ids);
        view.lemma_attention_len(
            self.filled(scale, seq![req], mem),
            self.tile_seq as int,
            blocks_spec(1, self.h as int),
        );
    }

    /// Taking the new rows into the cache changes nothing but their places.
    proof fn lemma_filled_rest<T: Scalar>(self, scale: T, req: Attention, mem: Seq<T>, t: int)
        requires
            self.computable(scale, seq![req], mem.len()),
            0 <= t < mem.len(),
            forall|row: Row| #[trigger]
                self.in_row::<T>(req, row, t) && self.row_written(req, row) ==> row is Output,
        ensures
            self.filled(scale, seq![req], mem)[t] == mem[t],
    {
        let view = self.batch_view(scale, seq![req]);
        let kv_ids = blocks_spec(1, self.kvh as int);
        assert(seq![req][0].ok(self.tile_ctx as int));
        assert forall|x: (usize, usize)| kv_ids.contains(x) implies (#[trigger] view.block(
            x,
        )).concat_ok::<T>(mem.len()) by {
            blocks_are_all_pairs(1, self.kvh as int, x.0, x.1);
        }
        assert forall|x: (usize, usize)| kv_ids.contains(x) implies !written(
            (#[trigger] view.block(x)).concat_moves::<T>(),
            t,
        ) by {
            blocks_are_all_pairs(1, self.kvh as int, x.0, x.1);
            assert(view.block(x) == self.one_block(scale, req, x.1 as int));
            if written(view.block(x).concat_moves::<T>(), t) {
                let r = self.lemma_taken_row::<T, T>(scale, req, x.1 as int, t);
                assert(self.in_row::<T>(req, r, t));
            }
        }
        view.lemma_concat_frame(mem, kv_ids, t);
    }

    /// Attention changes nothing but the output rows.
    proof fn lemma_computed_rest<T: Scalar>(self, scale: T, req: Attention, mem: Seq<T>, t: int)
        requires
            self.computable(scale, seq![req], mem.len()),
            0 <= t < mem.len(),
            forall|row: Row| #[trigger] self.in_row::<T>(req, row, t) ==> !(row is Output),
        ensures
            self.computed(scale, seq![req], mem)[t] == self.filled(scale, seq![req], mem)[t],
    {
        let view = self.batch_view(scale, seq![req]);
        let ids = blocks_spec(1, self.h as int);
        assert(seq![req][0].ok(self.tile_ctx as int));
        self.lemma_lengths(scale, req, mem);
        if self.h > 0 {
            assert forall|x: (usize, usize)| ids.contains(x) implies (#[trigger] view.block(
                x,
            )).attn_ok(mem.len(), view.masks.len()) by {
                blocks_are_all_pairs(1, self.h as int, x.0, x.1);
            }
            assert forall|x: (usize, usize)| ids.contains(x) implies !(#[trigger] view.block(
                x,
            )).writes(t) by {
                blocks_are_all_pairs(1, self.h as int, x.0, x.1);
                assert(view.block(x) == self.one_block(scale, req, x.1 as int));
                if view.block(x).writes(t) {
                    let r = self.lemma_output_row(scale, req, x.1 as int, t);
                    assert(self.in_row::<T>(req, r, t));
                }
            }
            view.lemma_attention_frame(
                self.filled(scale, seq![req], mem),
                self.tile_seq as int,
                ids,
                t,
            );
        }
    }

    /// Computing a request changes nothing but its output rows and the places of
    /// its new rows.
    pub proof fn request_leaves_rest<T: Scalar>(
        self,
        scale: T,
        req: Attention,
        mem: Seq<T>,
        t: int,
    )
        requires
            self.computable(scale, seq![req], mem.len()),
            0 <= t < mem.len(),
            !self.touched::<T>(req, t),
        ensures
            self.computed(scale, seq![req], mem)[t] == mem[t],
    {
        self.lemma_filled_rest(scale, req, mem, t);
        assert forall|row: Row| #[trigger] self.in_row::<T>(req, row, t) implies !(row is Output) by {
            assert(row is Output ==> self.row_written(req, row));
        }
        self.lemma_computed_rest(scale, req, mem, t);
    }

    /// Once the new rows are in the cache, each place holds its new row or what it
    /// held before.
    pub(crate) proof fn lemma_filled_place<T: Scalar>(
        self,
        scale: T,
        req: Attention,
        mem: Seq<T>,
        head: int,
        p: int,
    )
        requires
            self.computable(scale, seq![req], mem.len()),
            self.tensors_apart::<T>(req),
            self.has_row(req, Row::Key(head, p)),
            req.pos <= p < req.s() || (self.h > 0 && req.n() > 0),
        ensures
            self.row_of(req, Row::Key(head, p), self.filled(scale, seq![req], mem))
                == self.key_after(req, mem, head, p),
            self.row_of(req, Row::Val(head, p), self.filled(scale, seq![req], mem))
                == self.val_after(req, mem, head, p),
    {
        let tile = self.tile_ctx as int;
        let d = self.d as nat;
        let view = self.batch_view(scale, seq![req]);
        let kv_ids = blocks_spec(1, self.kvh as int);
        let b = self.one_block(scale, req, head);
        let after = self.filled(scale, seq![req], mem);
        assert(seq![req][0].ok(tile));
        self.lemma_one_block(scale, req, head);
        self.lemma_place::<T, T>(scale, req, head, head, p);
        self.lemma_place_inside(scale, req, mem.len(), head, p);
        if req.pos <= p < req.s() {
            let id = (0usize, head as usize);
            blocks_are_all_pairs(1, self.kvh as int, id.0, id.1);
            assert forall|x: (usize, usize)| kv_ids.contains(x) implies (#[trigger] view.block(
                x,
            )).concat_ok::<T>(mem.len()) by {
                blocks_are_all_pairs(1, self.kvh as int, x.0, x.1);
            }
            self.lemma_concat_apart(scale, req);
            self.lemma_places_apart(scale, req, head);
            assert(b.concat_ok::<T>(mem.len()));
            assert(b.concat_row_ok::<T>(mem.len(), p - req.pos));
            assert(b.place(p - req.pos) == p);
            view.each_place_gets_its_row(mem, kv_ids, id, p);
        } else {
            let k = self.row_pos::<T>(req, Row::Key(head, p));
            let v = self.row_pos::<T>(req, Row::Val(head, p));
            assert forall|e: int| 0 <= e < d implies #[trigger] read(after, k, d)[e] == read(
                mem,
                k,
                d,
            )[e] by {
                let t = k + e;
                assert(self.in_row::<T>(req, Row::Key(head, p), t));
                assert forall|row: Row| #[trigger]
                    self.in_row::<T>(req, row, t) && self.row_written(req, row) implies row is Output by {
                    self.lemma_one_row::<T>(req, Row::Key(head, p), row, t);
                }
                self.lemma_filled_rest(scale, req, mem, t);
            }
            assert forall|e: int| 0 <= e < d implies #[trigger] read(after, v, d)[e] == read(
                mem,
                v,
                d,
            )[e] by {
                let t = v + e;
                assert(self.in_row::<T>(req, Row::Val(head, p), t));
                assert forall|row: Row| #[trigger]
                    self.in_row::<T>(req, row, t) && self.row_written(req, row) implies row is Output by {
                    self.lemma_one_row::<T>(req, Row::Val(head, p), row, t);
                }
                self.lemma_filled_rest(scale, req, mem, t);
            }
            assert(read(after, k, d) =~= read(mem, k, d));
            assert(read(after, v, d) =~= read(mem, v, d));
        }
    }

    /// Once a request is computed, each place of its pages holds its new row or
    /// what it held before.
    pub proof fn request_takes_its_rows<T: Scalar>(
        self,
        scale: T,
        req: Attention,
        mem: Seq<T>,
        head: int,
        p: int,
    )
        requires
            self.computable(scale, seq![req], mem.len()),
            self.tensors_apart::<T>(req),
            self.has_row(req, Row::Key(head, p)),
            req.pos <= p < req.s() || (self.h > 0 && req.n() > 0),
        ensures
            self.row_of(req, Row::Key(head, p), self.computed(scale, seq![req], mem))
                == self.key_after(req, mem, head, p),
            self.row_of(req, Row::Val(head, p), self.computed(scale, seq![req], mem))
                == self.val_after(req, mem, head, p),
    {
        let d = self.d as nat;
        let filled = self.filled(scale, seq![req], mem);
        let after = self.computed(scale, seq![req], mem);
        let k = self.row_pos::<T>(req, Row::Key(head, p));
        let v = self.row_pos::<T>(req, Row::Val(head, p));
        self.lemma_filled_place(scale, req, mem, head, p);
        self.lemma_place_inside(scale, req, mem.len(), head, p);
        assert forall|e: int| 0 <= e < d implies #[trigger] read(after, k, d)[e] == read(
            filled,
            k,
            d,
        )[e] by {
            let t = k + e;
            assert(self.in_row::<T>(req, Row::Key(head, p), t));
            assert forall|row: Row| #[trigger] self.in_row::<T>(req, row, t) implies !(
            row is Output) by {
                self.lemma_one_row::<T>(req, Row::Key(head, p), row, t);
            }
            self.lemma_computed_rest(scale, req, mem, t);
        }
        assert forall|e: int| 0 <= e < d implies #[trigger] read(after, v, d)[e] == read(
            filled,
            v,
            d,
        )[e] by {
            let t = v + e;
            assert(self.in_row::<T>(req, Row::Val(head, p), t));
            assert forall|row: Row| #[trigger] self.in_row::<T>(req, row, t) implies !(
            row is Output) by {
                self.lemma_one_row::<T>(req, Row::Val(head, p), row, t);
            }
            self.lemma_computed_rest(scale, req, mem, t);
        }
        assert(read(after, k, d) =~= read(filled, k, d));
        assert(read(after, v, d) =~= read(filled, v, d));
    }

    /// The key and value head that query head `head` looks at.
    pub open spec fn kv_of(self, head: int) -> int {
        head / (self.h as int / self.kvh as int)
    }

    /// In exact arithmetic, a request whose tensors do not overlap gets in each
    /// output row the causal attention of that row: the softmax attention over the
    /// places up to its own, of which those from `pos` on hold the new rows.
    pub proof fn request_is_causal_attention<T: Scalar>(
        self,
        fin: spec_fn(T) -> bool,
        scale: T,
        req: Attention,
        mem: Seq<T>,
        head: int,
        iq: int,
    )
        requires
            exact(fin),
            fin(scale),
            self.computable(scale, seq![req], mem.len()),
            self.tensors_apart::<T>(req),
            0 <= head < self.h,
            0 <= iq < req.n(),
            all_fin(fin, self.row_of(req, Row::Query(head, iq), mem)),
            forall|p: int|
                0 <= p <= req.pos + iq ==> all_fin(
                    fin,
                    #[trigger] self.key_after(req, mem, self.kv_of(head), p),
                ),
            forall|p: int|
                0 <= p < req.page_count(self.tile_ctx as int) * self.tile_ctx ==> all_fin(
                    fin,
                    #[trigger] self.val_after(req, mem, self.kv_of(head), p),
                ),
        ensures
            self.row_of(req, Row::Output(head, iq), self.computed(scale, seq![req], mem))
                == softmax_attention(
                scale,
                self.row_of(req, Row::Query(head, iq), mem),
                Seq::new(
                    (req.pos + iq + 1) as nat,
                    |p: int| self.key_after(req, mem, self.kv_of(head), p),
                ),
                Seq::new(
                    (req.pos + iq + 1) as nat,
                    |p: int| self.val_after(req, mem, self.kv_of(head), p),
                ),
                Seq::new((req.pos + iq + 1) as nat, |p: int| true),
            ),
    {
        let tile = self.tile_ctx as int;
        let d = self.d as nat;
        let reqs = seq![req];
        let view = self.batch_view(scale, reqs);
        let id = (0usize, head as usize);
        let kv = self.kv_of(head);
        let seen = (req.pos + iq + 1) as nat;
        let b = self.one_block(scale, req, head);
        let c = self.one_block(scale, req, kv);
        let filled = self.filled(scale, reqs, mem);
        assert(reqs[0].ok(tile));
        heads_share_evenly(self.h as int, self.kvh as int, head);
        self.lemma_one_block(scale, req, head);
        self.lemma_one_block(scale, req, kv);
        self.apart_is_in_order(scale, req, mem.len(), head, iq);
        assert(self.kv_block(id) == (0usize, kv as usize));
        assert(view.block(self.kv_block(id)) == c);
        let keys = Seq::new(seen, |p: int| grown_key(c, mem, p));
        let vals = Seq::new(seen, |p: int| grown_val(c, mem, p));
        assert forall|p: int| 0 <= p < seen implies #[trigger] keys[p] == self.key_after(
            req,
            mem,
            kv,
            p,
        ) by {
            self.lemma_place::<T, T>(scale, req, kv, kv, p);
        }
        assert forall|p: int| 0 <= p < seen implies #[trigger] vals[p] == self.val_after(
            req,
            mem,
            kv,
            p,
        ) by {
            self.lemma_place::<T, T>(scale, req, kv, kv, p);
        }
        assert(keys =~= Seq::new(seen, |p: int| self.key_after(req, mem, kv, p)));
        assert(vals =~= Seq::new(seen, |p: int| self.val_after(req, mem, kv, p)));
        assert(rows_fin(fin, keys, d)) by {
            assert forall|i: int, j: int| 0 <= i < keys.len() && 0 <= j < d implies fin(
                #[trigger] keys[i][j],
            ) by {
                assert(all_fin(fin, self.key_after(req, mem, kv, i)));
            }
        }
        pages_hold_sequence(req, tile);
        assert(rows_fin(fin, b.all_vals(filled), d)) by {
            assert forall|i: int, j: int|
                0 <= i < b.all_vals(filled).len() && 0 <= j < d implies fin(
                #[trigger] b.all_vals(filled)[i][j],
            ) by {
                self.lemma_place::<T, T>(scale, req, head, kv, i);
                self.lemma_filled_place(scale, req, mem, kv, i);
                assert(b.all_vals(filled)[i] == self.val_after(req, mem, kv, i));
                assert(all_fin(fin, self.val_after(req, mem, kv, i)));
            }
        }
        assert(masks_spec(reqs, tile, 0) =~= Seq::empty());
        assert(masks_spec(reqs, tile, 1) =~= req.mask(tile));
        self.compute_is_causal_attention(fin, scale, reqs, mem, id, iq);
    }

    /// What the computation of a request reads is finite.
    pub open spec fn finite<T>(self, fin: spec_fn(T) -> bool, req: Attention, mem: Seq<T>) -> bool {
        let places = req.page_count(self.tile_ctx as int) * self.tile_ctx;
        &&& forall|head: int, i: int|
            0 <= head < self.h && 0 <= i < req.n() ==> all_fin(
                fin,
                #[trigger] self.row_of(req, Row::Query(head, i), mem),
            )
        &&& forall|head: int, p: int|
            0 <= head < self.kvh && 0 <= p < req.s() ==> all_fin(
                fin,
                #[trigger] self.key_after(req, mem, head, p),
            )
        &&& forall|head: int, p: int|
            0 <= head < self.kvh && 0 <= p < places ==> all_fin(
                fin,
                #[trigger] self.val_after(req, mem, head, p),
            )
    }

    /// A row's output never depends on later rows: in exact arithmetic, two runs
    /// of a request give the same output rows below `t` if they agree on the rows
    /// below `t` of its queries, new keys and new values, and on the cache rows
    /// filled before. All else only has to be finite.
    pub proof fn request_is_causal<T: Scalar>(
        self,
        fin: spec_fn(T) -> bool,
        scale: T,
        req: Attention,
        a: Seq<T>,
        b: Seq<T>,
        t: int,
        head: int,
        iq: int,
    )
        requires
            exact(fin),
            fin(scale),
            a.len() == b.len(),
            self.computable(scale, seq![req], a.len()),
            self.tensors_apart::<T>(req),
            self.finite(fin, req, a),
            self.finite(fin, req, b),
            0 <= head < self.h,
            0 <= iq < t <= req.n(),
            forall|hd: int, i: int|
                0 <= hd < self.h && 0 <= i < t ==> #[trigger] self.row_of(
                    req,
                    Row::Query(hd, i),
                    a,
                ) == self.row_of(req, Row::Query(hd, i), b),
            forall|hd: int, i: int|
                0 <= hd < self.kvh && 0 <= i < t ==> #[trigger] self.row_of(
                    req,
                    Row::NewKey(hd, i),
                    a,
                ) == self.row_of(req, Row::NewKey(hd, i), b),
            forall|hd: int, i: int|
                0 <= hd < self.kvh && 0 <= i < t ==> #[trigger] self.row_of(
                    req,
                    Row::NewVal(hd, i),
                    a,
                ) == self.row_of(req, Row::NewVal(hd, i), b),
            forall|hd: int, p: int|
                0 <= hd < self.kvh && 0 <= p < req.pos ==> #[trigger] self.row_of(
                    req,
                    Row::Key(hd, p),
                    a,
                ) == self.row_of(req, Row::Key(hd, p), b),
            forall|hd: int, p: int|
                0 <= hd < self.kvh && 0 <= p < req.pos ==> #[trigger] self.row_of(
                    req,
                    Row::Val(hd, p),
                    a,
                ) == self.row_of(req, Row::Val(hd, p), b),
        ensures
            self.row_of(req, Row::Output(head, iq), self.computed(scale, seq![req], a))
                == self.row_of(req, Row::Output(head, iq), self.computed(scale, seq![req], b)),
    {
        let kv = self.kv_of(head);
        let seen = (req.pos + iq + 1) as nat;
        heads_share_evenly(self.h as int, self.kvh as int, head);
        self.request_is_causal_attention(fin, scale, req, a, head, iq);
        self.request_is_causal_attention(fin, scale, req, b, head, iq);
        assert(self.row_of(req, Row::Query(head, iq), a) == self.row_of(
            req,
            Row::Query(head, iq),
            b,
        ));
        assert forall|p: int| 0 <= p < seen implies #[trigger] self.key_after(req, a, kv, p)
            == self.key_after(req, b, kv, p) by {
            if p < req.pos {
                assert(self.row_of(req, Row::Key(kv, p), a) == self.row_of(req, Row::Key(kv, p), b));
            } else {
                let i = p - req.pos;
                assert(self.row_of(req, Row::NewKey(kv, i), a) == self.row_of(
                    req,
                    Row::NewKey(kv, i),
                    b,
                ));
            }
        }
        assert forall|p: int| 0 <= p < seen implies #[trigger] self.val_after(req, a, kv, p)
            == self.val_after(req, b, kv, p) by {
            if p < req.pos {
                assert(self.row_of(req, Row::Val(kv, p), a) == self.row_of(req, Row::Val(kv, p), b));
            } else {
                let i = p - req.pos;
                assert(self.row_of(req, Row::NewVal(kv, i), a) == self.row_of(
                    req,
                    Row::NewVal(kv, i),
                    b,
                ));
            }
        }
        assert(Seq::new(seen, |p: int| self.key_after(req, a, kv, p)) =~= Seq::new(
            seen,
            |p: int| self.key_after(req, b, kv, p),
        ));
        assert(Seq::new(seen, |p: int| self.val_after(req, a, kv, p)) =~= Seq::new(
            seen,
            |p: int| self.val_after(req, b, kv, p),
        ));
    }
}

/// A row that lies in a memory starts and ends within it.
proof fn lemma_row_ok<T>(
    len: nat,
    base: usize,
    strides: Strides2D,
    head: int,
    seq: int,
    d: nat,
)
    requires
        row_ok::<T>(len, base, strides, head, seq, d),
    ensures
        0 <= row_at::<T>(base, strides, head, seq),
        row_at::<T>(base, strides, head, seq) + d <= len,
{
    vstd::arithmetic::div_mod::lemma_div_pos_is_pos(
        base + strides.at(head, seq),
        vstd::layout::size_of::<T>() as int,
    );
}

} // verus!
