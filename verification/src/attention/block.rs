//! What a kernel block reads and writes: one request and one head.
use crate::attention::online::{fresh, output, page_step, rows, scores, weights, RowState};
use crate::attention::{KVPage, KernelCfg, KernelReq, Strides2D};
use crate::ceil::ceil_div;
use crate::memory::{elem, put, read, spans, Move};
use crate::scalar::{zero, Scalar};
use vstd::prelude::*;

verus! {

/// The position of the first element of row `seq` of head `head` of the tensor
/// at byte address `base`.
pub open spec fn row_at<T>(base: usize, strides: Strides2D, head: int, seq: int) -> int {
    elem::<T>(base + strides.at(head, seq))
}

/// Row `seq` of head `head` of the tensor at byte address `base`, a row of `d`
/// elements, lies in a memory of `len` elements.
pub open spec fn row_ok<T>(
    len: nat,
    base: usize,
    strides: Strides2D,
    head: int,
    seq: int,
    d: nat,
) -> bool {
    &&& strides.fits(head, seq)
    &&& spans::<T>(len, base + strides.at(head, seq), d)
}

/// The workspace of a block: rows of queries, of outputs, of keys, of values
/// and of weights, one kind after the other.
pub struct Work<T> {
    pub q: Seq<Seq<T>>,
    pub o: Seq<Seq<T>>,
    pub k: Seq<Seq<T>>,
    pub v: Seq<Seq<T>>,
    pub x: Seq<Seq<T>>,
}

/// Elements of a workspace for `bn` query rows and pages of `bs` rows, each of
/// `d` elements.
pub open spec fn work_len(bn: int, bs: int, d: int) -> int {
    bn * d + bn * d + bs * d + bs * d + bn * bs
}

/// What the elements `buf` are as a workspace.
pub open spec fn work_of<T>(buf: Seq<T>, bn: nat, bs: nat, d: nat) -> Work<T> {
    let o = (bn * d) as int;
    let k = o + bn * d;
    let v = k + bs * d;
    let x = v + bs * d;
    Work {
        q: rows(buf.subrange(0, o), bn, d),
        o: rows(buf.subrange(o, k), bn, d),
        k: rows(buf.subrange(k, v), bs, d),
        v: rows(buf.subrange(v, x), bs, d),
        x: rows(buf.subrange(x, buf.len() as int), bn, bs),
    }
}

/// One block: a request and a head, with what all blocks share.
pub struct Block<S> {
    pub cfg: KernelCfg<S>,
    pub pages: Seq<KVPage>,
    pub req: KernelReq,
    pub head: int,
}

impl<S> Block<S> {
    /// Elements of one row.
    pub open spec fn d(self) -> nat {
        self.cfg.d as nat
    }

    /// Cache rows of one page.
    pub open spec fn bs(self) -> int {
        self.cfg.bs as int
    }

    /// Page `j` of the request.
    pub open spec fn page(self, j: int) -> KVPage {
        self.pages[self.req.pages_start + j]
    }

    /// The position of row `i` of page `j` among the keys of head `head`.
    pub open spec fn k_at<T>(self, head: int, j: int, i: int) -> int {
        row_at::<T>(self.page(j).k, self.req.kv_strides, head, i)
    }

    /// The position of row `i` of page `j` among the values of head `head`.
    pub open spec fn v_at<T>(self, head: int, j: int, i: int) -> int {
        row_at::<T>(self.page(j).v, self.req.kv_strides, head, i)
    }

    /// Row `i` of page `j` lies in a memory of `len` elements, for head `head`.
    pub open spec fn cache_row_ok<T>(self, len: nat, head: int, j: int, i: int) -> bool {
        &&& row_ok::<T>(len, self.page(j).k, self.req.kv_strides, head, i, self.d())
        &&& row_ok::<T>(len, self.page(j).v, self.req.kv_strides, head, i, self.d())
    }

    // ---- taking new keys and values into the cache ----

    /// The place in the sequence of new row `i`.
    pub open spec fn place(self, i: int) -> int {
        self.req.s - self.req.n + i
    }

    /// The position of new key row `i`.
    pub open spec fn k_src<T>(self, i: int) -> int {
        row_at::<T>(self.req.k, self.req.k_strides, self.head, i)
    }

    /// The position of new value row `i`.
    pub open spec fn v_src<T>(self, i: int) -> int {
        row_at::<T>(self.req.v, self.req.v_strides, self.head, i)
    }

    /// The position in the cache that new key row `i` is taken to.
    pub open spec fn k_dst<T>(self, i: int) -> int {
        self.k_at::<T>(self.head, self.place(i) / self.bs(), self.place(i) % self.bs())
    }

    /// The position in the cache that new value row `i` is taken to.
    pub open spec fn v_dst<T>(self, i: int) -> int {
        self.v_at::<T>(self.head, self.place(i) / self.bs(), self.place(i) % self.bs())
    }

    /// New row `i` and its place in the cache lie in a memory of `len` elements.
    pub open spec fn concat_row_ok<T>(self, len: nat, i: int) -> bool {
        &&& self.bs() > 0
        &&& self.req.pages_start + self.place(i) / self.bs() < self.pages.len()
        &&& row_ok::<T>(len, self.req.k, self.req.k_strides, self.head, i, self.d())
        &&& row_ok::<T>(len, self.req.v, self.req.v_strides, self.head, i, self.d())
        &&& self.cache_row_ok::<T>(
            len,
            self.head,
            self.place(i) / self.bs(),
            self.place(i) % self.bs(),
        )
    }

    /// All new rows and their places in the cache lie in a memory of `len` elements.
    pub open spec fn concat_ok<T>(self, len: nat) -> bool {
        &&& self.req.pages_start <= self.pages.len()
        &&& self.req.n <= self.req.s
        &&& forall|i: int| 0 <= i < self.req.n ==> #[trigger] self.concat_row_ok::<T>(len, i)
    }

    /// The moves that take new row `i` into the cache: element by element, the
    /// key before the value.
    pub open spec fn row_moves<T>(self, i: int) -> Seq<Move> {
        Seq::new(
            2 * self.d(),
            |t: int|
                if t % 2 == 0 {
                    (self.k_dst::<T>(i) + t / 2, self.k_src::<T>(i) + t / 2)
                } else {
                    (self.v_dst::<T>(i) + t / 2, self.v_src::<T>(i) + t / 2)
                },
        )
    }

    /// The moves that take the first `count` new rows into the cache.
    pub open spec fn moves<T>(self, count: nat) -> Seq<Move>
        decreases count,
    {
        if count == 0 {
            Seq::empty()
        } else {
            self.moves::<T>((count - 1) as nat) + self.row_moves::<T>(count - 1)
        }
    }

    /// The moves that take all new rows into the cache.
    pub open spec fn concat_moves<T>(self) -> Seq<Move> {
        self.moves::<T>(self.req.n as nat)
    }
}

impl<T: Scalar> Block<T> {
    // ---- attention ----

    /// The head of the keys and values that the queries of this head look at.
    pub open spec fn kv_head(self) -> int {
        self.head / (self.cfg.g as int)
    }

    /// Pages of the request.
    pub open spec fn page_count(self) -> int {
        ceil_div(self.req.s_ceil as int, self.bs())
    }

    /// The position of query row `iq`.
    pub open spec fn q_at(self, iq: int) -> int {
        row_at::<T>(self.req.q, self.req.q_strides, self.head, iq)
    }

    /// The position of output row `iq`.
    pub open spec fn o_at(self, iq: int) -> int {
        row_at::<T>(self.req.o, self.req.o_strides, self.head, iq)
    }

    /// The position in the mask memory of what query row `iq` sees of page `j`.
    pub open spec fn mask_at(self, iq: int, j: int) -> int {
        self.req.mask + iq * self.req.s_ceil + j * self.bs()
    }

    /// Query row `iq`.
    pub open spec fn query(self, mem: Seq<T>, iq: int) -> Seq<T> {
        read(mem, self.q_at(iq), self.d())
    }

    /// There is a row `iq` to load from the queries, be it one of the request or
    /// one past its last: it lies in a memory of `len` elements.
    pub open spec fn query_there(self, len: nat, iq: int) -> bool {
        &&& iq <= usize::MAX
        &&& row_ok::<T>(len, self.req.q, self.req.q_strides, self.head, iq, self.d())
    }

    /// The key rows of page `j`.
    pub open spec fn keys(self, mem: Seq<T>, j: int) -> Seq<Seq<T>> {
        Seq::new(
            self.cfg.bs as nat,
            |i: int| read(mem, self.k_at::<T>(self.kv_head(), j, i), self.d()),
        )
    }

    /// The value rows of page `j`.
    pub open spec fn vals(self, mem: Seq<T>, j: int) -> Seq<Seq<T>> {
        Seq::new(
            self.cfg.bs as nat,
            |i: int| read(mem, self.v_at::<T>(self.kv_head(), j, i), self.d()),
        )
    }

    /// Which rows of page `j` query row `iq` looks at.
    pub open spec fn mask(self, masks: Seq<bool>, iq: int, j: int) -> Seq<bool> {
        read(masks, self.mask_at(iq, j), self.cfg.bs as nat)
    }

    /// The state of query row `iq` after the first `j` pages.
    pub open spec fn state(self, mem: Seq<T>, masks: Seq<bool>, iq: int, j: nat) -> RowState<T>
        decreases j,
    {
        if j == 0 {
            fresh(self.d())
        } else {
            page_step(
                self.state(mem, masks, iq, (j - 1) as nat),
                self.cfg.scale,
                self.query(mem, iq),
                self.keys(mem, j - 1),
                self.vals(mem, j - 1),
                self.mask(masks, iq, j - 1),
            )
        }
    }

    /// The output of query row `iq`.
    pub open spec fn row(self, mem: Seq<T>, masks: Seq<bool>, iq: int) -> Seq<T> {
        output(self.state(mem, masks, iq, self.page_count() as nat))
    }

    /// Query rows of the tile that starts at row `first`, of at most `bn` rows.
    pub open spec fn tile_rows(self, first: int, bn: int) -> int {
        if self.req.n - first < bn {
            self.req.n - first
        } else {
            bn
        }
    }

    /// The memory once the first `count` output rows of the tile that starts at
    /// row `first` have been written. All rows were computed from `src`.
    pub open spec fn stored(
        self,
        mem: Seq<T>,
        src: Seq<T>,
        masks: Seq<bool>,
        first: int,
        count: nat,
    ) -> Seq<T>
        decreases count,
    {
        if count == 0 {
            mem
        } else {
            put(
                self.stored(mem, src, masks, first, (count - 1) as nat),
                self.o_at(first + count - 1),
                self.row(src, masks, first + count - 1),
            )
        }
    }

    /// The memory once the first `tiles` tiles of `bn` query rows are done.
    pub open spec fn tiled(self, mem: Seq<T>, masks: Seq<bool>, bn: int, tiles: nat) -> Seq<T>
        decreases tiles,
    {
        if tiles == 0 {
            mem
        } else {
            let first = (tiles - 1) * bn;
            let m = self.tiled(mem, masks, bn, (tiles - 1) as nat);
            self.stored(m, m, masks, first, self.tile_rows(first, bn) as nat)
        }
    }

    /// The memory after the block, with tiles of `bn` query rows.
    pub open spec fn attended(self, mem: Seq<T>, masks: Seq<bool>, bn: int) -> Seq<T> {
        self.tiled(mem, masks, bn, ceil_div(self.req.n as int, bn) as nat)
    }

    /// Writing output rows leaves the length of the memory as it is.
    pub proof fn lemma_stored_len(
        self,
        mem: Seq<T>,
        src: Seq<T>,
        masks: Seq<bool>,
        first: int,
        count: nat,
    )
        ensures
            self.stored(mem, src, masks, first, count).len() == mem.len(),
        decreases count,
    {
        if count > 0 {
            self.lemma_stored_len(mem, src, masks, first, (count - 1) as nat);
        }
    }

    /// Tiles leave the length of the memory as it is.
    pub proof fn lemma_tiled_len(self, mem: Seq<T>, masks: Seq<bool>, bn: int, tiles: nat)
        ensures
            self.tiled(mem, masks, bn, tiles).len() == mem.len(),
        decreases tiles,
    {
        if tiles > 0 {
            let first = (tiles - 1) * bn;
            let m = self.tiled(mem, masks, bn, (tiles - 1) as nat);
            self.lemma_tiled_len(mem, masks, bn, (tiles - 1) as nat);
            self.lemma_stored_len(m, m, masks, first, self.tile_rows(first, bn) as nat);
        }
    }

    /// The block leaves the length of the memory as it is.
    pub proof fn lemma_attended_len(self, mem: Seq<T>, masks: Seq<bool>, bn: int)
        ensures
            self.attended(mem, masks, bn).len() == mem.len(),
    {
        self.lemma_tiled_len(mem, masks, bn, ceil_div(self.req.n as int, bn) as nat);
    }

    /// The weights of the rows of page `j` for query row `iq`, as of that page.
    pub open spec fn page_weights(self, mem: Seq<T>, masks: Seq<bool>, iq: int, j: int) -> Seq<T> {
        weights(
            scores(
                self.cfg.scale,
                self.query(mem, iq),
                self.keys(mem, j),
                self.mask(masks, iq, j),
            ),
            self.state(mem, masks, iq, (j + 1) as nat).m,
        )
    }

    /// The workspace after the tile that starts at row `first`, computed from
    /// the memory `mem`: `w` was in it before. All `bn` query rows are loaded, as
    /// far as there are any; the other parts know the rows of the request only.
    pub open spec fn tile_work(
        self,
        w: Work<T>,
        mem: Seq<T>,
        masks: Seq<bool>,
        first: int,
        bn: int,
    ) -> Work<T> {
        let count = self.tile_rows(first, bn);
        let any = self.page_count() > 0;
        Work {
            q: Seq::new(
                bn as nat,
                |r: int|
                    if self.query_there(mem.len(), first + r) {
                        self.query(mem, first + r)
                    } else {
                        w.q[r]
                    },
            ),
            o: Seq::new(
                bn as nat,
                |r: int|
                    if r < count {
                        self.row(mem, masks, first + r)
                    } else {
                        Seq::new(self.d(), |j: int| zero::<T>())
                    },
            ),
            k: if any { self.keys(mem, self.page_count() - 1) } else { w.k },
            v: if any { self.vals(mem, self.page_count() - 1) } else { w.v },
            x: Seq::new(
                bn as nat,
                |r: int|
                    if r < count && any {
                        self.page_weights(mem, masks, first + r, self.page_count() - 1)
                    } else {
                        w.x[r]
                    },
            ),
        }
    }

    /// The workspace once the first `tiles` tiles of `bn` query rows are done:
    /// `w` was in it and `mem` in the memory before.
    pub open spec fn tiled_work(
        self,
        w: Work<T>,
        mem: Seq<T>,
        masks: Seq<bool>,
        bn: int,
        tiles: nat,
    ) -> Work<T>
        decreases tiles,
    {
        if tiles == 0 {
            w
        } else {
            self.tile_work(
                self.tiled_work(w, mem, masks, bn, (tiles - 1) as nat),
                self.tiled(mem, masks, bn, (tiles - 1) as nat),
                masks,
                (tiles - 1) * bn,
                bn,
            )
        }
    }

    /// The workspace after the block, with tiles of `bn` query rows.
    pub open spec fn worked(
        self,
        w: Work<T>,
        mem: Seq<T>,
        masks: Seq<bool>,
        bn: int,
    ) -> Work<T> {
        self.tiled_work(w, mem, masks, bn, ceil_div(self.req.n as int, bn) as nat)
    }

    /// What query row `iq` needs lies in a memory of `len` elements and a mask
    /// memory of `masks_len`.
    pub open spec fn query_ok(self, len: nat, masks_len: nat, iq: int) -> bool {
        &&& row_ok::<T>(len, self.req.q, self.req.q_strides, self.head, iq, self.d())
        &&& row_ok::<T>(len, self.req.o, self.req.o_strides, self.head, iq, self.d())
        &&& forall|j: int|
            0 <= j < self.page_count() ==> #[trigger] self.mask_at(iq, j) + self.bs() <= masks_len
    }

    /// What the block needs lies in a memory of `len` elements and a mask memory
    /// of `masks_len`.
    pub open spec fn attn_ok(self, len: nat, masks_len: nat) -> bool {
        &&& self.bs() > 0
        &&& self.req.pages_start + self.page_count() <= self.pages.len()
        &&& self.req.n > 0 && self.req.s_ceil > 0 ==> self.cfg.g > 0
        &&& forall|iq: int| 0 <= iq < self.req.n ==> #[trigger] self.query_ok(len, masks_len, iq)
        &&& forall|j: int, i: int|
            self.req.n > 0 && 0 <= j < self.page_count() && 0 <= i < self.bs()
                ==> #[trigger] self.cache_row_ok::<T>(len, self.kv_head(), j, i)
    }
}

} // verus!
