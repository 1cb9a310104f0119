//! Finding out whether a batch can be computed.
use crate::attention::batch::{Attention, Batch, TensorView};
use crate::attention::block::{row_ok, work_len, Block};
use crate::attention::{fits_isize, FlashAttnCfg, KVPage, KernelCfg, KernelReq, Strides2D};
use crate::ceil::{div_ceil, lemma_ceil_div};
use crate::scalar::{functional, Scalar};
use vstd::prelude::*;

verus! {

/// `a * b`, of which neither is more than an `isize`.
fn product(a: isize, b: isize) -> (r: i128)
    ensures
        r == a * b,
        -0x4000_0000_0000_0000_0000_0000_0000_0000 <= r <= 0x4000_0000_0000_0000_0000_0000_0000_0000,
{
    proof {
        assert(-0x4000_0000_0000_0000_0000_0000_0000_0000 <= a * b
            <= 0x4000_0000_0000_0000_0000_0000_0000_0000) by (nonlinear_arith)
            requires
                -0x8000_0000_0000_0000 <= a <= 0x8000_0000_0000_0000,
                -0x8000_0000_0000_0000 <= b <= 0x8000_0000_0000_0000,
        ;
    }
    a as i128 * b as i128
}

/// Whether `x` is a value of `isize`.
fn in_isize(x: i128) -> (r: bool)
    ensures
        r == fits_isize(x as int),
{
    isize::MIN as i128 <= x && x <= isize::MAX as i128
}

/// Whether a row of `d` elements lies in the memory: row `seq` of head `head` of
/// the tensor at byte address `base`.
pub fn row_check<T>(
    mem: &[T],
    base: usize,
    strides: &Strides2D,
    head: usize,
    seq: usize,
    d: usize,
) -> (r: bool)
    ensures
        r == row_ok::<T>(mem@.len(), base, *strides, head as int, seq as int, d as nat),
{
    let len: usize = mem.len();
    let size: usize = std::mem::size_of::<T>();
    let a: i128 = product(head as isize, strides.head);
    let b: i128 = product(seq as isize, strides.seq);
    if !in_isize(a) || !in_isize(b) || !in_isize(a + b) || size == 0 {
        return false;
    }
    let addr: i128 = base as i128 + (a + b);
    if addr < 0 {
        return false;
    }
    let addr: u128 = addr as u128;
    let size: u128 = size as u128;
    if addr % size != 0 {
        return false;
    }
    proof {
        vstd::arithmetic::div_mod::lemma_div_is_ordered_by_denominator(addr as int, 1, size as int);
    }
    addr / size + d as u128 <= len as u128
}

/// Whether `cache_concat_block` can copy the new rows of the request for head
/// `head`.
pub fn concat_check<T, S>(
    cfg: &KernelCfg<S>,
    cache_pages: &[KVPage],
    req: &KernelReq,
    head: usize,
    mem: &[T],
) -> (r: bool)
    ensures
        r == (Block { cfg: *cfg, pages: cache_pages@, req: *req, head: head as int }).concat_ok::<T>(
            mem@.len(),
        ),
{
    let ghost b = Block { cfg: *cfg, pages: cache_pages@, req: *req, head: head as int };
    let pages_len: usize = cache_pages.len();
    let d: usize = cfg.d;
    let bs: usize = cfg.bs;
    if req.pages_start > pages_len || req.n > req.s {
        return false;
    }
    if bs == 0 {
        proof {
            if req.n > 0 {
                assert(!b.concat_row_ok::<T>(mem@.len(), 0));
            }
        }
        return req.n == 0;
    }
    let pos: usize = req.s - req.n;
    for i in 0..req.n
        invariant
            b == (Block { cfg: *cfg, pages: cache_pages@, req: *req, head: head as int }),
            pages_len == cache_pages@.len(),
            req.pages_start <= pages_len,
            d == cfg.d,
            bs == cfg.bs,
            bs > 0,
            req.n <= req.s,
            pos == req.s - req.n,
            forall|t: int| 0 <= t < i ==> #[trigger] b.concat_row_ok::<T>(mem@.len(), t),
    {
        let p: usize = pos + i;
        assert(b.place(i as int) == p);
        if p / bs >= pages_len - req.pages_start {
            assert(!b.concat_row_ok::<T>(mem@.len(), i as int));
            return false;
        }
        let page: KVPage = cache_pages[req.pages_start + p / bs];
        if !row_check(mem, req.k, &req.k_strides, head, i, d) || !row_check(
            mem,
            req.v,
            &req.v_strides,
            head,
            i,
            d,
        ) || !row_check(mem, page.k, &req.kv_strides, head, p % bs, d) || !row_check(
            mem,
            page.v,
            &req.kv_strides,
            head,
            p % bs,
            d,
        ) {
            assert(!b.concat_row_ok::<T>(mem@.len(), i as int));
            return false;
        }
        assert(b.concat_row_ok::<T>(mem@.len(), i as int));
    }
    true
}

/// Whether the masks of query row `iq` lie in the mask memory.
fn mask_check<T: Scalar>(
    req: &KernelReq,
    bs: usize,
    iq: usize,
    page_count: usize,
    masks: &[bool],
    Ghost(b): Ghost<Block<T>>,
) -> (r: bool)
    requires
        b.req == *req,
        b.bs() == bs,
        b.page_count() == page_count,
    ensures
        r == forall|j: int|
            0 <= j < page_count ==> #[trigger] b.mask_at(iq as int, j) + bs <= masks@.len(),
{
    let len: usize = masks.len();
    if page_count == 0 {
        return true;
    }
    let last: usize = page_count - 1;
    proof {
        assert(iq * req.s_ceil <= 0xffff_ffff_ffff_ffff * 0xffff_ffff_ffff_ffff && last * bs
            <= 0xffff_ffff_ffff_ffff * 0xffff_ffff_ffff_ffff) by (nonlinear_arith)
            requires
                iq <= 0xffff_ffff_ffff_ffff,
                req.s_ceil <= 0xffff_ffff_ffff_ffff,
                last <= 0xffff_ffff_ffff_ffff,
                bs <= 0xffff_ffff_ffff_ffff,
        ;
    }
    let a: u128 = iq as u128 * req.s_ceil as u128;
    let c: u128 = last as u128 * bs as u128;
    proof {
        assert(b.mask_at(iq as int, last as int) == req.mask + a + c);
        assert forall|j: int| 0 <= j < page_count implies #[trigger] b.mask_at(iq as int, j)
            <= b.mask_at(iq as int, last as int) by {
            assert(j * bs <= last * bs) by (nonlinear_arith)
                requires
                    0 <= j <= last,
                    bs >= 0,
            ;
        }
    }
    let limit: u128 = len as u128;
    if a > limit || c > limit {
        assert(a >= 0 && c >= 0);
        assert(b.mask_at(iq as int, last as int) + bs > len);
        return false;
    }
    let r: bool = req.mask as u128 + a + c + bs as u128 <= limit;
    if !r {
        assert(b.mask_at(iq as int, last as int) + bs > len);
    }
    r
}

/// Whether `flash_attn_block` can compute the request for head `head`, its
/// workspace and its tiles aside.
pub fn attn_check<T: Scalar>(
    cfg: &KernelCfg<T>,
    cache_pages: &[KVPage],
    req: &KernelReq,
    head: usize,
    masks: &[bool],
    mem: &[T],
) -> (r: bool)
    ensures
        r == (Block { cfg: *cfg, pages: cache_pages@, req: *req, head: head as int }).attn_ok(
            mem@.len(),
            masks@.len(),
        ),
{
    let ghost b = Block { cfg: *cfg, pages: cache_pages@, req: *req, head: head as int };
    let ghost len = mem@.len();
    let ghost masks_len = masks@.len();
    let pages_len: usize = cache_pages.len();
    let d: usize = cfg.d;
    let bs: usize = cfg.bs;
    if bs == 0 {
        return false;
    }
    let page_count: usize = div_ceil(req.s_ceil, bs);
    proof {
        lemma_ceil_div(req.s_ceil as int, bs as int);
    }
    if req.pages_start > pages_len || page_count > pages_len - req.pages_start {
        return false;
    }
    if req.n > 0 && req.s_ceil > 0 && cfg.g == 0 {
        return false;
    }
    for iq in 0..req.n
        invariant
            b == (Block { cfg: *cfg, pages: cache_pages@, req: *req, head: head as int }),
            d == cfg.d,
            bs == cfg.bs,
            page_count == b.page_count(),
            len == mem@.len(),
            masks_len == masks@.len(),
            forall|t: int| 0 <= t < iq ==> #[trigger] b.query_ok(len, masks_len, t),
    {
        if !row_check(mem, req.q, &req.q_strides, head, iq, d) || !row_check(
            mem,
            req.o,
            &req.o_strides,
            head,
            iq,
            d,
        ) || !mask_check::<T>(req, bs, iq, page_count, masks, Ghost(b)) {
            assert(!b.query_ok(len, masks_len, iq as int));
            return false;
        }
        assert(b.query_ok(len, masks_len, iq as int));
    }
    if req.n == 0 || req.s_ceil == 0 {
        return true;
    }
    let kv_head: usize = head / cfg.g;
    let mut j: usize = 0;
    while j < page_count
        invariant
            b == (Block { cfg: *cfg, pages: cache_pages@, req: *req, head: head as int }),
            d == cfg.d,
            bs == cfg.bs,
            req.n > 0,
            kv_head == b.kv_head(),
            page_count == b.page_count(),
            pages_len == cache_pages@.len(),
            req.pages_start + page_count <= pages_len,
            j <= page_count,
            len == mem@.len(),
            forall|t: int, i: int|
                0 <= t < j && 0 <= i < bs ==> #[trigger] b.cache_row_ok::<T>(
                    len,
                    b.kv_head(),
                    t,
                    i,
                ),
        decreases page_count - j,
    {
        let page: KVPage = cache_pages[req.pages_start + j];
        let mut i: usize = 0;
        while i < bs
            invariant
                b == (Block { cfg: *cfg, pages: cache_pages@, req: *req, head: head as int }),
                d == cfg.d,
                bs == cfg.bs,
                req.n > 0,
                kv_head == b.kv_head(),
                page_count == b.page_count(),
                j < page_count,
                page == b.page(j as int),
                i <= bs,
                len == mem@.len(),
                forall|t: int|
                    0 <= t < i ==> #[trigger] b.cache_row_ok::<T>(len, b.kv_head(), j as int, t),
            decreases bs - i,
        {
            if !row_check(mem, page.k, &req.kv_strides, kv_head, i, d) || !row_check(
                mem,
                page.v,
                &req.kv_strides,
                kv_head,
                i,
                d,
            ) {
                assert(!b.cache_row_ok::<T>(len, b.kv_head(), j as int, i as int));
                return false;
            }
            assert(b.cache_row_ok::<T>(len, b.kv_head(), j as int, i as int));
            i = i + 1;
        }
        j = j + 1;
    }
    true
}

impl TensorView {
    /// Whether the cache has row `row`, and its keys and values have addresses.
    pub fn page_check(&self, row: usize) -> (r: bool)
        ensures
            r == self.page_ok(row as int),
    {
        if self.shape.len() < 2 || self.strides.len() != self.shape.len() || row >= self.shape[0]
            || self.shape[1] < 2 {
            return false;
        }
        let a: i128 = product(row as isize, self.strides[0]);
        if !in_isize(a) {
            return false;
        }
        let k: i128 = self.offset as i128 + a;
        let v: i128 = k + self.strides[1] as i128;
        assert(0 * self.strides@[1] == 0 && 1 * self.strides@[1] == self.strides@[1]);
        let top: i128 = usize::MAX as i128;
        let base: i128 = self.base as i128;
        in_isize(k) && in_isize(v) && 0 <= base + k && base + k <= top && 0 <= base + v && base + v
            <= top
    }
}

impl Attention {
    /// Whether the request can be brought into the form that the kernels work on.
    pub fn check(&self, tile: usize) -> (r: bool)
        ensures
            r == self.ok(tile as int),
    {
        if tile == 0 || self.q.shape.len() < 2 || self.q.strides.len() != 3 || self.k.strides.len()
            != 3 || self.v.strides.len() != 3 || self.o.strides.len() != 3
            || self.cache.strides.len() != 4 {
            return false;
        }
        let n: usize = self.q.shape[1];
        if n > usize::MAX - self.pos {
            return false;
        }
        let count: usize = div_ceil(self.pos + n, tile);
        proof {
            lemma_ceil_div(self.s(), tile as int);
            assert(count * tile <= 0xffff_ffff_ffff_ffff * 0xffff_ffff_ffff_ffff)
                by (nonlinear_arith)
                requires
                    count <= 0xffff_ffff_ffff_ffff,
                    tile <= 0xffff_ffff_ffff_ffff,
            ;
        }
        let limit: u128 = usize::MAX as u128;
        let s_ceil: u128 = count as u128 * tile as u128;
        if s_ceil > limit {
            return false;
        }
        proof {
            assert(n * s_ceil <= 0xffff_ffff_ffff_ffff * 0xffff_ffff_ffff_ffff)
                by (nonlinear_arith)
                requires
                    n <= 0xffff_ffff_ffff_ffff,
                    s_ceil <= 0xffff_ffff_ffff_ffff,
            ;
        }
        if n as u128 * s_ceil > limit {
            return false;
        }
        let mut i: usize = 0;
        while i < count
            invariant
                i <= count,
                tile > 0,
                count == self.page_count(tile as int),
                self.s() <= usize::MAX,
                self.s() >= 0,
                forall|t: int|
                    0 <= t < i ==> self.cache.page_ok(#[trigger] (t * tile)),
            decreases count - i,
        {
            proof {
                lemma_ceil_div(self.s(), tile as int);
                assert(i * tile < self.s());
                assert(i * tile >= 0) by (nonlinear_arith);
            }
            if !self.cache.page_check(i * tile) {
                assert(!self.cache.page_ok(i * tile));
                return false;
            }
            assert(self.cache.page_ok(i * tile));
            i = i + 1;
        }
        true
    }
}

/// Whether the workspace of a block can be counted.
pub fn work_check(bn: usize, bs: usize, d: usize) -> (r: bool)
    ensures
        r == (work_len(bn as int, bs as int, d as int) <= usize::MAX),
{
    proof {
        assert(bn * d <= 0xffff_ffff_ffff_ffff * 0xffff_ffff_ffff_ffff && bs * d
            <= 0xffff_ffff_ffff_ffff * 0xffff_ffff_ffff_ffff && bn * bs <= 0xffff_ffff_ffff_ffff
            * 0xffff_ffff_ffff_ffff && bn * d >= 0 && bs * d >= 0 && bn * bs >= 0)
            by (nonlinear_arith)
            requires
                0 <= bn <= 0xffff_ffff_ffff_ffff,
                0 <= bs <= 0xffff_ffff_ffff_ffff,
                0 <= d <= 0xffff_ffff_ffff_ffff,
        ;
    }
    let q: u128 = bn as u128 * d as u128;
    let k: u128 = bs as u128 * d as u128;
    let x: u128 = bn as u128 * bs as u128;
    let limit: u128 = usize::MAX as u128;
    q <= limit && k <= limit && x <= limit && q + q + k + k + x <= limit
}

impl FlashAttnCfg {
    /// Whether the batch can be computed in the memory `mem`.
    pub fn check<T: Scalar>(&self, scale: T, reqs: &[Attention], mem: &[T]) -> (r: bool)
        ensures
            r == self.computable(scale, reqs@, mem@.len()),
    {
        let ghost view = self.batch_view(scale, reqs@);
        let ghost len = mem@.len();
        if self.kvh == 0 || self.h % self.kvh != 0 {
            return false;
        }
        let tile: usize = self.tile_ctx;
        for i in 0..reqs.len()
            invariant
                tile == self.tile_ctx,
                forall|t: int| 0 <= t < i ==> #[trigger] reqs@[t].ok(tile as int),
        {
            if !reqs[i].check(tile) {
                assert(!reqs@[i as int].ok(tile as int));
                return false;
            }
        }
        if reqs.len() > 0 && self.h > 0 {
            if self.tile_seq == 0 || !work_check(self.tile_seq, tile, self.d) {
                return false;
            }
        }
        let cfg: KernelCfg<T> = KernelCfg { g: self.h / self.kvh, d: self.d, bs: tile, scale };
        let batch: Batch = self.prepare(reqs);
        assert(view.cfg == cfg);
        let mut i: usize = 0;
        while i < batch.reqs.len()
            invariant
                view == self.batch_view(scale, reqs@),
                view.cfg == cfg,
                view.pages == batch.pages@,
                view.masks == batch.masks@,
                view.reqs == batch.reqs@,
                view.reqs.len() == reqs@.len(),
                len == mem@.len(),
                i <= batch.reqs@.len(),
                forall|id: (usize, usize)|
                    id.0 < i && id.1 < self.kvh ==> (#[trigger] view.block(id)).concat_ok::<T>(len),
                forall|id: (usize, usize)|
                    id.0 < i && id.1 < self.h ==> (#[trigger] view.block(id)).attn_ok(
                        len,
                        view.masks.len(),
                    ),
            decreases batch.reqs@.len() - i,
        {
            let req: KernelReq = batch.reqs[i];
            let mut head: usize = 0;
            while head < self.kvh
                invariant
                    view == self.batch_view(scale, reqs@),
                    view.cfg == cfg,
                    view.pages == batch.pages@,
                    view.reqs == batch.reqs@,
                    view.reqs.len() == reqs@.len(),
                    len == mem@.len(),
                    i < reqs@.len(),
                    req == view.reqs[i as int],
                    head <= self.kvh,
                    forall|id: (usize, usize)|
                        id.0 == i && id.1 < head ==> (#[trigger] view.block(id)).concat_ok::<T>(len),
                decreases self.kvh - head,
            {
                let ghost id = (i, head);
                if !concat_check(&cfg, batch.pages.as_slice(), &req, head, mem) {
                    assert(!view.block(id).concat_ok::<T>(len));
                    return false;
                }
                assert(view.block(id).concat_ok::<T>(len));
                head = head + 1;
            }
            let mut head: usize = 0;
            while head < self.h
                invariant
                    view == self.batch_view(scale, reqs@),
                    view.cfg == cfg,
                    view.pages == batch.pages@,
                    view.masks == batch.masks@,
                    view.reqs == batch.reqs@,
                    view.reqs.len() == reqs@.len(),
                    len == mem@.len(),
                    i < reqs@.len(),
                    req == view.reqs[i as int],
                    head <= self.h,
                    forall|id: (usize, usize)|
                        id.0 == i && id.1 < head ==> (#[trigger] view.block(id)).attn_ok(
                            len,
                            view.masks.len(),
                        ),
                decreases self.h - head,
            {
                let ghost id = (i, head);
                if !attn_check(
                    &cfg,
                    batch.pages.as_slice(),
                    &req,
                    head,
                    batch.masks.as_slice(),
                    mem,
                ) {
                    assert(!view.block(id).attn_ok(len, view.masks.len()));
                    return false;
                }
                assert(view.block(id).attn_ok(len, view.masks.len()));
                head = head + 1;
            }
            i = i + 1;
        }
        true
    }

    /// Computes the batch if it can be computed in the memory, and says whether
    /// it did. Otherwise the memory stays as it was.
    pub fn try_compute_cpu<T: Scalar>(
        &self,
        scale: T,
        reqs: &[Attention],
        mem: &mut [T],
    ) -> (done: bool)
        requires
            functional::<T>(),
        ensures
            done == self.computable(scale, reqs@, old(mem)@.len()),
            done ==> final(mem)@ == self.computed(scale, reqs@, old(mem)@),
            !done ==> final(mem)@ == old(mem)@,
    {
        if self.check(scale, reqs, mem) {
            self.compute_cpu(scale, reqs, mem);
            true
        } else {
            false
        }
    }
}

} // verus!
