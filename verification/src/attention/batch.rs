//! From the tensors of a batch to what the kernels work on.
use crate::attention::{fits_isize, FlashAttnCfg, KVPage, KernelReq, Strides2D};
use crate::ceil::{ceil_div, div_ceil, lemma_ceil_div};
use any_tensor::ndarray_layout::ArrayLayout;
use vstd::prelude::*;

verus! {

/// A tensor in the element memory. Strides and offset count bytes.
#[derive(Clone, Debug)]
pub struct TensorView {
    /// Byte address of the tensor's storage.
    pub base: usize,
    pub shape: Vec<usize>,
    pub strides: Vec<isize>,
    /// Distance of the tensor's first element from its storage.
    pub offset: isize,
}

/// One request of a batch: queries, keys, values and output of shape
/// `[heads, rows, d]`, a cache of shape `[rows, 2, heads, d]` that holds keys
/// and values side by side, and the number of cache rows already filled.
#[derive(Clone, Debug)]
pub struct Attention {
    pub q: TensorView,
    pub k: TensorView,
    pub v: TensorView,
    pub o: TensorView,
    pub cache: TensorView,
    pub pos: usize,
}

/// Selects item `index` of axis `axis` of the layout given by `shape`, `strides`
/// and `offset`, and returns the layout that is left.
///
/// Calls `ArrayLayout::index` of `ndarray_layout`, on a layout made by
/// `ArrayLayout::new` and read back by `shape`, `strides` and `offset`. The
/// contract says that the axis leaves shape and strides and that the offset
/// grows by `index` times the stride of the axis.
#[verifier::external_body]
fn layout_index(
    shape: &[usize],
    strides: &[isize],
    offset: isize,
    axis: usize,
    index: usize,
) -> (r: (Vec<usize>, Vec<isize>, isize))
    requires
        shape@.len() == strides@.len(),
        axis < shape@.len(),
        index < shape@[axis as int],
        fits_isize((index as isize) * strides@[axis as int]),
        fits_isize(offset + (index as isize) * strides@[axis as int]),
    ensures
        r.0@ == shape@.remove(axis as int),
        r.1@ == strides@.remove(axis as int),
        r.2 == offset + (index as isize) * strides@[axis as int],
{
    let layout = ArrayLayout::<4>::new(shape, strides, offset).index(axis, index);
    (layout.shape().to_vec(), layout.strides().to_vec(), layout.offset())
}

impl TensorView {
    /// The distance of item `kv` of row `row` from the storage.
    pub open spec fn row_offset(self, row: int, kv: int) -> int {
        self.offset + (row as isize) * self.strides@[0] + kv * self.strides@[1]
    }

    /// The cache has row `row`, and its keys and values have addresses.
    pub open spec fn page_ok(self, row: int) -> bool {
        &&& self.shape@.len() >= 2
        &&& self.strides@.len() == self.shape@.len()
        &&& row < self.shape@[0]
        &&& self.shape@[1] >= 2
        &&& fits_isize((row as isize) * self.strides@[0])
        &&& fits_isize(self.row_offset(row, 0))
        &&& fits_isize(self.row_offset(row, 1))
        &&& 0 <= self.base + self.row_offset(row, 0) <= usize::MAX
        &&& 0 <= self.base + self.row_offset(row, 1) <= usize::MAX
    }

    /// The page that starts at cache row `row`.
    pub open spec fn page_spec(self, row: int) -> KVPage {
        KVPage {
            k: (self.base + self.row_offset(row, 0)) as usize,
            v: (self.base + self.row_offset(row, 1)) as usize,
        }
    }

    /// The page that starts at cache row `row`.
    pub fn page(&self, row: usize) -> (page: KVPage)
        requires
            self.page_ok(row as int),
        ensures
            page == self.page_spec(row as int),
    {
        let (shape, strides, offset) = layout_index(
            self.shape.as_slice(),
            self.strides.as_slice(),
            self.offset,
            0,
            row,
        );
        assert(shape@[0] == self.shape@[1]);
        assert(strides@[0] == self.strides@[1]);
        let k = layout_index(shape.as_slice(), strides.as_slice(), offset, 0, 0).2;
        let v = layout_index(shape.as_slice(), strides.as_slice(), offset, 0, 1).2;
        KVPage { k: address(self.base, k), v: address(self.base, v) }
    }

    /// The strides of a tensor of shape `[heads, rows, d]`.
    pub open spec fn strides_spec(self) -> Strides2D {
        Strides2D { head: self.strides@[0], seq: self.strides@[1] }
    }

    /// The strides of a tensor of shape `[heads, rows, d]`.
    pub fn strides2d(&self) -> (r: Strides2D)
        requires
            self.strides@.len() == 3,
        ensures
            r == self.strides_spec(),
    {
        Strides2D { head: self.strides[0], seq: self.strides[1] }
    }

    /// The strides of a cache of shape `[rows, 2, heads, d]`.
    pub open spec fn cache_strides_spec(self) -> Strides2D {
        Strides2D { head: self.strides@[2], seq: self.strides@[0] }
    }

    /// The strides of a cache of shape `[rows, 2, heads, d]`.
    pub fn cache_strides(&self) -> (r: Strides2D)
        requires
            self.strides@.len() == 4,
        ensures
            r == self.cache_strides_spec(),
    {
        Strides2D { head: self.strides[2], seq: self.strides[0] }
    }
}

/// The byte address `off` bytes away from `base`.
fn address(base: usize, off: isize) -> (r: usize)
    requires
        0 <= base + off <= usize::MAX,
    ensures
        r == base + off,
{
    (base as i128 + off as i128) as usize
}

impl Attention {
    /// Number of query rows.
    pub open spec fn n(self) -> int {
        self.q.shape@[1] as int
    }

    /// Length of the sequence, the query rows being its last.
    pub open spec fn s(self) -> int {
        self.pos + self.n()
    }

    /// Pages of `tile` rows that hold the sequence.
    pub open spec fn page_count(self, tile: int) -> int {
        ceil_div(self.s(), tile)
    }

    /// The cache has the rows at which the pages of `tile` rows start.
    pub open spec fn pages_ok(self, tile: int) -> bool {
        &&& tile > 0
        &&& self.q.shape@.len() >= 2
        &&& self.s() <= usize::MAX
        &&& forall|i: int|
            0 <= i < self.page_count(tile) ==> self.cache.page_ok(#[trigger] (i * tile))
    }

    /// The tensors have the dimensions that the kernels expect, and the mask can
    /// be counted.
    pub open spec fn ok(self, tile: int) -> bool {
        &&& self.pages_ok(tile)
        &&& self.q.strides@.len() == 3
        &&& self.k.strides@.len() == 3
        &&& self.v.strides@.len() == 3
        &&& self.o.strides@.len() == 3
        &&& self.cache.strides@.len() == 4
        &&& self.page_count(tile) * tile <= usize::MAX
        &&& self.n() * (self.page_count(tile) * tile) <= usize::MAX
    }

    /// The pages of the request.
    pub open spec fn pages(self, tile: int) -> Seq<KVPage> {
        Seq::new(self.page_count(tile) as nat, |i: int| self.cache.page_spec(i * tile))
    }

    /// The mask of the request: for each query row, the rows of the padded
    /// sequence that it looks at.
    pub open spec fn mask(self, tile: int) -> Seq<bool> {
        causal_mask_spec(self.n(), self.s(), self.page_count(tile) * tile)
    }

    /// What the kernels read of the request, its mask being at `mask`.
    pub open spec fn kernel_req(self, tile: int, mask: int) -> KernelReq {
        KernelReq {
            q: self.q.base,
            q_strides: self.q.strides_spec(),
            k: self.k.base,
            k_strides: self.k.strides_spec(),
            v: self.v.base,
            v_strides: self.v.strides_spec(),
            pages_start: 0,
            kv_strides: self.cache.cache_strides_spec(),
            o: self.o.base,
            o_strides: self.o.strides_spec(),
            mask: mask as usize,
            n: self.n() as usize,
            s: self.s() as usize,
            s_ceil: (self.page_count(tile) * tile) as usize,
        }
    }
}

/// The mask of `n` query rows that are the last of `s` rows, with `s_ceil`
/// columns: row `i / s_ceil` looks at column `i % s_ceil` if that is its own
/// place in the sequence or one before it.
pub open spec fn causal_mask_spec(n: int, s: int, s_ceil: int) -> Seq<bool> {
    Seq::new((n * s_ceil) as nat, |i: int| i % s_ceil <= s - n + i / s_ceil)
}

/// The mask of `n` query rows that are the last of `s` rows, with `s_ceil`
/// columns.
pub fn causal_mask(n: usize, s: usize, s_ceil: usize) -> (mask: Vec<bool>)
    requires
        n <= s,
        n * s_ceil <= usize::MAX,
    ensures
        mask@ == causal_mask_spec(n as int, s as int, s_ceil as int),
{
    let mut mask: Vec<bool> = Vec::new();
    let len: usize = n * s_ceil;
    for i in 0..len
        invariant
            n <= s,
            len == n * s_ceil,
            mask@ =~= causal_mask_spec(n as int, s as int, s_ceil as int).take(i as int),
    {
        proof {
            assert(s_ceil > 0) by (nonlinear_arith)
                requires
                    0 < n * s_ceil,
                    n >= 0,
                    s_ceil >= 0,
            ;
            let q = i as int / s_ceil as int;
            vstd::arithmetic::div_mod::lemma_fundamental_div_mod(i as int, s_ceil as int);
            assert(q < n) by (nonlinear_arith)
                requires
                    i < n * s_ceil,
                    s_ceil * q <= i,
                    s_ceil > 0,
            ;
        }
        mask.push(i % s_ceil <= s - n + i / s_ceil);
    }
    mask
}

/// The pages of the first `count` requests, one request after the other.
pub open spec fn page_table_spec(reqs: Seq<Attention>, tile: int, count: nat) -> Seq<KVPage>
    decreases count,
{
    if count == 0 {
        Seq::empty()
    } else {
        page_table_spec(reqs, tile, (count - 1) as nat) + reqs[count - 1].pages(tile)
    }
}

/// The masks of the first `count` requests, one request after the other.
pub open spec fn masks_spec(reqs: Seq<Attention>, tile: int, count: nat) -> Seq<bool>
    decreases count,
{
    if count == 0 {
        Seq::empty()
    } else {
        masks_spec(reqs, tile, (count - 1) as nat) + reqs[count - 1].mask(tile)
    }
}

/// What the kernels read of the requests.
pub open spec fn kernel_reqs_spec(reqs: Seq<Attention>, tile: int) -> Seq<KernelReq> {
    Seq::new(
        reqs.len(),
        |i: int| reqs[i].kernel_req(tile, masks_spec(reqs, tile, i as nat).len() as int),
    )
}

/// What the kernels work on: the pages of all requests, their masks, and what is
/// read of each request.
#[derive(Clone, Debug)]
pub struct Batch {
    pub pages: Vec<KVPage>,
    pub masks: Vec<bool>,
    pub reqs: Vec<KernelReq>,
}

/// The pages of all requests, one request after the other.
pub fn page_table(reqs: &[Attention], tile: usize) -> (pages: Vec<KVPage>)
    requires
        forall|i: int| 0 <= i < reqs@.len() ==> #[trigger] reqs@[i].pages_ok(tile as int),
    ensures
        pages@ == page_table_spec(reqs@, tile as int, reqs@.len()),
{
    let mut pages: Vec<KVPage> = Vec::new();
    for r in 0..reqs.len()
        invariant
            forall|i: int| 0 <= i < reqs@.len() ==> #[trigger] reqs@[i].pages_ok(tile as int),
            pages@ == page_table_spec(reqs@, tile as int, r as nat),
    {
        let req = &reqs[r];
        assert(reqs@[r as int].pages_ok(tile as int));
        let count: usize = div_ceil(req.pos + req.q.shape[1], tile);
        let ghost before = pages@;
        let ghost own = req.pages(tile as int);
        for i in 0..count
            invariant
                req.pages_ok(tile as int),
                count == req.page_count(tile as int),
                own == req.pages(tile as int),
                pages@ =~= before + own.take(i as int),
        {
            proof {
                lemma_ceil_div(req.s(), tile as int);
                assert(i * tile < req.s());
                assert(req.cache.page_ok(i * tile));
            }
            pages.push(req.cache.page(i * tile));
        }
        assert(own.take(count as int) =~= own);
    }
    pages
}

impl FlashAttnCfg {
    /// Brings the requests into the form that the kernels work on. Each request
    /// counts its pages from the head of the list.
    pub fn prepare(&self, reqs: &[Attention]) -> (batch: Batch)
        requires
            forall|i: int| 0 <= i < reqs@.len() ==> #[trigger] reqs@[i].ok(self.tile_ctx as int),
        ensures
            batch.pages@ == page_table_spec(reqs@, self.tile_ctx as int, reqs@.len()),
            batch.masks@ == masks_spec(reqs@, self.tile_ctx as int, reqs@.len()),
            batch.reqs@ == kernel_reqs_spec(reqs@, self.tile_ctx as int),
    {
        let tile: usize = self.tile_ctx;
        assert forall|i: int| 0 <= i < reqs@.len() implies #[trigger] reqs@[i].pages_ok(
            tile as int,
        ) by {
            assert(reqs@[i].ok(tile as int));
        }
        let pages: Vec<KVPage> = page_table(reqs, tile);
        let mut masks: Vec<bool> = Vec::new();
        let mut out: Vec<KernelReq> = Vec::new();
        let ghost want = kernel_reqs_spec(reqs@, tile as int);
        for r in 0..reqs.len()
            invariant
                tile == self.tile_ctx,
                want == kernel_reqs_spec(reqs@, tile as int),
                forall|i: int| 0 <= i < reqs@.len() ==> #[trigger] reqs@[i].ok(tile as int),
                masks@ == masks_spec(reqs@, tile as int, r as nat),
                out@ =~= want.take(r as int),
        {
            let req = &reqs[r];
            assert(reqs@[r as int].ok(tile as int));
            let n: usize = req.q.shape[1];
            let s: usize = req.pos + n;
            let s_ceil: usize = div_ceil(s, tile) * tile;
            let start: usize = masks.len();
            let mut mask: Vec<bool> = causal_mask(n, s, s_ceil);
            masks.append(&mut mask);
            let req = KernelReq {
                q: req.q.base,
                q_strides: req.q.strides2d(),
                k: req.k.base,
                k_strides: req.k.strides2d(),
                v: req.v.base,
                v_strides: req.v.strides2d(),
                pages_start: 0,
                kv_strides: req.cache.cache_strides(),
                o: req.o.base,
                o_strides: req.o.strides2d(),
                mask: start,
                n,
                s,
                s_ceil,
            };
            out.push(req);
        }
        assert(want.take(want.len() as int) =~= want);
        Batch { pages, masks, reqs: out }
    }
}

/// The blocks of `count` requests with `heads` heads each: pairs of a request
/// and a head, one request after the other.
pub open spec fn blocks_spec(count: int, heads: int) -> Seq<(usize, usize)> {
    Seq::new((count * heads) as nat, |i: int| ((i / heads) as usize, (i % heads) as usize))
}

/// The blocks of `count` requests with `heads` heads each.
pub fn blocks(count: usize, heads: usize) -> (list: Vec<(usize, usize)>)
    ensures
        list@ == blocks_spec(count as int, heads as int),
{
    let mut list: Vec<(usize, usize)> = Vec::new();
    let ghost want = blocks_spec(count as int, heads as int);
    assert(0 * heads == 0) by (nonlinear_arith);
    for ireq in 0..count
        invariant
            want == blocks_spec(count as int, heads as int),
            list@ =~= want.take(ireq * heads),
            ireq * heads <= count * heads,
    {
        proof {
            crate::attention::online::lemma_row_fits(ireq as int, count as int, heads as int);
            assert((ireq + 1) * heads == ireq * heads + heads) by (nonlinear_arith);
        }
        for head in 0..heads
            invariant
                want == blocks_spec(count as int, heads as int),
                0 <= ireq * heads,
                ireq * heads + heads <= count * heads,
                list@ =~= want.take(ireq * heads + head),
        {
            proof {
                let i = ireq * heads + head;
                vstd::arithmetic::div_mod::lemma_fundamental_div_mod_converse(
                    i,
                    heads as int,
                    ireq as int,
                    head as int,
                );
                assert(want[i] == (ireq, head));
            }
            list.push((ireq, head));
        }
    }
    assert(want.take(want.len() as int) =~= want);
    list
}

} // verus!
